use jot::cli::is_reserved;
use jot::cli::{Action, Cmd};
use jot::commands::{init, open, removal_report, remove, rename, run, RunEvent, RunState, RunStep};
use jot::config::{load, Config, Variant};
use jot::error::JotError;
use jot::frontmatter::{apply_tags, join, split, Front};
use jot::io::{editor_outcome, open_editor, seed_from_template, SeedStep};
use jot::list::{label_width, list_variant, nothing_to_list, variant_label, ListedNote};
use jot::paths::{self, config_path, has_md_extension, jot_home, path_file_stem, template_path, variant_dir};
use jot::resolve::{resolve, Timestamp};
use jot::search::{classify_note, search_needle, search_report, searched_dir, Hit, NoteMatch};
use jot::text::{decimal_text, is_blank_str, same_text};

fn variant(alias: &str) -> Variant {
    Variant { subcommand: alias.to_string(), description: None }
}

fn config_of(keys: &[(&str, &str)]) -> Config {
    Config::from_entries(keys.iter().map(|(k, a)| (k.to_string(), variant(a))).collect())
}

fn keys(c: &Config) -> Vec<String> {
    c.entries().iter().map(|(k, _)| k.clone()).collect()
}

#[test]
fn join_follows_path_rules() {
    assert_eq!(paths::join("a", "b"), "a/b");
    assert_eq!(paths::join("a/", "b"), "a/b");
    assert_eq!(paths::join("a", "/b"), "/b");
    assert_eq!(paths::join("", "b"), "b");
    assert_eq!(paths::join("a", ""), "a/");
}

#[test]
fn paths_of_the_notes_directory() {
    assert_eq!(config_path("/home/u/.jot"), "/home/u/.jot/config.toml");
    assert_eq!(variant_dir("/home/u/.jot", "work"), "/home/u/.jot/work");
    assert_eq!(template_path("/home/u/.jot", "work"), "/home/u/.jot/templates/work.template");
    assert_eq!(template_path("/home/u/.jot/", "work"), "/home/u/.jot/templates/work.template");
}

#[test]
fn jot_home_needs_home() {
    assert!(matches!(jot_home(None), Err(JotError::NoHome)));
    assert_eq!(jot_home(Some("/root".to_string())).unwrap(), "/root/.jot");
}

#[test]
fn file_stems_follow_path_rules() {
    assert_eq!(path_file_stem("a/b.c.md"), Some("b.c"));
    assert_eq!(path_file_stem(".bashrc"), Some(".bashrc"));
    assert_eq!(path_file_stem("a/b/"), Some("b"));
    assert_eq!(path_file_stem("a/./"), Some("a"));
    assert_eq!(path_file_stem("x."), Some("x"));
    assert_eq!(path_file_stem("a/.."), None);
    assert_eq!(path_file_stem("."), None);
    assert_eq!(path_file_stem("/"), None);
    assert_eq!(path_file_stem(""), None);
}

#[test]
fn markdown_extension() {
    assert!(has_md_extension("x.md"));
    assert!(has_md_extension("a.b.md"));
    assert!(!has_md_extension(".md"));
    assert!(!has_md_extension("x.MD"));
    assert!(!has_md_extension("md"));
    assert!(!has_md_extension("x.mdx"));
}

#[test]
fn text_helpers() {
    assert!(is_blank_str(" \n\t\u{3000}"));
    assert!(is_blank_str(""));
    assert!(!is_blank_str(" x "));
    assert_eq!(decimal_text(0), "0");
    assert_eq!(decimal_text(1234), "1234");
    assert!(same_text("abc", "abc"));
    assert!(!same_text("abc", "abd"));
}

#[test]
fn split_without_closing_marker_is_all_body() {
    let text = "+++\ntitle = 1\nno end";
    assert_eq!(split(text), (None, text));
}

#[test]
fn split_keeps_front_text_without_newline_after_opening() {
    assert_eq!(split("+++a = 1\n+++rest"), (Some("a = 1"), "rest"));
    assert_eq!(split("+++\n\n+++\n\n\nbody"), (Some(""), "\nbody"));
}

#[test]
fn join_of_blank_front_is_body() {
    assert_eq!(join(" \n", "body\n"), "body\n");
    assert_eq!(join("", "body\n"), "body\n");
}

#[test]
fn join_then_split_gives_both_back() {
    let out = join("a = 1\n", "\nbody\n");
    assert_eq!(out, "+++\na = 1\n+++\n\n\nbody\n");
    assert_eq!(split(&out), (Some("a = 1"), "\nbody\n"));
}

#[test]
fn apply_tags_appends_new_tags_once() {
    let mut front =
        Front::new(vec!["a".to_string()], vec![("title".to_string(), toml::Value::Integer(1))]).unwrap();
    apply_tags(&mut front, vec!["b".to_string(), "a".to_string(), "b".to_string(), "c".to_string()]);
    assert_eq!(front.tags(), &vec!["a", "b", "c"]);
    assert_eq!(front.extra().len(), 1);
    apply_tags(&mut front, vec!["c".to_string(), "b".to_string()]);
    assert_eq!(front.tags(), &vec!["a", "b", "c"]);
    let (tags, extra) = front.into_parts();
    assert_eq!(tags, vec!["a", "b", "c"]);
    assert_eq!(extra, vec![("title".to_string(), toml::Value::Integer(1))]);
}

/// The front matter of a front text, read as the program reads it: `tags` into
/// the tags, every other key into the other entries.
fn front_of(front_text: Option<&str>) -> Front {
    let mut table: toml::Table = toml::from_str(front_text.unwrap_or("")).unwrap_or_default();
    let tags = match table.remove("tags") {
        Some(toml::Value::Array(a)) => a.iter().filter_map(|v| v.as_str().map(|s| s.to_string())).collect(),
        _ => Vec::new(),
    };
    Front::new(tags, table.into_iter().collect()).unwrap()
}

/// The text of a front matter, written as the program writes it.
fn text_of_front(front: Front) -> String {
    let (tags, extra) = front.into_parts();
    let mut table = toml::Table::new();
    if !tags.is_empty() {
        table.insert("tags".to_string(), toml::Value::Array(tags.into_iter().map(toml::Value::String).collect()));
    }
    for (k, v) in extra {
        table.insert(k, v);
    }
    toml::to_string(&table).unwrap()
}

#[test]
fn tags_and_other_keys_survive_a_round_trip() {
    let text = "+++\ntitle = \"foo\"\ntags = [\"a\"]\nn = 3\n+++\n\n\nbody\n";
    let (front_text, body) = split(text);
    assert_eq!(body, "\nbody\n");
    let mut front = front_of(front_text);
    assert_eq!(front.extra().len(), 2);
    apply_tags(&mut front, vec!["b".to_string(), "a".to_string()]);
    let out = join(&text_of_front(front), body);
    let (back_text, back_body) = split(&out);
    assert_eq!(back_body, "\nbody\n");
    let back = front_of(back_text);
    assert_eq!(back.tags(), &vec!["a", "b"]);
    assert_eq!(back.extra(), &vec![
        ("n".to_string(), toml::Value::Integer(3)),
        ("title".to_string(), toml::Value::String("foo".to_string())),
    ]);
}

#[test]
fn front_keys_ascend_once_and_leave_tags_out() {
    let v = |k: &str| (k.to_string(), toml::Value::Boolean(true));
    assert!(Front::new(vec![], vec![]).is_some());
    assert!(Front::new(vec![], vec![v("a"), v("b"), v("ba")]).is_some());
    assert!(Front::new(vec![], vec![v("b"), v("a")]).is_none());
    assert!(Front::new(vec![], vec![v("a"), v("a")]).is_none());
    assert!(Front::new(vec![], vec![v("a"), v("tags")]).is_none());
    assert!(Front::new(vec![], vec![v("Z"), v("a"), v("\u{e9}")]).is_some());
}

#[test]
fn messages_of_errors() {
    assert_eq!(JotError::NoHome.describe(), "HOME is not set");
    assert_eq!(JotError::NoEditor.describe(), "EDITOR is not set");
    assert_eq!(JotError::ReservedName("init".to_string()).describe(), "variant name \"init\" is reserved");
    assert_eq!(JotError::ReservedName("list".to_string()).describe(), "variant name \"list\" is reserved");
    assert_eq!(JotError::UnknownVariant("a b".to_string()).describe(), "unknown variant \"a b\"");
    assert_eq!(JotError::UnknownVariant("tab\t".to_string()).describe(), "unknown variant \"tab\\t\"");
    assert_eq!(JotError::UnknownVariant("x\"y".to_string()).describe(), "unknown variant \"x\\\"y\"");
    assert_eq!(JotError::AlreadyExists("w".to_string()).describe(), "variant \"w\" already exists");
    assert_eq!(JotError::EditorFailed("exit status: 1".to_string()).describe(), "editor exited with exit status: 1");
    assert_eq!(JotError::PathTaken("/x/y".to_string()).describe(), "path already exists: /x/y");
    let io = JotError::from(std::io::Error::new(std::io::ErrorKind::Other, "boom"));
    assert_eq!(io.describe(), "io error: boom");
    let bad = toml::from_str::<toml::Table>("= 1").unwrap_err();
    let expected = format!("config parse: {bad}");
    assert!(expected.len() > "config parse: ".len());
    assert_eq!(JotError::from(bad).describe(), expected);
    let unwritable = toml::to_string(&vec![1, 2]).unwrap_err();
    let expected = format!("config serialize: {unwritable}");
    assert!(expected.len() > "config serialize: ".len());
    assert_eq!(JotError::from(unwritable).describe(), expected);
}

#[test]
fn reserved_names() {
    for n in ["init", "list", "open", "rename", "remove", "search"] {
        assert!(is_reserved(n));
    }
    assert!(!is_reserved("work"));
    assert!(!is_reserved("Init"));
}

#[test]
fn config_keeps_keys_in_order() {
    let mut c = config_of(&[("zeta", "z"), ("alpha", "a"), ("mid", "m"), ("alpha", "a2")]);
    assert_eq!(keys(&c), vec!["alpha", "mid", "zeta"]);
    assert_eq!(c.get("alpha").unwrap().subcommand, "a2");
    assert!(c.contains_key("mid"));
    assert!(!c.contains_key("nope"));
    let old = c.insert("beta".to_string(), variant("b"));
    assert!(old.is_none());
    assert_eq!(keys(&c), vec!["alpha", "beta", "mid", "zeta"]);
    let old = c.insert("mid".to_string(), variant("m2"));
    assert_eq!(old.unwrap().subcommand, "m");
    assert_eq!(c.remove("alpha").unwrap().subcommand, "a2");
    assert!(c.remove("alpha").is_none());
    assert_eq!(keys(&c), vec!["beta", "mid", "zeta"]);
    assert!(!c.is_empty());
    assert!(Config::new().is_empty());
}

#[test]
fn load_refuses_reserved_keys() {
    assert!(load(None).unwrap().is_empty());
    let c = load(Some(Ok(config_of(&[("work", "w")])))).unwrap();
    assert_eq!(keys(&c), vec!["work"]);
    match load(Some(Ok(config_of(&[("search", "s"), ("init", "i"), ("work", "w")])))) {
        Err(JotError::ReservedName(n)) => assert_eq!(n, "init"),
        _ => panic!("expected a reserved name"),
    }
    assert!(matches!(load(Some(Err(JotError::NoHome))), Err(JotError::NoHome)));
}

#[test]
fn rename_refusals_come_in_order() {
    let c = || Ok(config_of(&[("work", "w"), ("home", "h")]));
    assert!(matches!(rename("/j", c(), "work", "list", false, false), Err(JotError::ReservedName(n)) if n == "list"));
    assert!(matches!(rename("/j", Err(JotError::NoHome), "work", "list", false, false), Err(JotError::ReservedName(_))));
    assert!(matches!(rename("/j", Err(JotError::NoHome), "work", "x", false, false), Err(JotError::NoHome)));
    assert!(matches!(rename("/j", c(), "nope", "x", true, true), Err(JotError::UnknownVariant(n)) if n == "nope"));
    assert!(matches!(rename("/j", c(), "work", "home", true, true), Err(JotError::AlreadyExists(n)) if n == "home"));
    assert!(matches!(rename("/j", c(), "work", "x", true, true), Err(JotError::PathTaken(p)) if p == "/j/x"));
    assert!(matches!(rename("/j", c(), "work", "x", false, true), Err(JotError::PathTaken(p)) if p == "/j/templates/x.template"));
}

#[test]
fn rename_moves_the_variant() {
    let plan = rename("/j", Ok(config_of(&[("work", "w"), ("home", "h")])), "work", "job", false, false).unwrap();
    assert_eq!(keys(&plan.config), vec!["home", "job"]);
    assert_eq!(plan.config.get("job").unwrap().subcommand, "w");
    assert_eq!(plan.moves, vec![
        ("/j/work".to_string(), "/j/job".to_string()),
        ("/j/templates/work.template".to_string(), "/j/templates/job.template".to_string()),
    ]);
    assert_eq!(plan.message, "renamed work to job");
    let back = rename("/j", Ok(plan.config), "job", "work", false, false).unwrap();
    assert_eq!(keys(&back.config), vec!["home", "work"]);
    assert_eq!(back.config.get("work").unwrap().subcommand, "w");
}

#[test]
fn remove_takes_the_variant_out() {
    let plan = remove("/j", Ok(config_of(&[("work", "w"), ("home", "h")])), "work").unwrap();
    assert_eq!(keys(&plan.config), vec!["home"]);
    assert_eq!(plan.template, "/j/templates/work.template");
    assert_eq!(plan.dir, "/j/work");
    assert!(matches!(remove("/j", Ok(config_of(&[("home", "h")])), "work"), Err(JotError::UnknownVariant(n)) if n == "work"));
    assert_eq!(removal_report("work", "/j/work", false), vec!["removed variant work"]);
    assert_eq!(removal_report("work", "/j/work", true), vec![
        "removed variant work",
        "note: entries kept at /j/work",
        "      remove manually with: rm -rf /j/work",
    ]);
}

#[test]
fn init_and_editor() {
    let plan = init("/j", false);
    assert_eq!(plan.dirs, vec!["/j", "/j/templates"]);
    assert_eq!(plan.config_file, Some("/j/config.toml".to_string()));
    assert_eq!(plan.message, "initialized /j");
    assert_eq!(init("/j", true).config_file, None);
    assert!(matches!(open("/j", None), Err(JotError::NoEditor)));
    let l = open("/j", Some("vi".to_string())).unwrap();
    assert_eq!((l.program.as_str(), l.path.as_str()), ("vi", "/j"));
    let l = open_editor("/j/n.md", Some("nano".to_string())).unwrap();
    assert_eq!(l.path, "/j/n.md");
    assert!(editor_outcome(true, "exit status: 0".to_string()).is_ok());
    assert!(matches!(editor_outcome(false, "exit status: 2".to_string()), Err(JotError::EditorFailed(s)) if s == "exit status: 2"));
}

#[test]
fn seeding_a_new_note() {
    let now = Timestamp::new(2026, 1, 2, 3, 4).unwrap();
    let e = resolve("work", "/j", &now);
    assert!(matches!(seed_from_template(&e, true, true), SeedStep::Keep));
    assert!(matches!(seed_from_template(&e, false, true), SeedStep::Copy { from, to } if from == "/j/templates/work.template" && to == "/j/work/01-02-2026_03-04.md"));
    assert!(matches!(seed_from_template(&e, false, false), SeedStep::Create { path } if path == "/j/work/01-02-2026_03-04.md"));
}

#[test]
fn timestamps_are_real_minutes() {
    assert!(Timestamp::new(2023, 2, 29, 0, 0).is_none());
    assert!(Timestamp::new(2024, 2, 29, 0, 0).is_some());
    assert!(Timestamp::new(1900, 2, 29, 0, 0).is_none());
    assert!(Timestamp::new(2000, 2, 29, 0, 0).is_some());
    assert!(Timestamp::new(2024, 4, 31, 0, 0).is_none());
    assert!(Timestamp::new(2024, 13, 1, 0, 0).is_none());
    assert!(Timestamp::new(2024, 1, 1, 24, 0).is_none());
    assert!(Timestamp::new(2024, 1, 1, 0, 60).is_none());
    assert_eq!(Timestamp::new(5, 1, 2, 3, 4).unwrap().stamp(), "01-02-0005_03-04");
    assert_eq!(Timestamp::new(12345, 1, 2, 3, 4).unwrap().stamp(), "01-02-+12345_03-04");
    assert_eq!(Timestamp::new(-1, 1, 2, 3, 4).unwrap().stamp(), "01-02--0001_03-04");
}

#[test]
fn resolved_note_names_its_minute() {
    let now = Timestamp::new(2026, 8, 24, 14, 32).unwrap();
    let e = resolve("note", "/tmp/jot", &now);
    assert_eq!(jot::resolve::note_timestamp(&e.file_path), Some(now));
}

fn note(path: &[&str]) -> ListedNote {
    ListedNote::new(path.iter().map(|s| s.to_string()).collect())
}

#[test]
fn labels_line_up() {
    assert_eq!(variant_label("work", "w"), "work ('w')");
    let c = config_of(&[("work", "w"), ("a", "longer")]);
    assert_eq!(label_width(&c), "a ('longer')".len());
    assert_eq!(label_width(&Config::new()), 0);
    assert_eq!(nothing_to_list(&Config::new()), Some("no variants configured".to_string()));
    assert_eq!(nothing_to_list(&c), None);
}

#[test]
fn notes_named_otherwise_have_no_minute() {
    assert!(note(&["ideas.md"]).timestamp.is_none());
    assert!(note(&["sub", " x.md"]).timestamp.is_none());
    assert!(note(&["sub", "   "]).timestamp.is_none());
    assert!(jot::resolve::note_timestamp("").is_none());
    assert_eq!(note(&["sub", "08-27-2026_17-51.md"]).timestamp, Timestamp::new(2026, 8, 27, 17, 51));
}

#[test]
fn listing_is_newest_first() {
    let notes = vec![
        note(&["ideas.md"]),
        note(&["01-02-2026_10-00.md"]),
        note(&["sub", "03-01-2026_09-00.md"]),
        note(&["01-02-2026_09-59.md"]),
        note(&["zzz.md"]),
    ];
    let lines = list_variant(14, "work", "w", notes, 3);
    assert_eq!(lines, vec![
        "work ('w') -------------------- (5)",
        "├── sub/03-01-2026_09-00.md",
        "├── 01-02-2026_10-00.md",
        "└── 01-02-2026_09-59.md",
    ]);
    let lines = list_variant(0, "work", "w", vec![note(&["b.md"]), note(&["a.md"])], 10);
    assert_eq!(lines, vec!["work ('w') ---------------- (2)", "├── b.md", "└── a.md"]);
    let lines = list_variant(0, "work", "w", vec![], 10);
    assert_eq!(lines, vec!["work ('w') ---------------- (0)"]);
}

#[test]
fn listing_orders_paths_by_component() {
    let lines = list_variant(0, "k", "a", vec![note(&["a.b"]), note(&["a", "b"])], 5);
    assert_eq!(lines[1], "├── a.b");
    assert_eq!(lines[2], "└── a/b");
}

#[test]
fn search_matches_tags_first() {
    let needle = search_needle("URG");
    assert_eq!(needle, "urg");
    let tags = vec!["Urgent".to_string()];
    assert_eq!(classify_note(&needle, &tags, Some("x.md"), "urg"), NoteMatch::Tag);
    assert_eq!(classify_note(&needle, &vec![], Some("URGENT.md"), ""), NoteMatch::Body);
    assert_eq!(classify_note(&needle, &vec![], Some("x.md"), "very URGent"), NoteMatch::Body);
    assert_eq!(classify_note(&needle, &vec!["work".to_string()], None, "nothing"), NoteMatch::Miss);
    assert_eq!(classify_note("", &vec![], None, ""), NoteMatch::Body);
    assert!(searched_dir(Some("work")));
    assert!(!searched_dir(Some("templates")));
    assert!(searched_dir(None));
}

#[test]
fn search_report_is_most_recent_first() {
    let hit = |p: &str, t: i128| Hit { path: p.to_string(), mtime: t };
    assert_eq!(search_report(vec![], vec![]), vec!["no matches"]);
    let lines = search_report(
        vec![hit("t1", 5), hit("t2", 9)],
        vec![hit("b1", 3), hit("b2", 3), hit("b3", 7)],
    );
    assert_eq!(lines, vec!["[tag] t2", "[tag] t1", "      b3", "      b1", "      b2"]);
}

#[test]
fn a_run_goes_step_by_step() {
    let (s, step) = run(RunState::Start, RunEvent::Started { home_var: None });
    assert!(matches!(s, RunState::Done));
    assert!(matches!(step, RunStep::Exit { outcome: Err(JotError::NoHome) }));
    let (s, step) = run(RunState::Start, RunEvent::Started { home_var: Some("/home/u".to_string()) });
    assert!(matches!(&s, RunState::Located { home } if home == "/home/u/.jot"));
    assert!(matches!(step, RunStep::LoadConfig { home } if home == "/home/u/.jot"));
    let (s2, step) = run(s, RunEvent::ConfigRead { error: Some(JotError::ReservedName("list".to_string())) });
    assert!(matches!(s2, RunState::Done));
    assert!(matches!(step, RunStep::Exit { outcome: Err(JotError::ReservedName(n)) } if n == "list"));
    let s = RunState::Located { home: "/j".to_string() };
    let (s, step) = run(s, RunEvent::ConfigRead { error: None });
    assert!(matches!(step, RunStep::ParseArgs));
    let (s, step) = run(s, RunEvent::Parsed { action: Action::Static(Cmd::List { limit: 3 }) });
    assert!(matches!(step, RunStep::Execute { home, action: Action::Static(Cmd::List { limit: 3 }) } if home == "/j"));
    let (s, step) = run(s, RunEvent::Finished { outcome: Err(JotError::NoEditor) });
    assert!(matches!(s, RunState::Done));
    assert!(matches!(step, RunStep::Exit { outcome: Err(JotError::NoEditor) }));
}

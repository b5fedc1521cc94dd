use jot::frontmatter;
use jot::resolve::{note_timestamp, resolve, Timestamp};

fn table(front_text: &str) -> toml::Table {
    toml::from_str::<toml::Table>(front_text).unwrap_or_default()
}

fn tags_of(t: &toml::Table) -> Vec<String> {
    match t.get("tags").and_then(|v| v.as_array()) {
        Some(a) => a.iter().filter_map(|v| v.as_str().map(|s| s.to_string())).collect(),
        None => Vec::new(),
    }
}

#[test]
fn note_timestamp_comes_from_generated_filename() {
    assert_eq!(
        note_timestamp("nested/08-27-2026_17-51.md"),
        Timestamp::new(2026, 8, 27, 17, 51)
    );
}

#[test]
fn note_timestamp_ignores_manually_named_files() {
    assert_eq!(note_timestamp("nested/ideas.md"), None);
}

#[test]
fn split_no_frontmatter() {
    let (front, body) = frontmatter::split("hello world\n");
    let front = table(front.unwrap_or(""));
    assert!(tags_of(&front).is_empty());
    assert_eq!(body, "hello world\n");
}

#[test]
fn split_with_tags() {
    let text = "+++\ntags = [\"work\", \"urgent\"]\n+++\n\nhello\n";
    let (front, body) = frontmatter::split(text);
    let front = table(front.unwrap_or(""));
    assert_eq!(tags_of(&front), vec!["work", "urgent"]);
    assert_eq!(body, "hello\n");
}

#[test]
fn roundtrip_preserves_extra() {
    let text = "+++\ntitle = \"foo\"\ntags = [\"a\"]\n+++\n\nbody\n";
    let (front, body) = frontmatter::split(text);
    let mut front = table(front.unwrap_or(""));
    let mut tags = tags_of(&front);
    tags.push("b".to_string());
    front.insert(
        "tags".to_string(),
        toml::Value::Array(tags.into_iter().map(toml::Value::String).collect()),
    );
    let front_text = toml::to_string(&front).unwrap_or_default();
    let out = frontmatter::join(&front_text, body);
    let (back, _) = frontmatter::split(&out);
    let back = table(back.unwrap_or(""));
    assert_eq!(tags_of(&back), vec!["a", "b"]);
    assert_eq!(
        back.get("title").and_then(|v| v.as_str()),
        Some("foo")
    );
}

#[test]
fn resolve_uses_mm_dd_yyyy() {
    let home = "/tmp/jot";
    let now = Timestamp::new(2026, 8, 24, 14, 32).unwrap();
    let entry = resolve("note", home, &now);
    assert_eq!(entry.dir, "/tmp/jot/note");
    assert_eq!(entry.file_path, "/tmp/jot/note/08-24-2026_14-32.md");
    assert_eq!(entry.template_path, "/tmp/jot/templates/note.template");
}

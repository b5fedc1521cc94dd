use vstd::prelude::*;
use vstd::string::*;

use crate::cli;
use crate::config::{Config, Variant};
use crate::error::JotError;
use crate::frontmatter::views;
use crate::io::{self, EditorLaunch};
use crate::paths;

verus! {

/// What initialising the notes directory does: the directories to create, the
/// empty configuration file to write (if there is none yet), and what to say.
pub struct InitPlan {
    pub dirs: Vec<String>,
    pub config_file: Option<String>,
    pub message: String,
}

/// Initialises the notes directory `home`: it and its `templates` directory are
/// created, an empty configuration file is written unless one exists, and the
/// directory is named.
pub fn init(home: &str, config_exists: bool) -> (r: InitPlan)
    ensures
        views(r.dirs@) == seq![home@, paths::join_path(home@, "templates"@)],
        config_exists ==> r.config_file is None,
        !config_exists ==> (r.config_file matches Some(p) && p@ == paths::join_path(home@, "config.toml"@)),
        r.message@ == "initialized "@ + home@,
{
    let mut dirs: Vec<String> = Vec::new();
    dirs.push(home.to_string());
    dirs.push(paths::join(home, "templates"));
    assert(views(dirs@) =~= seq![home@, paths::join_path(home@, "templates"@)]);
    let config_file = if config_exists { None } else { Some(paths::config_path(home)) };
    let mut message = "initialized ".to_string();
    message.append(home);
    InitPlan { dirs, config_file, message }
}

/// Opens the notes directory in the editor, given the value of `EDITOR`.
pub fn open(home: &str, editor: Option<String>) -> (r: Result<EditorLaunch, JotError>)
    ensures
        match editor {
            None => r matches Err(JotError::NoEditor),
            Some(e) => r matches Ok(l) && l.program@ == e@ && l.path@ == home@,
        },
{
    io::open_editor(home, editor)
}

/// The variants after renaming `from` to `to`: the variant moves to the new key.
pub open spec fn renamed(m: Map<Seq<char>, Variant>, from: Seq<char>, to: Seq<char>) -> Map<Seq<char>, Variant> {
    m.remove(from).insert(to, m[from])
}

/// What renaming a variant does: the configuration to save, the paths to move
/// (each only where it exists: the variant's directory, then its template), and
/// what to say.
pub struct RenamePlan {
    pub config: Config,
    pub moves: Vec<(String, String)>,
    pub message: String,
}

/// Renames the variant `from` to `to` in the configuration as it was loaded.
/// Refused, in this order: when `to` names a built-in command; when loading
/// failed; when there is no variant `from`; when another variant is called
/// `to`; when the directory or the template that `to` would have exists.
pub fn rename(
    home: &str,
    loaded: Result<Config, JotError>,
    from: &str,
    to: &str,
    to_dir_exists: bool,
    to_template_exists: bool,
) -> (r: Result<RenamePlan, JotError>)
    ensures
        cli::is_reserved_name(to@) ==> (r matches Err(JotError::ReservedName(n)) && n@ == to@),
        !cli::is_reserved_name(to@) ==> match loaded {
            Err(e) => r == Err::<RenamePlan, JotError>(e),
            Ok(c) => if !c@.dom().contains(from@) {
                r matches Err(JotError::UnknownVariant(n)) && n@ == from@
            } else if c@.remove(from@).dom().contains(to@) {
                r matches Err(JotError::AlreadyExists(n)) && n@ == to@
            } else if to_dir_exists {
                r matches Err(JotError::PathTaken(p)) && p@ == paths::join_path(home@, to@)
            } else if to_template_exists {
                r matches Err(JotError::PathTaken(p)) && p@ == paths::template_of(home@, to@)
            } else {
                r matches Ok(plan) && {
                    &&& plan.config@ == renamed(c@, from@, to@)
                    &&& plan.moves@.len() == 2
                    &&& plan.moves@[0].0@ == paths::join_path(home@, from@)
                    &&& plan.moves@[0].1@ == paths::join_path(home@, to@)
                    &&& plan.moves@[1].0@ == paths::template_of(home@, from@)
                    &&& plan.moves@[1].1@ == paths::template_of(home@, to@)
                    &&& plan.message@ == "renamed "@ + from@ + " to "@ + to@
                }
            },
        },
{
    if cli::is_reserved(to) {
        return Err(JotError::ReservedName(to.to_string()));
    }
    let mut config = match loaded {
        Err(e) => {
            return Err(e);
        },
        Ok(c) => c,
    };
    let ghost before = config@;
    let variant = match config.remove(from) {
        None => {
            return Err(JotError::UnknownVariant(from.to_string()));
        },
        Some(v) => v,
    };
    if config.contains_key(to) {
        return Err(JotError::AlreadyExists(to.to_string()));
    }
    let to_dir = paths::variant_dir(home, to);
    if to_dir_exists {
        return Err(JotError::PathTaken(to_dir));
    }
    let to_template = paths::template_path(home, to);
    if to_template_exists {
        return Err(JotError::PathTaken(to_template));
    }
    let mut moves: Vec<(String, String)> = Vec::new();
    moves.push((paths::variant_dir(home, from), to_dir));
    moves.push((paths::template_path(home, from), to_template));
    config.insert(to.to_string(), variant);
    let mut message = "renamed ".to_string();
    message.append(from);
    message.append(" to ");
    message.append(to);
    Ok(RenamePlan { config, moves, message })
}

/// What removing a variant does: the configuration to save, the template to
/// delete (where it exists), and the directory of its notes, which is kept.
pub struct RemovePlan {
    pub config: Config,
    pub template: String,
    pub dir: String,
}

/// Removes the variant `key` from the configuration as it was loaded. Refused
/// when loading failed, or when there is no such variant.
pub fn remove(home: &str, loaded: Result<Config, JotError>, key: &str) -> (r: Result<RemovePlan, JotError>)
    ensures
        match loaded {
            Err(e) => r == Err::<RemovePlan, JotError>(e),
            Ok(c) => if !c@.dom().contains(key@) {
                r matches Err(JotError::UnknownVariant(n)) && n@ == key@
            } else {
                r matches Ok(plan) && plan.config@ == c@.remove(key@) && plan.template@
                    == paths::template_of(home@, key@) && plan.dir@ == paths::join_path(home@, key@)
            },
        },
{
    let mut config = match loaded {
        Err(e) => {
            return Err(e);
        },
        Ok(c) => c,
    };
    if config.remove(key).is_none() {
        return Err(JotError::UnknownVariant(key.to_string()));
    }
    let template = paths::template_path(home, key);
    let dir = paths::variant_dir(home, key);
    Ok(RemovePlan { config, template, dir })
}

/// What to say after removing a variant: that it was removed, and, when the
/// directory of its notes is still there, where it is and how to delete it.
pub fn removal_report(key: &str, dir: &str, dir_exists: bool) -> (lines: Vec<String>)
    ensures
        dir_exists ==> views(lines@) == seq![
            "removed variant "@ + key@,
            "note: entries kept at "@ + dir@,
            "      remove manually with: rm -rf "@ + dir@,
        ],
        !dir_exists ==> views(lines@) == seq!["removed variant "@ + key@],
{
    let mut lines: Vec<String> = Vec::new();
    let mut first = "removed variant ".to_string();
    first.append(key);
    lines.push(first);
    if dir_exists {
        let mut second = "note: entries kept at ".to_string();
        second.append(dir);
        lines.push(second);
        let mut third = "      remove manually with: rm -rf ".to_string();
        third.append(dir);
        lines.push(third);
    }
    assert(dir_exists ==> views(lines@) =~= seq![
        "removed variant "@ + key@,
        "note: entries kept at "@ + dir@,
        "      remove manually with: rm -rf "@ + dir@,
    ]);
    assert(!dir_exists ==> views(lines@) =~= seq!["removed variant "@ + key@]);
    lines
}

/// Renaming a variant and renaming it back gives the variants there were.
pub proof fn lemma_rename_back(m: Map<Seq<char>, Variant>, from: Seq<char>, to: Seq<char>)
    requires
        m.dom().contains(from),
        !m.remove(from).dom().contains(to),
    ensures
        renamed(m, from, to).dom().contains(to),
        !renamed(m, from, to).remove(to).dom().contains(from),
        renamed(renamed(m, from, to), to, from) == m,
{
    let r = renamed(m, from, to);
    assert(r.remove(to) =~= m.remove(from));
    assert(renamed(r, to, from) =~= m);
}

} // verus!

verus! {

/// Where a run of the program stands.
pub enum RunState {
    /// Nothing has happened yet.
    Start,
    /// The notes directory is known; its configuration is being read.
    Located { home: String },
    /// The configuration is read; the command line is being read.
    Configured { home: String },
    /// The command is being carried out.
    Executing,
    /// The run is over.
    Done,
}

/// What happened since the last step.
pub enum RunEvent {
    /// The run began; `HOME` has this value (none when it is not set or not Unicode).
    Started { home_var: Option<String> },
    /// Reading the configuration ended, with this error if it failed.
    ConfigRead { error: Option<JotError> },
    /// The command line asks for this.
    Parsed { action: cli::Action },
    /// The command ended with this outcome.
    Finished { outcome: Result<(), JotError> },
}

/// What to do next.
pub enum RunStep {
    /// Read the configuration of the notes directory.
    LoadConfig { home: String },
    /// Read the command line against the configuration.
    ParseArgs,
    /// Carry out what the command line asks for, in the notes directory.
    Execute { home: String, action: cli::Action },
    /// End the run with this outcome.
    Exit { outcome: Result<(), JotError> },
}

/// One step of a run of the program: the notes directory comes from `HOME`, then
/// the configuration is read, then the command line, then the command is carried
/// out; the first error ends the run with that error.
pub fn run(state: RunState, event: RunEvent) -> (r: (RunState, RunStep))
    ensures
        match (state, event) {
            (RunState::Start, RunEvent::Started { home_var: None }) => r.0 is Done
                && r.1 matches RunStep::Exit { outcome: Err(JotError::NoHome) },
            (RunState::Start, RunEvent::Started { home_var: Some(h) }) => {
                &&& r.0 matches RunState::Located { home } && home@ == paths::join_path(h@, ".jot"@)
                &&& r.1 matches RunStep::LoadConfig { home: h2 } && h2@ == paths::join_path(h@, ".jot"@)
            },
            (RunState::Located { home }, RunEvent::ConfigRead { error: None }) => r.0
                == RunState::Configured { home } && r.1 is ParseArgs,
            (RunState::Located { home }, RunEvent::ConfigRead { error: Some(e) }) => r.0 is Done && r.1
                == RunStep::Exit { outcome: Err(e) },
            (RunState::Configured { home }, RunEvent::Parsed { action }) => r.0 is Executing && r.1
                == RunStep::Execute { home, action },
            (RunState::Executing, RunEvent::Finished { outcome }) => r.0 is Done && r.1 == RunStep::Exit {
                outcome,
            },
            _ => r.0 is Done && r.1 matches RunStep::Exit { outcome: Ok(()) },
        },
{
    match (state, event) {
        (RunState::Start, RunEvent::Started { home_var }) => match paths::jot_home(home_var) {
            Err(e) => (RunState::Done, RunStep::Exit { outcome: Err(e) }),
            Ok(home) => {
                let next = home.clone();
                (RunState::Located { home }, RunStep::LoadConfig { home: next })
            },
        },
        (RunState::Located { home }, RunEvent::ConfigRead { error }) => match error {
            None => (RunState::Configured { home }, RunStep::ParseArgs),
            Some(e) => (RunState::Done, RunStep::Exit { outcome: Err(e) }),
        },
        (RunState::Configured { home }, RunEvent::Parsed { action }) => (
            RunState::Executing,
            RunStep::Execute { home, action },
        ),
        (RunState::Executing, RunEvent::Finished { outcome }) => (RunState::Done, RunStep::Exit { outcome }),
        _ => (RunState::Done, RunStep::Exit { outcome: Ok(()) }),
    }
}

} // verus!

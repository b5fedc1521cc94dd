use vstd::prelude::*;
use vstd::string::*;

verus! {

/// An input/output error of the standard library, carried as it came.
#[verifier::external_type_specification]
#[verifier::external_body]
pub struct ExIoError(std::io::Error);

/// An error of the `toml` crate in reading TOML text.
#[verifier::external_type_specification]
#[verifier::external_body]
pub struct ExTomlDeError(toml::de::Error);

/// An error of the `toml` crate in writing TOML text.
#[verifier::external_type_specification]
#[verifier::external_body]
pub struct ExTomlSerError(toml::ser::Error);

/// Everything that can go wrong in a command.
#[derive(Debug)]
pub enum JotError {
    Io(std::io::Error),
    NoHome,
    NoEditor,
    ConfigParse(toml::de::Error),
    ConfigSerialize(toml::ser::Error),
    ReservedName(String),
    UnknownVariant(String),
    AlreadyExists(String),
    /// The editor ran and failed; the text says how it exited.
    EditorFailed(String),
    /// A path that a command would create exists already.
    PathTaken(String),
}

impl From<std::io::Error> for JotError {
    fn from(e: std::io::Error) -> (r: Self) {
        JotError::Io(e)
    }
}

impl vstd::std_specs::convert::FromSpecImpl<std::io::Error> for JotError {
    open spec fn obeys_from_spec() -> bool {
        true
    }

    open spec fn from_spec(e: std::io::Error) -> Self {
        JotError::Io(e)
    }
}

impl From<toml::de::Error> for JotError {
    fn from(e: toml::de::Error) -> (r: Self) {
        JotError::ConfigParse(e)
    }
}

impl vstd::std_specs::convert::FromSpecImpl<toml::de::Error> for JotError {
    open spec fn obeys_from_spec() -> bool {
        true
    }

    open spec fn from_spec(e: toml::de::Error) -> Self {
        JotError::ConfigParse(e)
    }
}

impl From<toml::ser::Error> for JotError {
    fn from(e: toml::ser::Error) -> (r: Self) {
        JotError::ConfigSerialize(e)
    }
}

impl vstd::std_specs::convert::FromSpecImpl<toml::ser::Error> for JotError {
    open spec fn obeys_from_spec() -> bool {
        true
    }

    open spec fn from_spec(e: toml::ser::Error) -> Self {
        JotError::ConfigSerialize(e)
    }
}

/// What `{:?}` writes for a string: the string between double quotes, with
/// quotes, backslashes and characters that are not printable escaped.
pub uninterp spec fn debug_text(s: Seq<char>) -> Seq<char>;

/// A character that `{:?}` writes as it is: printable ASCII other than `"` and `\`.
pub open spec fn is_plain(c: char) -> bool {
    0x20 <= (c as u32) && (c as u32) <= 0x7e && c != '"' && c != '\\'
}

/// Every character of `s` is plain.
pub open spec fn all_plain(s: Seq<char>) -> bool {
    forall|i: int| 0 <= i < s.len() ==> is_plain(#[trigger] s[i])
}

/// `s` between double quotes.
pub open spec fn quoted(s: Seq<char>) -> Seq<char> {
    seq!['"'] + s + seq!['"']
}

/// The `Debug` form of a string, from the standard library. The result is named
/// by `debug_text`; for a string of plain characters it is the string between
/// double quotes. What the escapes of other characters look like is not stated.
#[verifier::external_body]
fn debug_quoted(s: &str) -> (r: String)
    ensures
        r@ == debug_text(s@),
        all_plain(s@) ==> r@ == quoted(s@),
{
    format!("{s:?}")
}

/// The message of an input/output error, from its `Display`. It depends on the
/// operating system, so nothing is stated of it.
#[verifier::external_body]
fn io_error_text(e: &std::io::Error) -> String {
    e.to_string()
}

/// What the `Display` of a TOML reading error writes: its message, with where in
/// the text the reading failed.
pub uninterp spec fn toml_de_message(e: toml::de::Error) -> Seq<char>;

/// What the `Display` of a TOML writing error writes.
pub uninterp spec fn toml_ser_message(e: toml::ser::Error) -> Seq<char>;

/// The message of a TOML reading error, from its `Display`. It depends on the
/// error alone; its text is named by `toml_de_message`, not written out.
#[verifier::external_body]
fn toml_de_error_text(e: &toml::de::Error) -> (r: String)
    ensures
        r@ == toml_de_message(*e),
{
    e.to_string()
}

/// The message of a TOML writing error, from its `Display`. It depends on the
/// error alone; its text is named by `toml_ser_message`, not written out.
#[verifier::external_body]
fn toml_ser_error_text(e: &toml::ser::Error) -> (r: String)
    ensures
        r@ == toml_ser_message(*e),
{
    e.to_string()
}

/// `r` is `prefix` followed by something.
pub open spec fn begins(r: Seq<char>, prefix: Seq<char>) -> bool {
    r.len() >= prefix.len() && r.take(prefix.len() as int) == prefix
}

/// What the message of an error says. A name that the message quotes is written
/// as `{:?}` writes it: for a name of plain characters, the name between double
/// quotes.
pub open spec fn describes(e: JotError, r: Seq<char>) -> bool {
    match e {
        JotError::Io(_) => begins(r, "io error: "@),
        JotError::NoHome => r == "HOME is not set"@,
        JotError::NoEditor => r == "EDITOR is not set"@,
        JotError::ConfigParse(e) => r == "config parse: "@ + toml_de_message(e),
        JotError::ConfigSerialize(e) => r == "config serialize: "@ + toml_ser_message(e),
        JotError::ReservedName(n) => {
            &&& r == "variant name "@ + debug_text(n@) + " is reserved"@
            &&& all_plain(n@) ==> r == "variant name "@ + quoted(n@) + " is reserved"@
        },
        JotError::UnknownVariant(n) => {
            &&& r == "unknown variant "@ + debug_text(n@)
            &&& all_plain(n@) ==> r == "unknown variant "@ + quoted(n@)
        },
        JotError::AlreadyExists(n) => {
            &&& r == "variant "@ + debug_text(n@) + " already exists"@
            &&& all_plain(n@) ==> r == "variant "@ + quoted(n@) + " already exists"@
        },
        JotError::EditorFailed(s) => r == "editor exited with "@ + s@,
        JotError::PathTaken(p) => r == "path already exists: "@ + p@,
    }
}

fn concat2(a: &str, b: &str) -> (r: String)
    ensures
        r@ == a@ + b@,
{
    let mut r = a.to_string();
    r.append(b);
    r
}

fn concat3(a: &str, b: &str, c: &str) -> (r: String)
    ensures
        r@ == a@ + b@ + c@,
{
    let mut r = a.to_string();
    r.append(b);
    r.append(c);
    r
}

impl JotError {
    /// The message that tells a user what went wrong.
    pub fn describe(&self) -> (r: String)
        ensures
            describes(*self, r@),
    {
        match self {
            JotError::Io(e) => {
                let r = concat2("io error: ", io_error_text(e).as_str());
                proof {
                    assert(r@.take("io error: "@.len() as int) =~= "io error: "@);
                }
                r
            },
            JotError::NoHome => "HOME is not set".to_string(),
            JotError::NoEditor => "EDITOR is not set".to_string(),
            JotError::ConfigParse(e) => {
                concat2("config parse: ", toml_de_error_text(e).as_str())
            },
            JotError::ConfigSerialize(e) => {
                concat2("config serialize: ", toml_ser_error_text(e).as_str())
            },
            JotError::ReservedName(n) => concat3(
                "variant name ",
                debug_quoted(n.as_str()).as_str(),
                " is reserved",
            ),
            JotError::UnknownVariant(n) => concat2("unknown variant ", debug_quoted(n.as_str()).as_str()),
            JotError::AlreadyExists(n) => concat3(
                "variant ",
                debug_quoted(n.as_str()).as_str(),
                " already exists",
            ),
            JotError::EditorFailed(s) => concat2("editor exited with ", s.as_str()),
            JotError::PathTaken(p) => concat2("path already exists: ", p.as_str()),
        }
    }
}

} // verus!

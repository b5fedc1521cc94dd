use vstd::prelude::*;
use vstd::string::*;

use crate::paths;
use crate::text;
use chrono::{Datelike, Timelike};

verus! {

/// A date and time of day to the minute, on the proleptic Gregorian calendar, in
/// the range that `chrono` can represent.
#[derive(Clone, Copy, Debug, PartialEq, Eq, Structural)]
pub struct Timestamp {
    year: i32,
    month: u32,
    day: u32,
    hour: u32,
    minute: u32,
}

/// Whether `y` is a leap year.
pub open spec fn is_leap_year(y: int) -> bool {
    (y % 4 == 0 && y % 100 != 0) || y % 400 == 0
}

/// The number of days in month `m` of year `y`.
pub open spec fn days_in_month(y: int, m: int) -> int {
    if m == 2 {
        if is_leap_year(y) {
            29
        } else {
            28
        }
    } else if m == 4 || m == 6 || m == 9 || m == 11 {
        30
    } else {
        31
    }
}

/// The fields name a real minute of a real day within `chrono`'s years.
pub open spec fn valid_fields(year: int, month: int, day: int, hour: int, minute: int) -> bool {
    &&& -262143 <= year <= 262142
    &&& 1 <= month <= 12
    &&& 1 <= day <= days_in_month(year, month)
    &&& 0 <= hour < 24
    &&& 0 <= minute < 60
}

impl Timestamp {
    #[verifier::type_invariant]
    spec fn is_valid(self) -> bool {
        valid_fields(self.year as int, self.month as int, self.day as int, self.hour as int, self.minute as int)
    }

    /// The fields of the timestamp: year, month, day, hour, minute.
    pub closed spec fn fields(self) -> (int, int, int, int, int) {
        (self.year as int, self.month as int, self.day as int, self.hour as int, self.minute as int)
    }

    /// The timestamp of the given minute, if the fields name one: every real
    /// minute of the Gregorian calendar in `chrono`'s years is accepted.
    pub fn new(year: i32, month: u32, day: u32, hour: u32, minute: u32) -> (r: Option<Timestamp>)
        ensures
            r is Some <==> valid_fields(year as int, month as int, day as int, hour as int, minute as int),
            match r {
                Some(t) => valid_fields(year as int, month as int, day as int, hour as int, minute as int)
                    && t.fields() == (year as int, month as int, day as int, hour as int, minute as int),
                None => !valid_fields(year as int, month as int, day as int, hour as int, minute as int),
            },
    {
        if !(-262143 <= year && year <= 262142 && 1 <= month && month <= 12 && hour < 24 && minute < 60) {
            return None;
        }
        let leap = (year % 4 == 0 && year % 100 != 0) || year % 400 == 0;
        proof {
            assert(leap == is_leap_year(year as int)) by (nonlinear_arith)
                requires
                    leap == ((year % 4 == 0 && year % 100 != 0) || year % 400 == 0),
                    -262143 <= year <= 262142,
            {
            }
        }
        let days: u32 = if month == 2 {
            if leap { 29 } else { 28 }
        } else if month == 4 || month == 6 || month == 9 || month == 11 {
            30
        } else {
            31
        };
        if day < 1 || day > days {
            return None;
        }
        Some(Timestamp { year, month, day, hour, minute })
    }

    pub fn year(&self) -> (r: i32)
        ensures
            r as int == self.fields().0,
    {
        self.year
    }

    pub fn month(&self) -> (r: u32)
        ensures
            r as int == self.fields().1,
    {
        self.month
    }

    pub fn day(&self) -> (r: u32)
        ensures
            r as int == self.fields().2,
    {
        self.day
    }

    pub fn hour(&self) -> (r: u32)
        ensures
            r as int == self.fields().3,
    {
        self.hour
    }

    pub fn minute(&self) -> (r: u32)
        ensures
            r as int == self.fields().4,
    {
        self.minute
    }
}


/// The decimal digits of `n`, with zeros in front to make at least `width` of them.
pub open spec fn zero_padded(n: nat, width: nat) -> Seq<char> {
    let d = text::decimal(n);
    if d.len() >= width {
        d
    } else {
        Seq::new((width - d.len()) as nat, |i: int| '0') + d
    }
}

/// A year as `%Y` writes it: four digits at least, with a sign for years before
/// 0 or after 9999.
pub open spec fn year_text(y: int) -> Seq<char> {
    if 0 <= y <= 9999 {
        zero_padded(y as nat, 4)
    } else if y < 0 {
        seq!['-'] + zero_padded((-y) as nat, 4)
    } else {
        seq!['+'] + zero_padded(y as nat, 4)
    }
}

/// The stamp that names a note's file: `MM-DD-YYYY_HH-MM`.
pub open spec fn stamp_text(f: (int, int, int, int, int)) -> Seq<char> {
    zero_padded(f.1 as nat, 2) + seq!['-'] + zero_padded(f.2 as nat, 2) + seq!['-'] + year_text(f.0)
        + seq!['_'] + zero_padded(f.3 as nat, 2) + seq!['-'] + zero_padded(f.4 as nat, 2)
}

/// Formats a timestamp with `chrono`'s `format("%m-%d-%Y_%H-%M")`. The contract
/// states what `chrono` documents of these specifiers: month, day, hour and
/// minute as two zero-padded digits, the year zero-padded to four digits, with a
/// sign outside 0 to 9999.
#[verifier::external_body]
fn format_stamp(year: i32, month: u32, day: u32, hour: u32, minute: u32) -> (r: String)
    requires
        valid_fields(year as int, month as int, day as int, hour as int, minute as int),
    ensures
        r@ == stamp_text((year as int, month as int, day as int, hour as int, minute as int)),
{
    chrono::NaiveDate::from_ymd_opt(year, month, day)
        .and_then(|d| d.and_hms_opt(hour, minute, 0))
        .map(|t| t.format("%m-%d-%Y_%H-%M").to_string())
        .unwrap_or_default()
}

/// Whether `c` is an ASCII digit.
pub open spec fn is_ascii_digit(c: char) -> bool {
    48 <= (c as u32) && (c as u32) <= 57
}

/// The first character of `stem` that is not white space is not an ASCII digit,
/// or there is none: no month can be read from the front of the stem.
pub open spec fn month_unreadable(stem: Seq<char>) -> bool {
    forall|k: int|
        0 <= k < stem.len() && (forall|i: int| 0 <= i < k ==> text::is_white(#[trigger] stem[i]))
            && !text::is_white(#[trigger] stem[k]) ==> !is_ascii_digit(stem[k])
}

/// What `chrono::NaiveDateTime::parse_from_str(stem, "%m-%d-%Y_%H-%M")` reads
/// from a file stem: the year, month, day, hour and minute, or nothing when it
/// refuses the text.
pub uninterp spec fn parsed_stamp(stem: Seq<char>) -> Option<(int, int, int, int, int)>;

/// Reads a file stem as a stamp with `chrono`'s `NaiveDateTime::parse_from_str`
/// and the format `%m-%d-%Y_%H-%M`. The contract names the result (`chrono`'s
/// parser accepts more than the format shows, such as single digits and white
/// space) and states two facts its source shows: what it reads is a real minute,
/// and a stamp that `format_stamp` wrote for a real minute reads back as that
/// minute (the month, day, hour and minute are two digits each, the year four
/// digits or a sign and more, and the separators are matched as written). A
/// third fact: the format begins with the month, which `chrono` reads after
/// skipping white space and only from ASCII digits, so a stem whose first
/// character that is not white space is not a digit (or that has none) is
/// refused.
#[verifier::external_body]
fn parse_stamp(stem: &str) -> (r: Option<(i32, u32, u32, u32, u32)>)
    ensures
        match r {
            Some(f) => parsed_stamp(stem@) == Some((f.0 as int, f.1 as int, f.2 as int, f.3 as int, f.4 as int))
                && valid_fields(f.0 as int, f.1 as int, f.2 as int, f.3 as int, f.4 as int),
            None => parsed_stamp(stem@) is None,
        },
        r is Some || forall|f: (int, int, int, int, int)|
            !(valid_fields(f.0, f.1, f.2, f.3, f.4) && #[trigger] stamp_text(f) == stem@),
        month_unreadable(stem@) ==> r is None,
        r matches Some(g) ==> forall|f: (int, int, int, int, int)|
            valid_fields(f.0, f.1, f.2, f.3, f.4) && #[trigger] stamp_text(f) == stem@ ==> (g.0 as int == f.0
                && g.1 as int == f.1 && g.2 as int == f.2 && g.3 as int == f.3 && g.4 as int == f.4),
{
    chrono::NaiveDateTime::parse_from_str(stem, "%m-%d-%Y_%H-%M")
        .ok()
        .map(|t| (t.year(), t.month(), t.day(), t.hour(), t.minute()))
}

impl Timestamp {
    /// The stamp of this minute: `MM-DD-YYYY_HH-MM`.
    pub fn stamp(&self) -> (r: String)
        ensures
            r@ == stamp_text(self.fields()),
    {
        proof {
            use_type_invariant(self);
        }
        format_stamp(self.year, self.month, self.day, self.hour, self.minute)
    }
}

/// The fields of a timestamp, if there is one.
pub open spec fn stamp_fields(t: Option<Timestamp>) -> Option<(int, int, int, int, int)> {
    match t {
        Some(x) => Some(x.fields()),
        None => None,
    }
}

/// The minute a note's path names: the stem of its file name read as a stamp.
pub open spec fn stamp_of_path(path: Seq<char>) -> Option<(int, int, int, int, int)> {
    match paths::file_name(path) {
        None => None,
        Some(n) => parsed_stamp(paths::file_stem(n)),
    }
}

/// The stem of the file name of `path` is the stamp of `f`.
pub open spec fn names_stamp(path: Seq<char>, f: (int, int, int, int, int)) -> bool {
    paths::file_name(path) matches Some(n) && paths::file_stem(n) == stamp_text(f)
}

/// The path has no file name, or the stem of its file name is not read as a
/// stamp because it does not begin with a digit.
pub open spec fn names_no_stamp(path: Seq<char>) -> bool {
    match paths::file_name(path) {
        None => true,
        Some(n) => month_unreadable(paths::file_stem(n)),
    }
}

/// The timestamp a note's path names: its file stem read as a stamp, if it is one.
/// A file named by a stamp gets that stamp; a file whose stem does not begin with
/// a digit gets none.
pub fn note_timestamp(path: &str) -> (r: Option<Timestamp>)
    ensures
        stamp_fields(r) == stamp_of_path(path@),
        forall|f: (int, int, int, int, int)|
            valid_fields(f.0, f.1, f.2, f.3, f.4) && #[trigger] names_stamp(path@, f) ==> stamp_fields(r) == Some(f),
        names_no_stamp(path@) ==> r is None,
{
    let stem = match paths::path_file_stem(path) {
        None => {
            return None;
        },
        Some(s) => s,
    };
    match parse_stamp(stem) {
        None => None,
        Some((year, month, day, hour, minute)) => Some(Timestamp { year, month, day, hour, minute }),
    }
}

/// Where a new note goes: its variant's directory, its file, and the template it
/// starts from.
pub struct ResolvedEntry {
    pub dir: String,
    pub file_path: String,
    pub template_path: String,
}

/// Where the note of a variant written at `now` goes: the file `<stamp>.md` in the
/// variant's directory, started from the variant's template.
pub fn resolve(variant_key: &str, home: &str, now: &Timestamp) -> (e: ResolvedEntry)
    ensures
        e.dir@ == paths::join_path(home@, variant_key@),
        e.file_path@ == paths::join_path(e.dir@, stamp_text(now.fields()) + ".md"@),
        e.template_path@ == paths::template_of(home@, variant_key@),
{
    let dir = paths::variant_dir(home, variant_key);
    let mut name = now.stamp();
    name.append(".md");
    let file_path = paths::join(dir.as_str(), name.as_str());
    let template_path = paths::template_path(home, variant_key);
    ResolvedEntry { dir, file_path, template_path }
}

} // verus!

verus! {

/// A character of a stamp: a digit, `-`, `_` or `+`.
pub open spec fn is_stamp_char(c: char) -> bool {
    (48 <= (c as u32) && (c as u32) <= 57) || c == '-' || c == '_' || c == '+'
}

/// All characters of `s` are characters of a stamp.
pub open spec fn stamp_chars(s: Seq<char>) -> bool {
    forall|i: int| 0 <= i < s.len() ==> is_stamp_char(#[trigger] s[i])
}

proof fn lemma_stamp_chars_concat(a: Seq<char>, b: Seq<char>)
    requires
        stamp_chars(a),
        stamp_chars(b),
    ensures
        stamp_chars(a + b),
{
    assert forall|i: int| 0 <= i < (a + b).len() implies is_stamp_char(#[trigger] (a + b)[i]) by {
        if i < a.len() {
            assert((a + b)[i] == a[i]);
        } else {
            assert((a + b)[i] == b[i - a.len()]);
        }
    }
}

proof fn lemma_decimal_chars(n: nat)
    ensures
        stamp_chars(text::decimal(n)),
        text::decimal(n).len() >= 1,
    decreases n,
{
    if n >= 10 {
        lemma_decimal_chars(n / 10);
        lemma_stamp_chars_concat(text::decimal(n / 10), seq![text::digit((n % 10) as int)]);
    }
}

proof fn lemma_padded_chars(n: nat, width: nat)
    ensures
        stamp_chars(zero_padded(n, width)),
        zero_padded(n, width).len() >= 1,
{
    lemma_decimal_chars(n);
    let d = text::decimal(n);
    if d.len() < width {
        let zeros = Seq::new((width - d.len()) as nat, |i: int| '0');
        assert(stamp_chars(zeros));
        lemma_stamp_chars_concat(zeros, d);
    }
}

/// A stamp is made of digits, `-`, `_` and `+`, and is not empty.
pub proof fn lemma_stamp_chars(f: (int, int, int, int, int))
    ensures
        stamp_chars(stamp_text(f)),
        stamp_text(f).len() >= 1,
{
    let m = zero_padded(f.1 as nat, 2);
    let d = zero_padded(f.2 as nat, 2);
    let h = zero_padded(f.3 as nat, 2);
    let mi = zero_padded(f.4 as nat, 2);
    lemma_padded_chars(f.1 as nat, 2);
    lemma_padded_chars(f.2 as nat, 2);
    lemma_padded_chars(f.3 as nat, 2);
    lemma_padded_chars(f.4 as nat, 2);
    let y = year_text(f.0);
    if 0 <= f.0 <= 9999 {
        lemma_padded_chars(f.0 as nat, 4);
    } else if f.0 < 0 {
        lemma_padded_chars((-f.0) as nat, 4);
        lemma_stamp_chars_concat(seq!['-'], zero_padded((-f.0) as nat, 4));
    } else {
        lemma_padded_chars(f.0 as nat, 4);
        lemma_stamp_chars_concat(seq!['+'], zero_padded(f.0 as nat, 4));
    }
    let dash = seq!['-'];
    let under = seq!['_'];
    assert(stamp_chars(dash) && stamp_chars(under));
    lemma_stamp_chars_concat(m, dash);
    lemma_stamp_chars_concat(m + dash, d);
    lemma_stamp_chars_concat(m + dash + d, dash);
    lemma_stamp_chars_concat(m + dash + d + dash, y);
    lemma_stamp_chars_concat(m + dash + d + dash + y, under);
    lemma_stamp_chars_concat(m + dash + d + dash + y + under, h);
    lemma_stamp_chars_concat(m + dash + d + dash + y + under + h, dash);
    lemma_stamp_chars_concat(m + dash + d + dash + y + under + h + dash, mi);
}

/// The file that `resolve` names for a minute names that minute: the stem of
/// its file name is the minute's stamp, so `note_timestamp` reads the path back
/// as the minute.
pub proof fn lemma_resolved_file_names_stamp(dir: Seq<char>, f: (int, int, int, int, int))
    ensures
        names_stamp(paths::join_path(dir, stamp_text(f) + ".md"@), f),
{
    reveal_strlit(".md");
    let st = stamp_text(f);
    lemma_stamp_chars(f);
    let name = st + ".md"@;
    assert(name.len() == st.len() + 3);
    assert forall|i: int| 0 <= i < name.len() implies #[trigger] name[i] != '/' by {
        if i < st.len() {
            assert(name[i] == st[i]);
            assert(is_stamp_char(st[i]));
        }
    }
    assert(name != seq!['.']);
    assert(name != seq!['.', '.']) by {
        if st.len() == 1 {
            assert(name[0] == st[0]);
            assert(is_stamp_char(st[0]));
        }
    }
    paths::lemma_file_name_of_join(dir, name);
    assert(name[st.len() as int] == '.');
    assert forall|j: int| st.len() < j < name.len() implies name[j] != '.' by {}
    paths::lemma_stem_at(name, st.len() as int);
    assert(name.take(st.len() as int) =~= st);
}

/// The months of the Gregorian calendar: January, March, May, July, August,
/// October and December have 31 days; April, June, September and November 30;
/// February 29 in a year divisible by 4 but not by 100, or by 400, and 28 else.
pub proof fn lemma_month_lengths(y: int, m: int)
    requires
        1 <= m <= 12,
    ensures
        m == 1 || m == 3 || m == 5 || m == 7 || m == 8 || m == 10 || m == 12 ==> days_in_month(y, m) == 31,
        m == 4 || m == 6 || m == 9 || m == 11 ==> days_in_month(y, m) == 30,
        m == 2 && ((y % 4 == 0 && y % 100 != 0) || y % 400 == 0) ==> days_in_month(y, m) == 29,
        m == 2 && !((y % 4 == 0 && y % 100 != 0) || y % 400 == 0) ==> days_in_month(y, m) == 28,
{
}

/// A year has 365 days, or 366 in a leap year.
pub proof fn lemma_year_length(y: int)
    ensures
        days_in_month(y, 1) + days_in_month(y, 2) + days_in_month(y, 3) + days_in_month(y, 4) + days_in_month(y, 5)
            + days_in_month(y, 6) + days_in_month(y, 7) + days_in_month(y, 8) + days_in_month(y, 9)
            + days_in_month(y, 10) + days_in_month(y, 11) + days_in_month(y, 12) == if (y % 4 == 0 && y % 100
            != 0) || y % 400 == 0 {
            366int
        } else {
            365int
        },
{
}

/// Timestamps name exactly the real minutes of `chrono`'s years: a year in its
/// range, a month from 1 to 12, a day from 1 to the length of that month in the
/// Gregorian calendar, an hour below 24 and a minute below 60.
pub proof fn lemma_real_minutes(year: int, month: int, day: int, hour: int, minute: int)
    ensures
        valid_fields(year, month, day, hour, minute) <==> {
            &&& -262143 <= year <= 262142
            &&& 1 <= month <= 12
            &&& 1 <= day
            &&& day <= 28 || (day <= 30 && month != 2) || (day == 31 && (month == 1 || month == 3 || month == 5
                || month == 7 || month == 8 || month == 10 || month == 12)) || (day == 29 && month == 2 && ((year
                % 4 == 0 && year % 100 != 0) || year % 400 == 0))
            &&& 0 <= hour < 24
            &&& 0 <= minute < 60
        },
{
}

} // verus!

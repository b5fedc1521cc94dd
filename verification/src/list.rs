use vstd::prelude::*;
use vstd::string::*;

use crate::config::{self, Config, Variant};
use crate::frontmatter::views;
use crate::paths;
use crate::resolve::{self, Timestamp};
use crate::sort::{self, Ranked};
use crate::text::{self, Order};

verus! {

/// The paths `a` and `b` (as lists of components) agree before component `k`,
/// and `a` is smaller at `k`: it ends there while `b` goes on, or its component
/// there comes first.
pub open spec fn path_smaller_at(a: Seq<Seq<char>>, b: Seq<Seq<char>>, k: int) -> bool {
    &&& 0 <= k <= a.len()
    &&& k <= b.len()
    &&& forall|j: int| 0 <= j < k ==> a[j] == b[j]
    &&& ((k == a.len() && k < b.len()) || (k < a.len() && k < b.len() && text::text_lt(a[k], b[k])))
}

/// `a` comes before `b` in the order of paths: component by component.
pub open spec fn path_lt(a: Seq<Seq<char>>, b: Seq<Seq<char>>) -> bool {
    exists|k: int| path_smaller_at(a, b, k)
}

proof fn lemma_path_lt_asymmetric(a: Seq<Seq<char>>, b: Seq<Seq<char>>)
    ensures
        !(path_lt(a, b) && path_lt(b, a)),
        !path_lt(a, a),
{
    if path_lt(a, b) && path_lt(b, a) {
        let k1 = choose|k: int| path_smaller_at(a, b, k);
        let k2 = choose|k: int| path_smaller_at(b, a, k);
        if k1 < k2 {
            assert(b[k1] == a[k1]);
            text::lemma_text_lt_asymmetric(a[k1], a[k1]);
        } else if k2 < k1 {
            assert(a[k2] == b[k2]);
            text::lemma_text_lt_asymmetric(a[k2], a[k2]);
        } else if k1 < a.len() && k1 < b.len() {
            text::lemma_text_lt_asymmetric(a[k1], b[k1]);
        }
    }
    if path_lt(a, a) {
        let k = choose|k: int| path_smaller_at(a, a, k);
        if k < a.len() {
            text::lemma_text_lt_asymmetric(a[k], a[k]);
        }
    }
}

proof fn lemma_path_lt_total(a: Seq<Seq<char>>, b: Seq<Seq<char>>)
    ensures
        a == b || path_lt(a, b) || path_lt(b, a),
{
    if a != b {
        let n = if a.len() < b.len() { a.len() as int } else { b.len() as int };
        if forall|j: int| 0 <= j < n ==> a[j] == b[j] {
            if a.len() == b.len() {
                assert(a =~= b);
            } else if a.len() < b.len() {
                assert(path_smaller_at(a, b, n));
            } else {
                assert(path_smaller_at(b, a, n));
            }
        } else {
            let w = choose|j: int| 0 <= j < n && a[j] != b[j];
            lemma_path_first_difference(a, b, n, w);
        }
    }
}

proof fn lemma_path_first_difference(a: Seq<Seq<char>>, b: Seq<Seq<char>>, n: int, w: int)
    requires
        n <= a.len(),
        n <= b.len(),
        0 <= w < n,
        a[w] != b[w],
    ensures
        path_lt(a, b) || path_lt(b, a),
    decreases w,
{
    if exists|j: int| 0 <= j < w && a[j] != b[j] {
        let j = choose|j: int| 0 <= j < w && a[j] != b[j];
        lemma_path_first_difference(a, b, n, j);
    } else {
        text::lemma_text_lt_total(a[w], b[w]);
        if text::text_lt(a[w], b[w]) {
            assert(path_smaller_at(a, b, w));
        } else {
            assert(path_smaller_at(b, a, w));
        }
    }
}

proof fn lemma_path_lt_transitive(a: Seq<Seq<char>>, b: Seq<Seq<char>>, c: Seq<Seq<char>>)
    requires
        path_lt(a, b),
        path_lt(b, c),
    ensures
        path_lt(a, c),
{
    let k1 = choose|k: int| path_smaller_at(a, b, k);
    let k2 = choose|k: int| path_smaller_at(b, c, k);
    if k1 < k2 {
        assert(path_smaller_at(a, c, k1));
    } else if k2 < k1 {
        assert(path_smaller_at(a, c, k2));
    } else {
        if k1 < a.len() && k1 < c.len() {
            text::lemma_text_lt_transitive(a[k1], b[k1], c[k1]);
        }
        assert(path_smaller_at(a, c, k1));
    }
}

/// Compares two paths, given as their components, in the order of paths.
fn compare_paths(a: &Vec<String>, b: &Vec<String>) -> (r: Order)
    ensures
        (r == Order::Less) == path_lt(views(a@), views(b@)),
        (r == Order::Equal) == (views(a@) == views(b@)),
        (r == Order::Greater) == path_lt(views(b@), views(a@)),
{
    let ghost va = views(a@);
    let ghost vb = views(b@);
    proof {
        lemma_path_lt_asymmetric(va, vb);
        lemma_path_lt_total(va, vb);
    }
    let n = if a.len() < b.len() { a.len() } else { b.len() };
    let mut k: usize = 0;
    while k < n
        invariant
            va == views(a@),
            vb == views(b@),
            n <= a.len(),
            n <= b.len(),
            n == a.len() || n == b.len(),
            k <= n,
            forall|j: int| 0 <= j < k ==> va[j] == vb[j],
        decreases n - k,
    {
        let x = text::chars_of(a[k].as_str());
        let y = text::chars_of(b[k].as_str());
        match text::compare_texts(&x, &y) {
            Order::Less => {
                assert(path_smaller_at(va, vb, k as int));
                return Order::Less;
            },
            Order::Greater => {
                assert(path_smaller_at(vb, va, k as int));
                return Order::Greater;
            },
            Order::Equal => {},
        }
        k = k + 1;
    }
    if a.len() < b.len() {
        assert(path_smaller_at(va, vb, k as int));
        Order::Less
    } else if b.len() < a.len() {
        assert(path_smaller_at(vb, va, k as int));
        Order::Greater
    } else {
        assert(va =~= vb);
        Order::Equal
    }
}

/// One minute comes before another: by year, then month, day, hour and minute.
pub open spec fn fields_lt(a: (int, int, int, int, int), b: (int, int, int, int, int)) -> bool {
    ||| a.0 < b.0
    ||| (a.0 == b.0 && a.1 < b.1)
    ||| (a.0 == b.0 && a.1 == b.1 && a.2 < b.2)
    ||| (a.0 == b.0 && a.1 == b.1 && a.2 == b.2 && a.3 < b.3)
    ||| (a.0 == b.0 && a.1 == b.1 && a.2 == b.2 && a.3 == b.3 && a.4 < b.4)
}

/// The order of optional timestamps: none comes before any.
pub open spec fn stamp_lt(a: Option<(int, int, int, int, int)>, b: Option<(int, int, int, int, int)>) -> bool {
    match (a, b) {
        (None, Some(_)) => true,
        (Some(x), Some(y)) => fields_lt(x, y),
        _ => false,
    }
}

/// A note found in a variant's directory: its path relative to that directory,
/// as its components, and the minute its file name names, if it names one.
pub struct ListedNote {
    pub path: Vec<String>,
    pub timestamp: Option<Timestamp>,
}

/// A path made of components, each joined onto the one before, starting from
/// the empty path.
pub open spec fn display_path(c: Seq<Seq<char>>) -> Seq<char>
    decreases c.len(),
{
    if c.len() == 0 {
        seq![]
    } else {
        paths::join_path(display_path(c.drop_last()), c.last())
    }
}

/// The note `a` comes before the note `b` in ascending order: by timestamp, then
/// by path.
pub open spec fn note_lt(a: ListedNote, b: ListedNote) -> bool {
    ||| stamp_lt(resolve::stamp_fields(a.timestamp), resolve::stamp_fields(b.timestamp))
    ||| (resolve::stamp_fields(a.timestamp) == resolve::stamp_fields(b.timestamp) && path_lt(
        views(a.path@),
        views(b.path@),
    ))
}

/// Two notes rank alike: the same timestamp and the same path.
pub open spec fn same_rank(a: ListedNote, b: ListedNote) -> bool {
    resolve::stamp_fields(a.timestamp) == resolve::stamp_fields(b.timestamp) && views(a.path@) == views(
        b.path@,
    )
}

proof fn lemma_note_order(a: ListedNote, b: ListedNote, c: ListedNote)
    ensures
        !(note_lt(a, b) && note_lt(b, a)),
        same_rank(a, b) || note_lt(a, b) || note_lt(b, a),
        note_lt(a, b) && note_lt(b, c) ==> note_lt(a, c),
        same_rank(a, b) ==> (note_lt(a, c) == note_lt(b, c)),
{
    lemma_path_lt_asymmetric(views(a.path@), views(b.path@));
    lemma_path_lt_total(views(a.path@), views(b.path@));
    if note_lt(a, b) && note_lt(b, c) {
        if resolve::stamp_fields(a.timestamp) == resolve::stamp_fields(b.timestamp)
            && resolve::stamp_fields(b.timestamp) == resolve::stamp_fields(c.timestamp) {
            lemma_path_lt_transitive(views(a.path@), views(b.path@), views(c.path@));
        }
    }
}

impl Ranked for ListedNote {
    /// Notes are listed newest first: a note may stand before another unless it
    /// comes before it in ascending order.
    open spec fn goes_before(self, other: Self) -> bool {
        !note_lt(self, other)
    }

    proof fn lemma_total(a: Self, b: Self) {
        lemma_note_order(a, b, b);
    }

    proof fn lemma_transitive(a: Self, b: Self, c: Self) {
        lemma_note_order(a, b, c);
        lemma_note_order(b, c, a);
        lemma_note_order(c, a, b);
        lemma_note_order(a, c, b);
        lemma_note_order(b, a, c);
        lemma_note_order(c, b, a);
    }

    fn may_precede(&self, other: &Self) -> (r: bool) {
        !note_before(self, other)
    }
}

fn fields_of(t: &Timestamp) -> (r: (i32, u32, u32, u32, u32))
    ensures
        (r.0 as int, r.1 as int, r.2 as int, r.3 as int, r.4 as int) == t.fields(),
{
    (t.year(), t.month(), t.day(), t.hour(), t.minute())
}

/// Whether `a` comes before `b` in ascending order.
fn note_before(a: &ListedNote, b: &ListedNote) -> (r: bool)
    ensures
        r == note_lt(*a, *b),
{
    match (&a.timestamp, &b.timestamp) {
        (None, Some(_)) => {
            return true;
        },
        (Some(_), None) => {
            return false;
        },
        (Some(x), Some(y)) => {
            let f = fields_of(x);
            let g = fields_of(y);
            if f.0 != g.0 {
                return f.0 < g.0;
            }
            if f.1 != g.1 {
                return f.1 < g.1;
            }
            if f.2 != g.2 {
                return f.2 < g.2;
            }
            if f.3 != g.3 {
                return f.3 < g.3;
            }
            if f.4 != g.4 {
                return f.4 < g.4;
            }
        },
        (None, None) => {},
    }
    match compare_paths(&a.path, &b.path) {
        Order::Less => true,
        _ => false,
    }
}

impl ListedNote {
    /// The note at the path with these components; its timestamp is what the
    /// stem of its file name names: the stamp of a file named by a stamp, and
    /// none for a file whose stem does not begin with a digit.
    pub fn new(path: Vec<String>) -> (r: ListedNote)
        ensures
            r.path == path,
            resolve::stamp_fields(r.timestamp) == resolve::stamp_of_path(display_path(views(path@))),
            forall|f: (int, int, int, int, int)|
                resolve::valid_fields(f.0, f.1, f.2, f.3, f.4) && #[trigger] resolve::names_stamp(
                    display_path(views(path@)),
                    f,
                ) ==> resolve::stamp_fields(r.timestamp) == Some(f),
            resolve::names_no_stamp(display_path(views(path@))) ==> r.timestamp is None,
    {
        let shown = path_text(&path);
        let timestamp = resolve::note_timestamp(shown.as_str());
        ListedNote { path, timestamp }
    }

    /// The path of the note, its components joined.
    pub fn display(&self) -> (r: String)
        ensures
            r@ == display_path(views(self.path@)),
    {
        path_text(&self.path)
    }
}

fn path_text(c: &Vec<String>) -> (r: String)
    ensures
        r@ == display_path(views(c@)),
{
    let mut r = String::new();
    let mut i: usize = 0;
    while i < c.len()
        invariant
            i <= c.len(),
            r@ == display_path(views(c@).take(i as int)),
        decreases c.len() - i,
    {
        proof {
            assert(views(c@).take(i + 1).drop_last() =~= views(c@).take(i as int));
        }
        r = paths::join(r.as_str(), c[i].as_str());
        i = i + 1;
    }
    assert(views(c@).take(i as int) =~= views(c@));
    r
}

} // verus!

verus! {

/// The label of a variant in a listing: `key ('alias')`.
pub open spec fn label_text(key: Seq<char>, alias: Seq<char>) -> Seq<char> {
    key + " ('"@ + alias + "')"@
}

/// Labels a variant by its key and alias: `key ('alias')`.
pub fn variant_label(key: &str, alias: &str) -> (r: String)
    ensures
        r@ == label_text(key@, alias@),
{
    let mut r = key.to_string();
    r.append(" ('");
    r.append(alias);
    r.append("')");
    r
}

/// The widest label, in characters, of the variants of the entries (0 for none).
pub open spec fn label_width_of(s: Seq<(String, Variant)>) -> nat
    decreases s.len(),
{
    if s.len() == 0 {
        0
    } else {
        let w = label_width_of(s.drop_last());
        let l = label_text(s.last().0@, s.last().1.subcommand@).len();
        if l > w {
            l
        } else {
            w
        }
    }
}

/// What a listing says when no variant is configured: `no variants configured`,
/// and then nothing more; none when there are variants to list.
pub fn nothing_to_list(config: &Config) -> (r: Option<String>)
    ensures
        r is Some <==> config@ == Map::<Seq<char>, Variant>::empty(),
        r matches Some(line) ==> line@ == "no variants configured"@,
{
    if config.is_empty() {
        Some("no variants configured".to_string())
    } else {
        None
    }
}

/// The width of the widest label of the configuration's variants, in characters.
pub fn label_width(config: &Config) -> (r: usize)
    ensures
        r == label_width_of(config.entries_view()),
        forall|i: int|
            0 <= i < config.entries_view().len() ==> #[trigger] label_text(
                config.entries_view()[i].0@,
                config.entries_view()[i].1.subcommand@,
            ).len() <= r,
        config.entries_view().len() > 0 ==> exists|i: int|
            0 <= i < config.entries_view().len() && #[trigger] label_text(
                config.entries_view()[i].0@,
                config.entries_view()[i].1.subcommand@,
            ).len() == r,
{
    proof {
        lemma_label_width_is_widest(config.entries_view());
    }
    let entries = config.entries();
    let mut w: usize = 0;
    let mut i: usize = 0;
    while i < entries.len()
        invariant
            entries@ == config.entries_view(),
            i <= entries.len(),
            w == label_width_of(entries@.take(i as int)),
        decreases entries.len() - i,
    {
        proof {
            assert(entries@.take(i + 1).drop_last() =~= entries@.take(i as int));
        }
        let label = variant_label(entries[i].0.as_str(), entries[i].1.subcommand.as_str());
        let l = text::chars_of(label.as_str()).len();
        if l > w {
            w = l;
        }
        i = i + 1;
    }
    assert(entries@.take(i as int) =~= entries@);
    w
}

/// `n` dashes.
pub open spec fn dashes(n: nat) -> Seq<char> {
    Seq::new(n, |i: int| '-')
}

/// The line that heads a variant in a listing: its label, a rule of dashes that
/// lines up with the widest label, and the number of its notes in brackets.
pub open spec fn header_text(label: Seq<char>, width: nat, count: nat) -> Seq<char> {
    let pad: nat = if width > label.len() { (width - label.len()) as nat } else { 0 };
    label + seq![' '] + dashes(16 + pad) + " ("@ + text::decimal(count) + ")"@
}

/// The tree branch in front of the `i`th of `shown` notes: the last one closes the tree.
pub open spec fn connector(i: int, shown: int) -> Seq<char> {
    if i + 1 == shown {
        "└──"@
    } else {
        "├──"@
    }
}

/// The line that lists the `i`th of `shown` notes.
pub open spec fn note_line(i: int, shown: int, note: ListedNote) -> Seq<char> {
    connector(i, shown) + seq![' '] + display_path(views(note.path@))
}

fn dash_rule(n: usize) -> (r: String)
    ensures
        r@ == dashes(n as nat),
{
    let mut r = String::new();
    let mut i: usize = 0;
    while i < n
        invariant
            i <= n,
            r@ == dashes(i as nat),
        decreases n - i,
    {
        r.append("-");
        proof {
            reveal_strlit("-");
            assert(r@ =~= dashes((i + 1) as nat));
        }
        i = i + 1;
    }
    r
}

/// The lines that list a variant: a header with its number of notes, then its
/// newest notes, at most `limit` of them, newest first (notes of the same minute,
/// or with no minute, by path, last first).
pub fn list_variant(label_width: usize, key: &str, alias: &str, notes: Vec<ListedNote>, limit: usize) -> (lines: Vec<String>)
    requires
        label_width <= label_text(key@, alias@).len() + (usize::MAX - 16),
    ensures
        exists|sorted: Seq<ListedNote>| {
            let shown = if notes@.len() < limit { notes@.len() as int } else { limit as int };
            &&& #[trigger] sort::sorted_stably(notes@, sorted)
            &&& lines@.len() == 1 + shown
            &&& lines@[0]@ == header_text(label_text(key@, alias@), label_width as nat, notes@.len())
            &&& forall|i: int| 0 <= i < shown ==> #[trigger] lines@[1 + i]@ == note_line(i, shown, sorted[i])
        },
{
    let ghost input = notes@;
    let mut notes = notes;
    sort::stable_sort(&mut notes);
    let label = variant_label(key, alias);
    let label_len = text::chars_of(label.as_str()).len();
    let pad = if label_width > label_len { label_width - label_len } else { 0 };
    let mut header = label;
    header.append(" ");
    header.append(dash_rule(16 + pad).as_str());
    header.append(" (");
    header.append(text::decimal_text(notes.len()).as_str());
    header.append(")");
    proof {
        reveal_strlit(" ");
        assert(header@ =~= header_text(label_text(key@, alias@), label_width as nat, input.len()));
    }
    let shown = if notes.len() < limit { notes.len() } else { limit };
    let mut lines: Vec<String> = Vec::new();
    lines.push(header);
    let mut i: usize = 0;
    while i < shown
        invariant
            shown <= notes@.len(),
            i <= shown,
            lines@.len() == 1 + i,
            lines@[0]@ == header_text(label_text(key@, alias@), label_width as nat, input.len()),
            forall|j: int| 0 <= j < i ==> #[trigger] lines@[1 + j]@ == note_line(j, shown as int, notes@[j]),
        decreases shown - i,
    {
        let mut line = if i + 1 == shown { "└──".to_string() } else { "├──".to_string() };
        line.append(" ");
        line.append(notes[i].display().as_str());
        proof {
            reveal_strlit(" ");
            assert(line@ =~= note_line(i as int, shown as int, notes@[i as int]));
        }
        lines.push(line);
        i = i + 1;
    }
    assert(sort::sorted_stably(input, notes@));
    lines
}

} // verus!

verus! {

/// Of two notes that both name a minute, the one with the later minute in the
/// calendar (a later year; or the same year and a later month; or the same month
/// and a later day; and so on down to the minute) is listed first: it may stand
/// before the other, and the other may not stand before it.
pub proof fn lemma_later_minute_first(
    a: ListedNote,
    b: ListedNote,
    x: (int, int, int, int, int),
    y: (int, int, int, int, int),
)
    requires
        resolve::stamp_fields(a.timestamp) == Some(x),
        resolve::stamp_fields(b.timestamp) == Some(y),
        x.0 < y.0 || (x.0 == y.0 && x.1 < y.1) || (x.0 == y.0 && x.1 == y.1 && x.2 < y.2) || (x.0 == y.0
            && x.1 == y.1 && x.2 == y.2 && x.3 < y.3) || (x.0 == y.0 && x.1 == y.1 && x.2 == y.2 && x.3 == y.3
            && x.4 < y.4),
    ensures
        b.goes_before(a),
        !a.goes_before(b),
{
    lemma_note_order(a, b, b);
}

/// Of two notes of the same minute (or both of none), the one whose path comes
/// later is listed first. Paths are compared component by component: `a` comes
/// before `b` when they agree before some component `k` and there `a` ends while
/// `b` goes on, or the component of `a` comes first in the order of `str`.
pub proof fn lemma_same_minute_later_path_first(a: ListedNote, b: ListedNote, k: int)
    requires
        resolve::stamp_fields(a.timestamp) == resolve::stamp_fields(b.timestamp),
        0 <= k <= a.path@.len(),
        k <= b.path@.len(),
        forall|j: int| 0 <= j < k ==> #[trigger] a.path@[j]@ == b.path@[j]@,
        (k == a.path@.len() && k < b.path@.len()) || (k < a.path@.len() && k < b.path@.len() && text::text_lt(
            a.path@[k]@,
            b.path@[k]@,
        )),
    ensures
        b.goes_before(a),
        !a.goes_before(b),
{
    let va = views(a.path@);
    let vb = views(b.path@);
    assert forall|j: int| 0 <= j < k implies va[j] == vb[j] by {
        assert(a.path@[j]@ == b.path@[j]@);
    }
    assert(path_smaller_at(va, vb, k));
    lemma_note_order(a, b, b);
}

/// A note that names a minute is listed before one that names none.
pub proof fn lemma_dated_before_undated(a: ListedNote, b: ListedNote)
    requires
        a.timestamp is Some,
        b.timestamp is None,
    ensures
        a.goes_before(b),
        !b.goes_before(a),
{
}

/// In notes sorted for a listing, of two notes that both name a minute the one
/// earlier in the calendar never comes first, and a note that names no minute is
/// never followed by one that names a minute.
pub proof fn lemma_listing_newest_first(
    notes: Seq<ListedNote>,
    sorted: Seq<ListedNote>,
    i: int,
    j: int,
    x: (int, int, int, int, int),
    y: (int, int, int, int, int),
)
    requires
        sort::sorted_stably(notes, sorted),
        0 <= i < j < sorted.len(),
    ensures
        resolve::stamp_fields(sorted[i].timestamp) == Some(x) && resolve::stamp_fields(sorted[j].timestamp) == Some(y)
            ==> !(x.0 < y.0 || (x.0 == y.0 && x.1 < y.1) || (x.0 == y.0 && x.1 == y.1 && x.2 < y.2) || (x.0
            == y.0 && x.1 == y.1 && x.2 == y.2 && x.3 < y.3) || (x.0 == y.0 && x.1 == y.1 && x.2 == y.2 && x.3
            == y.3 && x.4 < y.4)),
        sorted[i].timestamp is None ==> sorted[j].timestamp is None,
{
    let p = choose|p: Seq<int>| sort::ranks_stably(notes, sorted, p);
    assert(sorted[i].goes_before(sorted[j]));
    lemma_note_order(sorted[i], sorted[j], sorted[j]);
}

/// The label width of a list of variants is the widest of their labels: no
/// label is wider, one label (if there is any) is exactly that wide, and with no
/// variants it is 0.
pub proof fn lemma_label_width_is_widest(s: Seq<(String, Variant)>)
    ensures
        forall|i: int| 0 <= i < s.len() ==> #[trigger] label_text(s[i].0@, s[i].1.subcommand@).len() <= label_width_of(s),
        s.len() > 0 ==> exists|i: int| 0 <= i < s.len() && #[trigger] label_text(s[i].0@, s[i].1.subcommand@).len()
            == label_width_of(s),
        s.len() == 0 ==> label_width_of(s) == 0,
    decreases s.len(),
{
    if s.len() > 0 {
        let t = s.drop_last();
        lemma_label_width_is_widest(t);
        assert forall|i: int| 0 <= i < s.len() implies #[trigger] label_text(s[i].0@, s[i].1.subcommand@).len()
            <= label_width_of(s) by {
            if i < t.len() {
                assert(s[i] == t[i]);
            }
        }
        let last = s.len() - 1;
        if label_text(s[last].0@, s[last].1.subcommand@).len() >= label_width_of(t) {
            assert(label_text(s[last].0@, s[last].1.subcommand@).len() == label_width_of(s));
        } else {
            let k = choose|k: int| 0 <= k < t.len() && #[trigger] label_text(t[k].0@, t[k].1.subcommand@).len()
                == label_width_of(t);
            assert(s[k] == t[k]);
            assert(label_text(s[k].0@, s[k].1.subcommand@).len() == label_width_of(s));
        }
    }
}

/// Headers line up: when the label width is at least a label's length, the
/// header starts with the label and a space, dashes fill it up to column
/// `width + 17`, and the count follows there in brackets, so the counts of all
/// variants start in the same column.
pub proof fn lemma_headers_line_up(label: Seq<char>, width: nat, count: nat)
    requires
        label.len() <= width,
    ensures
        header_text(label, width, count).take(label.len() as int) == label,
        header_text(label, width, count)[label.len() as int] == ' ',
        forall|i: int| label.len() + 1 <= i < width + 17 ==> #[trigger] header_text(label, width, count)[i] == '-',
        header_text(label, width, count).subrange(width + 17int, width + 19int) == " ("@,
        header_text(label, width, count).len() == width + 19 + text::decimal(count).len() + 1,
{
    let h = header_text(label, width, count);
    let pad: nat = (width - label.len()) as nat;
    assert(h == label + seq![' '] + dashes(16 + pad) + " ("@ + text::decimal(count) + ")"@);
    reveal_strlit(" (");
    reveal_strlit(")");
    assert(h.take(label.len() as int) =~= label);
    assert(h.subrange(width + 17int, width + 19int) =~= " ("@);
}

/// In a listing of `shown` notes, every note but the last hangs from a branch
/// `├──`, and the last closes the tree with `└──`.
pub proof fn lemma_connectors(shown: int)
    requires
        shown > 0,
    ensures
        forall|i: int| 0 <= i < shown - 1 ==> #[trigger] connector(i, shown) == "├──"@,
        connector(shown - 1, shown) == "└──"@,
{
}

} // verus!

use vstd::prelude::*;
use vstd::string::*;

use crate::frontmatter::views;
use crate::sort::{self, Ranked};
use crate::text;

verus! {

/// What `str::to_lowercase` makes of a text: each character by its Unicode
/// lowercase mapping.
pub uninterp spec fn lowercased(s: Seq<char>) -> Seq<char>;

/// Lowers the case of a text with `str::to_lowercase`. The Unicode mapping is
/// named, not written out.
#[verifier::external_body]
fn lowercase(s: &str) -> (r: String)
    ensures
        r@ == lowercased(s@),
{
    s.to_lowercase()
}

/// The needle of a search for `key`: the key lowercased.
pub fn search_needle(key: &str) -> (r: String)
    ensures
        r@ == lowercased(key@),
{
    lowercase(key)
}

/// How a note matches a search.
#[derive(Clone, Copy, Debug, PartialEq, Eq, Structural)]
pub enum NoteMatch {
    /// One of its tags holds the needle.
    Tag,
    /// Its file name or its body holds the needle.
    Body,
    /// It does not match.
    Miss,
}

/// Some tag, lowercased, holds the needle.
pub open spec fn tag_matches(tags: Seq<Seq<char>>, needle: Seq<char>) -> bool {
    exists|i: int| 0 <= i < tags.len() && text::contains_seq(lowercased(#[trigger] tags[i]), needle)
}

/// How a note with these tags, file name and body matches a lowercased needle: by
/// a tag first; else by its file name or body, lowercased.
pub open spec fn match_of(tags: Seq<Seq<char>>, file_name: Option<Seq<char>>, body: Seq<char>, needle: Seq<char>) -> NoteMatch {
    if tag_matches(tags, needle) {
        NoteMatch::Tag
    } else if (file_name matches Some(n) && text::contains_seq(lowercased(n), needle)) || text::contains_seq(
        lowercased(body),
        needle,
    ) {
        NoteMatch::Body
    } else {
        NoteMatch::Miss
    }
}

fn holds_needle(s: &str, needle: &Vec<char>) -> (r: bool)
    ensures
        r == text::contains_seq(lowercased(s@), needle@),
{
    let low = lowercase(s);
    let v = text::chars_of(low.as_str());
    text::contains(&v, needle)
}

/// How a note matches a search for `needle`, which is already lowercased: a tag
/// that holds it makes a tag match; else a file name or body that holds it, once
/// lowercased, makes a body match.
pub fn classify_note(needle: &str, tags: &Vec<String>, file_name: Option<&str>, body: &str) -> (r: NoteMatch)
    ensures
        r == match_of(views(tags@), match file_name {
            Some(n) => Some(n@),
            None => None::<Seq<char>>,
        }, body@, needle@),
        forall|i: int|
            0 <= i < tags@.len() && text::contains_seq(lowercased(#[trigger] tags@[i]@), needle@) ==> r
                == NoteMatch::Tag,
        r == NoteMatch::Tag ==> exists|i: int|
            0 <= i < tags@.len() && text::contains_seq(lowercased(#[trigger] tags@[i]@), needle@),
{
    proof {
        lemma_match_by_parts(views(tags@), match file_name {
            Some(n) => Some(n@),
            None => None::<Seq<char>>,
        }, body@, needle@);
        assert forall|i: int| 0 <= i < tags@.len() implies #[trigger] tags@[i]@ == views(tags@)[i] by {}
    }
    let nv = text::chars_of(needle);
    let mut i: usize = 0;
    while i < tags.len()
        invariant
            nv@ == needle@,
            i <= tags.len(),
            forall|j: int| 0 <= j < i ==> !text::contains_seq(lowercased(#[trigger] views(tags@)[j]), needle@),
        decreases tags.len() - i,
    {
        if holds_needle(tags[i].as_str(), &nv) {
            assert(text::contains_seq(lowercased(views(tags@)[i as int]), needle@));
            return NoteMatch::Tag;
        }
        i = i + 1;
    }
    let by_name = match file_name {
        Some(n) => holds_needle(n, &nv),
        None => false,
    };
    if by_name || holds_needle(body, &nv) {
        NoteMatch::Body
    } else {
        NoteMatch::Miss
    }
}

/// Whether a directory of the notes directory is searched: every one but `templates`.
pub fn searched_dir(name: Option<&str>) -> (r: bool)
    ensures
        r == !(name matches Some(n) && n@ == "templates"@),
{
    match name {
        Some(n) => !text::same_text(n, "templates"),
        None => true,
    }
}

/// A note that matched a search: its path, and when it was last modified, in
/// nanoseconds from the Unix epoch.
pub struct Hit {
    pub path: String,
    pub mtime: i128,
}

impl Ranked for Hit {
    /// Hits are shown most recently modified first.
    open spec fn goes_before(self, other: Self) -> bool {
        self.mtime >= other.mtime
    }

    proof fn lemma_total(a: Self, b: Self) {
    }

    proof fn lemma_transitive(a: Self, b: Self, c: Self) {
    }

    fn may_precede(&self, other: &Self) -> (r: bool) {
        self.mtime >= other.mtime
    }
}

/// What a search reports: `no matches` when nothing matched; else the tag hits,
/// then the other hits, each group most recently modified first (hits modified
/// at the same time in the order they were found).
pub open spec fn report_lines(tag_hits: Seq<Hit>, body_hits: Seq<Hit>) -> Seq<Seq<char>> {
    if tag_hits.len() == 0 && body_hits.len() == 0 {
        seq!["no matches"@]
    } else {
        Seq::new(tag_hits.len(), |i: int| "[tag] "@ + tag_hits[i].path@) + Seq::new(
            body_hits.len(),
            |i: int| "      "@ + body_hits[i].path@,
        )
    }
}

/// Reports the hits of a search.
pub fn search_report(tag_hits: Vec<Hit>, body_hits: Vec<Hit>) -> (lines: Vec<String>)
    ensures
        exists|t: Seq<Hit>, b: Seq<Hit>|
            #[trigger] sort::sorted_stably(tag_hits@, t) && #[trigger] sort::sorted_stably(body_hits@, b)
                && views(lines@) == report_lines(t, b),
        tag_hits@.len() + body_hits@.len() == 0 ==> views(lines@) == seq!["no matches"@],
        tag_hits@.len() + body_hits@.len() > 0 ==> lines@.len() == tag_hits@.len() + body_hits@.len() && forall|
            k: int,
        | 0 <= k < lines@.len() ==> #[trigger] lines@[k]@ != "no matches"@,
{
    let ghost t0 = tag_hits@;
    let ghost b0 = body_hits@;
    let mut tags = tag_hits;
    let mut bodies = body_hits;
    sort::stable_sort(&mut tags);
    sort::stable_sort(&mut bodies);
    let mut lines: Vec<String> = Vec::new();
    if tags.len() == 0 && bodies.len() == 0 {
        lines.push("no matches".to_string());
        assert(views(lines@) =~= report_lines(tags@, bodies@));
        assert(sort::sorted_stably(t0, tags@) && sort::sorted_stably(b0, bodies@));
    proof {
        lemma_report_shape(tags@, bodies@);
        let pt = choose|p: Seq<int>| sort::ranks_stably(t0, tags@, p);
        let pb = choose|p: Seq<int>| sort::ranks_stably(b0, bodies@, p);
        assert(tags@.len() == t0.len() && bodies@.len() == b0.len());
        assert forall|k: int| 0 <= k < lines@.len() implies #[trigger] lines@[k]@ == views(lines@)[k] by {}
    }
        return lines;
    }
    let mut i: usize = 0;
    while i < tags.len()
        invariant
            i <= tags.len(),
            views(lines@) =~= Seq::new(i as nat, |k: int| "[tag] "@ + tags@[k].path@),
        decreases tags.len() - i,
    {
        let mut line = "[tag] ".to_string();
        line.append(tags[i].path.as_str());
        let ghost before = lines@;
        lines.push(line);
        assert(views(lines@) =~= views(before).push(line@));
        i = i + 1;
    }
    let mut j: usize = 0;
    while j < bodies.len()
        invariant
            j <= bodies.len(),
            views(lines@) =~= Seq::new(tags@.len(), |k: int| "[tag] "@ + tags@[k].path@) + Seq::new(
                j as nat,
                |k: int| "      "@ + bodies@[k].path@,
            ),
        decreases bodies.len() - j,
    {
        let mut line = "      ".to_string();
        line.append(bodies[j].path.as_str());
        let ghost before = lines@;
        lines.push(line);
        assert(views(lines@) =~= views(before).push(line@));
        j = j + 1;
    }
    assert(views(lines@) =~= report_lines(tags@, bodies@));
    assert(sort::sorted_stably(t0, tags@) && sort::sorted_stably(b0, bodies@));
    proof {
        lemma_report_shape(tags@, bodies@);
        let pt = choose|p: Seq<int>| sort::ranks_stably(t0, tags@, p);
        let pb = choose|p: Seq<int>| sort::ranks_stably(b0, bodies@, p);
        assert(tags@.len() == t0.len() && bodies@.len() == b0.len());
        assert forall|k: int| 0 <= k < lines@.len() implies #[trigger] lines@[k]@ == views(lines@)[k] by {}
    }
    lines
}

/// How a note matches, in terms of its parts: it is a tag match exactly when
/// some tag of it, lowercased, holds the needle, whichever tag that is; it is a
/// body match exactly when no tag does but its file name or its body, lowercased,
/// does; else it does not match.
pub proof fn lemma_match_by_parts(
    tags: Seq<Seq<char>>,
    file_name: Option<Seq<char>>,
    body: Seq<char>,
    needle: Seq<char>,
)
    ensures
        forall|i: int|
            0 <= i < tags.len() && text::contains_seq(lowercased(#[trigger] tags[i]), needle) ==> match_of(
                tags,
                file_name,
                body,
                needle,
            ) == NoteMatch::Tag,
        match_of(tags, file_name, body, needle) == NoteMatch::Tag ==> exists|i: int|
            0 <= i < tags.len() && text::contains_seq(lowercased(#[trigger] tags[i]), needle),
        match_of(tags, file_name, body, needle) == NoteMatch::Body <==> (forall|i: int|
            0 <= i < tags.len() ==> !text::contains_seq(lowercased(#[trigger] tags[i]), needle)) && ((
        file_name matches Some(n) && text::contains_seq(lowercased(n), needle)) || text::contains_seq(
            lowercased(body),
            needle,
        )),
        match_of(tags, file_name, body, needle) == NoteMatch::Miss <==> (forall|i: int|
            0 <= i < tags.len() ==> !text::contains_seq(lowercased(#[trigger] tags[i]), needle)) && !((
        file_name matches Some(n) && text::contains_seq(lowercased(n), needle)) || text::contains_seq(
            lowercased(body),
            needle,
        )),
{
}

/// A search report says `no matches` exactly when there is no hit at all;
/// otherwise it has one line per hit, the tag hits first, each marked `[tag]`,
/// then the other hits, indented, and no line says `no matches`.
pub proof fn lemma_report_shape(tag_hits: Seq<Hit>, body_hits: Seq<Hit>)
    ensures
        tag_hits.len() + body_hits.len() == 0 ==> report_lines(tag_hits, body_hits) == seq!["no matches"@],
        tag_hits.len() + body_hits.len() > 0 ==> {
            &&& report_lines(tag_hits, body_hits).len() == tag_hits.len() + body_hits.len()
            &&& forall|k: int| 0 <= k < tag_hits.len() ==> #[trigger] report_lines(tag_hits, body_hits)[k]
                == "[tag] "@ + tag_hits[k].path@
            &&& forall|k: int|
                0 <= k < body_hits.len() ==> #[trigger] report_lines(tag_hits, body_hits)[tag_hits.len() + k]
                    == "      "@ + body_hits[k].path@
            &&& forall|k: int|
                0 <= k < report_lines(tag_hits, body_hits).len() ==> #[trigger] report_lines(tag_hits, body_hits)[k]
                    != "no matches"@
        },
{
    if tag_hits.len() + body_hits.len() > 0 {
        let r = report_lines(tag_hits, body_hits);
        assert forall|k: int| 0 <= k < r.len() implies #[trigger] r[k] != "no matches"@ by {
            reveal_strlit("no matches");
            reveal_strlit("[tag] ");
            reveal_strlit("      ");
            if k < tag_hits.len() {
                assert(r[k][0] == '[');
            } else {
                assert(r[k][0] == ' ');
            }
        }
    }
}

/// Sorted hits come most recently modified first, and hits modified at the same
/// time keep the order in which they were found.
pub proof fn lemma_hits_most_recent_first(found: Seq<Hit>, sorted: Seq<Hit>, i: int, j: int)
    requires
        sort::sorted_stably(found, sorted),
        0 <= i < j < sorted.len(),
    ensures
        sorted[i].mtime >= sorted[j].mtime,
        exists|p: Seq<int>|
            sort::is_permutation(p, found.len() as int) && (forall|k: int|
                0 <= k < sorted.len() ==> sorted[k] == found[#[trigger] p[k]]) && (sorted[i].mtime
                == sorted[j].mtime ==> p[i] < p[j]),
{
    let p = choose|p: Seq<int>| sort::ranks_stably(found, sorted, p);
    assert(sorted[i].goes_before(sorted[j]));
    if sorted[i].mtime == sorted[j].mtime {
        assert(sorted[j].goes_before(sorted[i]));
    }
}

} // verus!

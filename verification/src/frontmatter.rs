use vstd::prelude::*;
use vstd::string::*;

use crate::text;

verus! {

/// The marker that opens and closes a front-matter block: `+++`.
pub open spec fn delim() -> Seq<char> {
    seq!['+', '+', '+']
}

/// The closing marker as it is searched for: a newline followed by `+++`.
pub open spec fn close_marker() -> Seq<char> {
    seq!['\n', '+', '+', '+']
}

/// `s` without one leading newline, if it has one.
pub open spec fn strip_newline(s: Seq<char>) -> Seq<char> {
    if s.len() > 0 && s[0] == '\n' {
        s.skip(1)
    } else {
        s
    }
}

/// How a note's text is split into the text of its front matter (if it has a
/// well-formed front-matter block) and its body.
pub open spec fn split_spec(t: Seq<char>) -> (Option<Seq<char>>, Seq<char>) {
    if !text::starts_with(t, delim()) {
        (None, t)
    } else {
        let rest = strip_newline(t.skip(3));
        match text::first_occurrence_from(rest, close_marker(), 0) {
            None => (None, t),
            Some(c) => (Some(rest.take(c)), strip_newline(strip_newline(rest.skip(c + 4)))),
        }
    }
}

fn skip_two_newlines(v: &Vec<char>, from: usize) -> (b: usize)
    requires
        from <= v.len(),
    ensures
        from <= b <= v.len(),
        v@.skip(b as int) == strip_newline(strip_newline(v@.skip(from as int))),
{
    let n = v.len();
    let mut b = from;
    if b < n && v[b] == '\n' {
        assert(v@.skip(from as int).skip(1) =~= v@.skip(from + 1));
        b = b + 1;
    }
    let ghost once: int = b as int;
    if b < n && v[b] == '\n' {
        assert(v@.skip(once).skip(1) =~= v@.skip(once + 1));
        b = b + 1;
    }
    b
}

/// Splits a note's text into the text of its front matter and its body.
///
/// A front-matter block opens the text with `+++` (and an optional newline) and
/// closes at the first following line that begins with `+++`; up to two newlines
/// after the closing marker belong to neither part. Text without such a block is
/// all body.
pub fn split(text: &str) -> (r: (Option<&str>, &str))
    ensures
        split_spec(text@) == (match r.0 {
            Some(f) => Some(f@),
            None => None::<Seq<char>>,
        }, r.1@),
{
    let v = text::chars_of(text);
    let n = v.len();
    if !(n >= 3 && v[0] == '+' && v[1] == '+' && v[2] == '+') {
        proof {
            if text::starts_with(text@, delim()) {
                assert(text@.subrange(0, 3)[0] == '+');
                assert(text@.subrange(0, 3)[1] == '+');
                assert(text@.subrange(0, 3)[2] == '+');
            }
        }
        return (None, text);
    }
    assert(text@.subrange(0, 3) =~= delim());
    let start: usize = if n > 3 && v[3] == '\n' { 4 } else { 3 };
    assert(strip_newline(text@.skip(3)) =~= text@.skip(start as int));
    let marker = vec!['\n', '+', '+', '+'];
    assert(marker@ =~= close_marker());
    let found = text::find_from(&v, &marker, start);
    match found {
        None => {
            proof {
                lemma_split_unclosed(text@, start as int);
            }
            (None, text)
        },
        Some(i) => {
            proof {
                text::lemma_first_occurrence_props(text@, close_marker(), start as int);
            }
            assert(i + 4 <= n);
            let front = text.substring_char(start, i);
            let b = skip_two_newlines(&v, i + 4);
            let body = text.substring_char(b, n);
            proof {
                assert(body@ =~= text@.skip(b as int));
                lemma_split_closed(text@, start as int, i as int, b as int);
            }
            (Some(front), body)
        },
    }
}

proof fn lemma_split_unclosed(t: Seq<char>, start: int)
    requires
        text::starts_with(t, delim()),
        3 <= start <= t.len(),
        strip_newline(t.skip(3)) == t.skip(start),
        text::first_occurrence_from(t, close_marker(), start) is None,
    ensures
        split_spec(t) == (None::<Seq<char>>, t),
{
    text::lemma_first_occurrence_skip(t, close_marker(), start, 0);
}

proof fn lemma_split_closed(t: Seq<char>, start: int, i: int, b: int)
    requires
        text::starts_with(t, delim()),
        3 <= start <= i,
        i + 4 <= b <= t.len(),
        strip_newline(t.skip(3)) == t.skip(start),
        text::first_occurrence_from(t, close_marker(), start) == Some(i),
        t.skip(b) == strip_newline(strip_newline(t.skip(i + 4))),
    ensures
        split_spec(t) == (Some(t.subrange(start, i)), t.skip(b)),
{
    text::lemma_first_occurrence_skip(t, close_marker(), start, 0);
    let rest = t.skip(start);
    let c = i - start;
    assert(text::first_occurrence_from(rest, close_marker(), 0) == Some(c));
    assert(rest.take(c) =~= t.subrange(start, i));
    assert(rest.skip(c + 4) =~= t.skip(i + 4));
    assert(split_spec(t).0 == Some(rest.take(c)));
}

/// A note's text put back together from the text of its front matter and its body.
pub open spec fn join_spec(front_text: Seq<char>, body: Seq<char>) -> Seq<char> {
    if text::is_blank(front_text) {
        body
    } else {
        delim() + seq!['\n'] + front_text + delim() + seq!['\n', '\n'] + body
    }
}

/// Joins the text of a front matter and a body into a note's text: the body alone
/// when the front matter is blank, else the front matter between `+++` lines, a
/// blank line, and the body.
pub fn join(front_text: &str, body: &str) -> (r: String)
    ensures
        r@ == join_spec(front_text@, body@),
{
    if text::is_blank_str(front_text) {
        return body.to_string();
    }
    let mut r = String::new();
    r.append("+++\n");
    r.append(front_text);
    r.append("+++\n\n");
    r.append(body);
    proof {
        reveal_strlit("+++\n");
        reveal_strlit("+++\n\n");
        assert(r@ =~= join_spec(front_text@, body@));
    }
    r
}

} // verus!

verus! {

/// Joining a front matter to a body and splitting the result gives both back: the
/// front matter without its final newline, and the body as it was. This holds
/// for front-matter text that is not blank, ends with a newline (as serialised
/// TOML does), and holds no line that begins with `+++`.
pub proof fn lemma_join_then_split(front_text: Seq<char>, body: Seq<char>)
    requires
        !text::is_blank(front_text),
        front_text.len() > 0,
        front_text.last() == '\n',
        !text::contains_seq(front_text, close_marker()),
    ensures
        split_spec(join_spec(front_text, body)) == (Some(front_text.drop_last()), body),
{
    let ft = front_text;
    let l = ft.len() as int;
    let t = join_spec(ft, body);
    assert(t == delim() + seq!['\n'] + ft + delim() + seq!['\n', '\n'] + body);
    assert(t.subrange(0, 3) =~= delim());
    let rest = strip_newline(t.skip(3));
    assert(t.skip(3)[0] == '\n');
    assert(rest =~= ft + delim() + seq!['\n', '\n'] + body);
    let cm = close_marker();
    assert(rest.subrange(l - 1, l + 3) =~= cm);
    assert forall|j: int| 0 <= j < l - 1 implies !text::occurs_at(rest, cm, j) by {
        if text::occurs_at(rest, cm, j) {
            if j + 4 <= l {
                assert(ft.subrange(j, j + 4) =~= rest.subrange(j, j + 4));
                assert(text::occurs_at(ft, cm, j));
            } else {
                assert(rest.subrange(j, j + 4)[l - 1 - j] == rest[l - 1]);
            }
        }
    }
    text::lemma_first_occurrence_at(rest, cm, 0, l - 1);
    assert(rest.take(l - 1) =~= ft.drop_last());
    assert(rest.skip(l + 3) =~= seq!['\n', '\n'] + body);
    assert(strip_newline(rest.skip(l + 3)) =~= seq!['\n'] + body);
    assert(strip_newline(seq!['\n'] + body) =~= body);
}

} // verus!

verus! {

/// A value of the TOML format, as the `toml` crate models it. What the library
/// does with such values is carry them through unchanged.
#[verifier::external_type_specification]
#[verifier::external_body]
pub struct ExTomlValue(toml::Value);

/// The keys of a front matter's other entries strictly ascend in the order of
/// `str` (so no key occurs twice), and none of them is `tags`.
pub open spec fn extra_keys_valid(s: Seq<(String, toml::Value)>) -> bool {
    &&& forall|i: int, j: int| 0 <= i < j < s.len() ==> text::text_lt(#[trigger] s[i].0@, #[trigger] s[j].0@)
    &&& forall|i: int| 0 <= i < s.len() ==> #[trigger] s[i].0@ != "tags"@
}

/// The front matter of a note: its tags, and every other key with its value, in
/// key order.
pub struct Front {
    tags: Vec<String>,
    extra: Vec<(String, toml::Value)>,
}

/// The character sequences of a sequence of strings.
pub open spec fn views(v: Seq<String>) -> Seq<Seq<char>> {
    v.map_values(|s: String| s@)
}

/// Tags after adding `new`, one after the other: each is appended unless the
/// tags already hold it.
pub open spec fn merged(tags: Seq<Seq<char>>, new: Seq<Seq<char>>) -> Seq<Seq<char>>
    decreases new.len(),
{
    if new.len() == 0 {
        tags
    } else {
        let t = merged(tags, new.drop_last());
        if t.contains(new.last()) {
            t
        } else {
            t.push(new.last())
        }
    }
}

fn holds_tag(tags: &Vec<String>, tag: &String) -> (r: bool)
    ensures
        r == views(tags@).contains(tag@),
{
    let mut j: usize = 0;
    while j < tags.len()
        invariant
            j <= tags.len(),
            forall|k: int| 0 <= k < j ==> tags@[k]@ != tag@,
        decreases tags.len() - j,
    {
        if tags[j] == *tag {
            assert(views(tags@)[j as int] == tag@);
            return true;
        }
        j = j + 1;
    }
    assert forall|k: int| 0 <= k < views(tags@).len() implies views(tags@)[k] != tag@ by {}
    false
}

fn extra_keys_ascend(extra: &Vec<(String, toml::Value)>) -> (r: bool)
    ensures
        r == extra_keys_valid(extra@),
{
    let n = extra.len();
    let mut i: usize = 0;
    while i < n
        invariant
            n == extra@.len(),
            i <= n,
            forall|a: int, b: int| 0 <= a < b <= i && b < n ==> text::text_lt(#[trigger] extra@[a].0@, #[trigger] extra@[b].0@),
            forall|a: int| 0 <= a < i ==> #[trigger] extra@[a].0@ != "tags"@,
        decreases n - i,
    {
        let key = text::chars_of(extra[i].0.as_str());
        if text::same_text(extra[i].0.as_str(), "tags") {
            return false;
        }
        if i + 1 < n {
            let next = text::chars_of(extra[i + 1].0.as_str());
            match text::compare_texts(&key, &next) {
                text::Order::Less => {},
                _ => {
                    proof {
                        text::lemma_text_lt_asymmetric(extra@[i as int].0@, extra@[i + 1].0@);
                    }
                    return false;
                },
            }
            proof {
                assert forall|a: int, b: int| 0 <= a < b <= i + 1 && b < n implies text::text_lt(
                    #[trigger] extra@[a].0@,
                    #[trigger] extra@[b].0@,
                ) by {
                    if b == i + 1 && a < i {
                        text::lemma_text_lt_transitive(extra@[a].0@, extra@[i as int].0@, extra@[b].0@);
                    }
                }
            }
        }
        i = i + 1;
    }
    true
}

impl Front {
    #[verifier::type_invariant]
    spec fn valid(self) -> bool {
        extra_keys_valid(self.extra@)
    }

    /// The tags, as character sequences.
    pub closed spec fn tags_view(self) -> Seq<Seq<char>> {
        views(self.tags@)
    }

    /// The other keys with their values, in key order.
    pub closed spec fn extra_view(self) -> Seq<(String, toml::Value)> {
        self.extra@
    }

    /// A front matter with these tags and other entries; none when the keys of the
    /// other entries do not strictly ascend or one of them is `tags`.
    pub fn new(tags: Vec<String>, extra: Vec<(String, toml::Value)>) -> (r: Option<Front>)
        ensures
            r is Some <==> extra_keys_valid(extra@),
            r matches Some(f) ==> f.tags_view() == views(tags@) && f.extra_view() == extra@,
    {
        if extra_keys_ascend(&extra) {
            Some(Front { tags, extra })
        } else {
            None
        }
    }

    /// The tags.
    pub fn tags(&self) -> (r: &Vec<String>)
        ensures
            views(r@) == self.tags_view(),
    {
        &self.tags
    }

    /// The other keys with their values, in key order.
    pub fn extra(&self) -> (r: &Vec<(String, toml::Value)>)
        ensures
            r@ == self.extra_view(),
            extra_keys_valid(r@),
    {
        proof {
            use_type_invariant(self);
        }
        &self.extra
    }

    /// The tags and the other entries, taken out of the front matter.
    pub fn into_parts(self) -> (r: (Vec<String>, Vec<(String, toml::Value)>))
        ensures
            views(r.0@) == self.tags_view(),
            r.1@ == self.extra_view(),
            extra_keys_valid(r.1@),
    {
        proof {
            use_type_invariant(&self);
        }
        (self.tags, self.extra)
    }
}

/// Adds tags to a front matter: each new tag is appended unless the tags already
/// hold it; the other keys are left as they are.
pub fn apply_tags(front: &mut Front, new_tags: Vec<String>)
    ensures
        final(front).tags_view() == merged(old(front).tags_view(), views(new_tags@)),
        final(front).extra_view() == old(front).extra_view(),
{
    proof {
        use_type_invariant(&*front);
    }
    let ghost old_tags = views(front.tags@);
    let ghost new_views = views(new_tags@);
    let mut tags: Vec<String> = Vec::new();
    std::mem::swap(&mut tags, &mut front.tags);
    let mut i: usize = 0;
    while i < new_tags.len()
        invariant
            i <= new_tags.len(),
            new_views == views(new_tags@),
            views(tags@) == merged(old_tags, new_views.take(i as int)),
        decreases new_tags.len() - i,
    {
        proof {
            assert(new_views.take(i + 1).drop_last() =~= new_views.take(i as int));
            assert(new_views.take(i + 1).last() == new_tags@[i as int]@);
        }
        if !holds_tag(&tags, &new_tags[i]) {
            let t = new_tags[i].clone();
            tags.push(t);
            assert(views(tags@) =~= merged(old_tags, new_views.take(i as int)).push(t@));
        }
        i = i + 1;
    }
    assert(new_views.take(i as int) =~= new_views);
    front.tags = tags;
}

/// Adding tags keeps the tags there were, in their places, at the front.
pub proof fn lemma_merge_keeps_tags(tags: Seq<Seq<char>>, new: Seq<Seq<char>>)
    ensures
        merged(tags, new).len() >= tags.len(),
        merged(tags, new).take(tags.len() as int) == tags,
    decreases new.len(),
{
    if new.len() > 0 {
        lemma_merge_keeps_tags(tags, new.drop_last());
        let t = merged(tags, new.drop_last());
        if !t.contains(new.last()) {
            assert(t.push(new.last()).take(tags.len() as int) =~= t.take(tags.len() as int));
        }
    }
}

/// After adding tags, every tag there was and every added tag is held, and
/// nothing else is.
pub proof fn lemma_merge_members(tags: Seq<Seq<char>>, new: Seq<Seq<char>>, x: Seq<char>)
    ensures
        merged(tags, new).contains(x) <==> (tags.contains(x) || new.contains(x)),
    decreases new.len(),
{
    if new.len() > 0 {
        let init = new.drop_last();
        lemma_merge_members(tags, init, x);
        assert(new =~= init.push(new.last()));
        assert(new.contains(x) <==> (init.contains(x) || x == new.last())) by {
            if new.contains(x) {
                let k = choose|k: int| 0 <= k < new.len() && new[k] == x;
                if k < init.len() {
                    assert(init[k] == x);
                }
            }
            if init.contains(x) {
                let k = choose|k: int| 0 <= k < init.len() && init[k] == x;
                assert(new[k] == x);
            }
        }
        let t = merged(tags, init);
        if !t.contains(new.last()) {
            assert(t.push(new.last()).contains(x) <==> (t.contains(x) || x == new.last())) by {
                if t.push(new.last()).contains(x) {
                    let k = choose|k: int| 0 <= k < t.len() + 1 && t.push(new.last())[k] == x;
                    if k < t.len() {
                        assert(t[k] == x);
                    }
                }
                if t.contains(x) {
                    let k = choose|k: int| 0 <= k < t.len() && t[k] == x;
                    assert(t.push(new.last())[k] == x);
                }
                assert(t.push(new.last())[t.len() as int] == new.last());
            }
        }
    }
}

/// Adding tags to tags that hold no tag twice gives tags that hold no tag twice.
pub proof fn lemma_merge_no_duplicates(tags: Seq<Seq<char>>, new: Seq<Seq<char>>)
    requires
        tags.no_duplicates(),
    ensures
        merged(tags, new).no_duplicates(),
    decreases new.len(),
{
    if new.len() > 0 {
        lemma_merge_no_duplicates(tags, new.drop_last());
        let t = merged(tags, new.drop_last());
        if !t.contains(new.last()) {
            let u = t.push(new.last());
            assert forall|i: int, j: int| 0 <= i < u.len() && 0 <= j < u.len() && i != j implies u[i] != u[j] by {
                if i < t.len() && j < t.len() {
                } else if i < t.len() {
                    assert(t[i] == u[i]);
                } else if j < t.len() {
                    assert(t[j] == u[j]);
                }
            }
        }
    }
}

/// Adding tags that are all held already changes nothing.
pub proof fn lemma_merge_held_tags(tags: Seq<Seq<char>>, new: Seq<Seq<char>>)
    requires
        forall|i: int| 0 <= i < new.len() ==> tags.contains(#[trigger] new[i]),
    ensures
        merged(tags, new) == tags,
    decreases new.len(),
{
    if new.len() > 0 {
        lemma_merge_held_tags(tags, new.drop_last());
        assert(tags.contains(new[new.len() - 1]));
    }
}

/// Adding the same tags a second time changes nothing.
pub proof fn lemma_merge_idempotent(tags: Seq<Seq<char>>, new: Seq<Seq<char>>)
    ensures
        merged(merged(tags, new), new) == merged(tags, new),
{
    let m = merged(tags, new);
    assert forall|i: int| 0 <= i < new.len() implies m.contains(#[trigger] new[i]) by {
        lemma_merge_members(tags, new, new[i]);
        assert(new.contains(new[i]));
    }
    lemma_merge_held_tags(m, new);
}

} // verus!

verus! {

/// `n` newlines.
pub open spec fn newlines(n: nat) -> Seq<char> {
    Seq::new(n, |i: int| '\n')
}

proof fn lemma_strip_newline(s: Seq<char>)
    ensures
        exists|k: nat| k <= 1 && s == newlines(k) + strip_newline(s),
{
    if s.len() > 0 && s[0] == '\n' {
        assert(s =~= newlines(1) + strip_newline(s));
    } else {
        assert(s =~= newlines(0) + strip_newline(s));
    }
}

proof fn lemma_reassemble(t: Seq<char>, r: Seq<char>, f: Seq<char>, after: Seq<char>, body: Seq<char>, lead: nat, gap: nat)
    requires
        t.len() >= 3,
        t.subrange(0, 3) == delim(),
        r == t.skip(3),
        r == newlines(lead) + (f + (close_marker() + after)),
        after == newlines(gap) + body,
    ensures
        t == delim() + newlines(lead) + f + close_marker() + newlines(gap) + body,
{
    assert(t =~= delim() + r);
    assert(t =~= delim() + newlines(lead) + f + close_marker() + newlines(gap) + body);
}

proof fn lemma_two_newlines(after: Seq<char>) -> (gap: nat)
    ensures
        gap <= 2,
        after == newlines(gap) + strip_newline(strip_newline(after)),
{
    let once = strip_newline(after);
    lemma_strip_newline(after);
    lemma_strip_newline(once);
    let g1 = choose|k: nat| k <= 1 && after == newlines(k) + strip_newline(after);
    let g2 = choose|k: nat| k <= 1 && once == newlines(k) + strip_newline(once);
    assert(newlines(g1) + (newlines(g2) + strip_newline(once)) =~= newlines(g1 + g2) + strip_newline(once));
    g1 + g2
}

/// Splitting loses nothing but the markers: text without a front-matter block is
/// all body, and text with one is `+++`, at most one newline, the front matter,
/// the closing marker, at most two newlines, and the body.
#[verifier::spinoff_prover]
pub proof fn lemma_split_reassembles(t: Seq<char>)
    ensures
        split_spec(t).0 is None ==> split_spec(t).1 == t,
        split_spec(t).0 matches Some(f) ==> exists|lead: nat, gap: nat|
            lead <= 1 && gap <= 2 && t == delim() + newlines(lead) + f + close_marker() + newlines(gap)
                + split_spec(t).1,
{
    if let Some(f) = split_spec(t).0 {
        let r = t.skip(3);
        let rest = strip_newline(r);
        let c = text::first_occurrence_from(rest, close_marker(), 0)->0;
        text::lemma_first_occurrence_props(rest, close_marker(), 0);
        let after = rest.skip(c + 4);
        let body = split_spec(t).1;
        let gap = lemma_two_newlines(after);
        lemma_strip_newline(r);
        let lead = choose|k: nat| k <= 1 && r == newlines(k) + strip_newline(r);
        assert(rest =~= rest.take(c) + (close_marker() + after)) by {
            assert(rest.subrange(c, c + 4) == close_marker());
        }
        lemma_reassemble(t, r, f, after, body, lead, gap);
    }
}

} // verus!

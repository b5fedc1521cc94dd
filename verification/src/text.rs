use vstd::prelude::*;
use vstd::string::*;

verus! {

/// The characters of `s`, in order, in a vector.
pub fn chars_of(s: &str) -> (v: Vec<char>)
    ensures
        v@ == s@,
{
    let mut v: Vec<char> = Vec::new();
    for c in it: s.chars()
        invariant
            it.seq() == s@,
            v@ == it.seq().take(it.index() as int),
    {
        v.push(c);
    }
    v
}

/// `pat` occurs in `hay` starting at position `i`.
pub open spec fn occurs_at(hay: Seq<char>, pat: Seq<char>, i: int) -> bool {
    0 <= i && i + pat.len() <= hay.len() && hay.subrange(i, i + pat.len()) == pat
}

/// `pat` occurs somewhere in `hay` (the empty pattern occurs everywhere).
pub open spec fn contains_seq(hay: Seq<char>, pat: Seq<char>) -> bool {
    exists|i: int| occurs_at(hay, pat, i)
}

/// `hay` begins with `pat`.
pub open spec fn starts_with(hay: Seq<char>, pat: Seq<char>) -> bool {
    occurs_at(hay, pat, 0)
}

/// The first position at or after `from` where `pat` occurs in `hay`, if there is one.
pub open spec fn first_occurrence_from(hay: Seq<char>, pat: Seq<char>, from: int) -> Option<int>
    decreases hay.len() + 1 - from,
{
    if from < 0 || from + pat.len() > hay.len() {
        None
    } else if occurs_at(hay, pat, from) {
        Some(from)
    } else {
        first_occurrence_from(hay, pat, from + 1)
    }
}

fn matches_at(hay: &Vec<char>, pat: &Vec<char>, i: usize) -> (r: bool)
    requires
        i + pat.len() <= hay.len(),
    ensures
        r == occurs_at(hay@, pat@, i as int),
{
    let mut k: usize = 0;
    while k < pat.len()
        invariant
            k <= pat.len(),
            i + pat.len() <= hay.len(),
            forall|j: int| 0 <= j < k ==> hay@[i + j] == pat@[j],
        decreases pat.len() - k,
    {
        if hay[i + k] != pat[k] {
            assert(hay@.subrange(i as int, i + pat.len())[k as int] != pat@[k as int]);
            return false;
        }
        k = k + 1;
    }
    assert(hay@.subrange(i as int, i + pat.len()) =~= pat@);
    true
}

/// What a first occurrence is: it occurs, and nothing occurs between `from` and it.
pub proof fn lemma_first_occurrence_props(hay: Seq<char>, pat: Seq<char>, from: int)
    requires
        0 <= from,
    ensures
        first_occurrence_from(hay, pat, from) matches Some(i) ==> {
            &&& from <= i
            &&& occurs_at(hay, pat, i)
            &&& forall|j: int| from <= j < i ==> !occurs_at(hay, pat, j)
        },
        first_occurrence_from(hay, pat, from) is None ==> forall|j: int|
            from <= j ==> !occurs_at(hay, pat, j),
    decreases hay.len() + 1 - from,
{
    if from + pat.len() > hay.len() {
    } else if occurs_at(hay, pat, from) {
    } else {
        lemma_first_occurrence_props(hay, pat, from + 1);
        assert forall|j: int| from <= j && occurs_at(hay, pat, j) implies from + 1 <= j by {}
    }
}

/// A position where `pat` occurs, with no occurrence between `from` and it, is
/// the first occurrence from `from`.
pub proof fn lemma_first_occurrence_at(hay: Seq<char>, pat: Seq<char>, from: int, i: int)
    requires
        0 <= from <= i,
        occurs_at(hay, pat, i),
        forall|j: int| from <= j < i ==> !occurs_at(hay, pat, j),
    ensures
        first_occurrence_from(hay, pat, from) == Some(i),
    decreases i - from,
{
    if from < i {
        lemma_first_occurrence_at(hay, pat, from + 1, i);
    }
}

/// Searching a suffix of `hay` is searching `hay` from where the suffix begins.
pub proof fn lemma_first_occurrence_skip(hay: Seq<char>, pat: Seq<char>, start: int, from: int)
    requires
        0 <= start <= hay.len(),
        0 <= from,
    ensures
        first_occurrence_from(hay.skip(start), pat, from) == match first_occurrence_from(hay, pat, start + from) {
            Some(i) => Some(i - start),
            None => None::<int>,
        },
    decreases hay.len() + 1 - start - from,
{
    let rest = hay.skip(start);
    if from + pat.len() > rest.len() {
    } else {
        assert(rest.subrange(from, from + pat.len()) =~= hay.subrange(start + from, start + from + pat.len()));
        if !occurs_at(rest, pat, from) {
            lemma_first_occurrence_skip(hay, pat, start, from + 1);
        }
    }
}

/// Finds the first occurrence of `pat` in `hay` at or after position `from`.
pub fn find_from(hay: &Vec<char>, pat: &Vec<char>, from: usize) -> (r: Option<usize>)
    ensures
        match r {
            Some(i) => first_occurrence_from(hay@, pat@, from as int) == Some(i as int),
            None => first_occurrence_from(hay@, pat@, from as int) is None,
        },
{
    if pat.len() > hay.len() {
        return None;
    }
    let last = hay.len() - pat.len();
    if from > last {
        return None;
    }
    let mut i = from;
    loop
        invariant
            last == hay.len() - pat.len(),
            pat.len() <= hay.len(),
            from <= i <= last,
            first_occurrence_from(hay@, pat@, from as int) == first_occurrence_from(hay@, pat@, i as int),
        decreases last - i,
    {
        if matches_at(hay, pat, i) {
            return Some(i);
        }
        if i == last {
            assert(first_occurrence_from(hay@, pat@, i + 1) is None);
            return None;
        }
        i = i + 1;
    }
}

/// Whether `pat` occurs in `hay`.
pub fn contains(hay: &Vec<char>, pat: &Vec<char>) -> (r: bool)
    ensures
        r == contains_seq(hay@, pat@),
{
    match find_from(hay, pat, 0) {
        Some(i) => {
            proof {
                lemma_first_occurrence_props(hay@, pat@, 0);
            }
            assert(occurs_at(hay@, pat@, i as int));
            true
        },
        None => {
            proof {
                lemma_first_occurrence_props(hay@, pat@, 0);
            }
            assert forall|j: int| !occurs_at(hay@, pat@, j) by {
                if 0 <= j {
                }
            }
            false
        },
    }
}

} // verus!

verus! {

/// Whether `c` is white space in the sense of `char::is_whitespace` (the Unicode
/// `White_Space` property).
pub open spec fn is_white(c: char) -> bool {
    let u = c as u32;
    ||| (0x09 <= u && u <= 0x0d)
    ||| u == 0x20
    ||| u == 0x85
    ||| u == 0xa0
    ||| u == 0x1680
    ||| (0x2000 <= u && u <= 0x200a)
    ||| u == 0x2028
    ||| u == 0x2029
    ||| u == 0x202f
    ||| u == 0x205f
    ||| u == 0x3000
}

/// Every character of `s` is white space: what trimming it leaves is empty.
pub open spec fn is_blank(s: Seq<char>) -> bool {
    forall|i: int| 0 <= i < s.len() ==> is_white(#[trigger] s[i])
}

/// Whether `c` is white space.
pub fn is_white_char(c: char) -> (r: bool)
    ensures
        r == is_white(c),
{
    let u = c as u32;
    (0x09 <= u && u <= 0x0d) || u == 0x20 || u == 0x85 || u == 0xa0 || u == 0x1680
        || (0x2000 <= u && u <= 0x200a) || u == 0x2028 || u == 0x2029 || u == 0x202f
        || u == 0x205f || u == 0x3000
}

/// Whether `s` holds nothing but white space.
pub fn is_blank_str(s: &str) -> (r: bool)
    ensures
        r == is_blank(s@),
{
    let v = chars_of(s);
    let mut i: usize = 0;
    while i < v.len()
        invariant
            v@ == s@,
            i <= v.len(),
            forall|j: int| 0 <= j < i ==> is_white(#[trigger] v@[j]),
        decreases v.len() - i,
    {
        if !is_white_char(v[i]) {
            return false;
        }
        i = i + 1;
    }
    true
}

} // verus!

verus! {

/// The outcome of comparing two values.
#[derive(Clone, Copy, Debug, PartialEq, Eq, Structural)]
pub enum Order {
    Less,
    Equal,
    Greater,
}

/// `a` and `b` agree before position `k`, and `a` is smaller at `k`: `a` ends
/// there while `b` goes on, or `a`'s character there is smaller.
pub open spec fn smaller_at(a: Seq<char>, b: Seq<char>, k: int) -> bool {
    &&& 0 <= k <= a.len()
    &&& k <= b.len()
    &&& forall|j: int| 0 <= j < k ==> a[j] == b[j]
    &&& ((k == a.len() && k < b.len()) || (k < a.len() && k < b.len() && (a[k] as u32) < (b[k] as u32)))
}

/// `a` comes before `b` in the order of `str`: lexicographic by character code.
pub open spec fn text_lt(a: Seq<char>, b: Seq<char>) -> bool {
    exists|k: int| smaller_at(a, b, k)
}

/// No text comes before itself, and of two texts at most one comes first.
pub proof fn lemma_text_lt_asymmetric(a: Seq<char>, b: Seq<char>)
    ensures
        !(text_lt(a, b) && text_lt(b, a)),
        !text_lt(a, a),
{
    if text_lt(a, b) && text_lt(b, a) {
        let k1 = choose|k: int| smaller_at(a, b, k);
        let k2 = choose|k: int| smaller_at(b, a, k);
        if k1 < k2 {
            assert(b[k1] == a[k1]);
        } else if k2 < k1 {
            assert(a[k2] == b[k2]);
        }
    }
    if text_lt(a, a) {
        let k = choose|k: int| smaller_at(a, a, k);
    }
}

/// Of two different texts, one comes before the other.
pub proof fn lemma_text_lt_total(a: Seq<char>, b: Seq<char>)
    ensures
        a == b || text_lt(a, b) || text_lt(b, a),
{
    if a != b {
        let n = if a.len() < b.len() { a.len() as int } else { b.len() as int };
        if forall|j: int| 0 <= j < n ==> a[j] == b[j] {
            if a.len() == b.len() {
                assert(a =~= b);
            } else if a.len() < b.len() {
                assert(smaller_at(a, b, n));
            } else {
                assert(smaller_at(b, a, n));
            }
        } else {
            let w = choose|j: int| 0 <= j < n && a[j] != b[j];
            lemma_first_difference(a, b, n, w);
        }
    }
}

proof fn lemma_first_difference(a: Seq<char>, b: Seq<char>, n: int, w: int)
    requires
        n <= a.len(),
        n <= b.len(),
        0 <= w < n,
        a[w] != b[w],
    ensures
        text_lt(a, b) || text_lt(b, a),
    decreases w,
{
    if exists|j: int| 0 <= j < w && a[j] != b[j] {
        let j = choose|j: int| 0 <= j < w && a[j] != b[j];
        lemma_first_difference(a, b, n, j);
    } else {
        lemma_char_code_injective(a[w], b[w]);
        if (a[w] as u32) < (b[w] as u32) {
            assert(smaller_at(a, b, w));
        } else {
            assert((b[w] as u32) != (a[w] as u32));
            assert(smaller_at(b, a, w));
        }
    }
}

/// Different characters have different codes.
pub proof fn lemma_char_code_injective(a: char, b: char)
    ensures
        (a as u32) == (b as u32) ==> a == b,
{
    vstd::utf8::char_u32_cast(a, a as u32);
    vstd::utf8::char_u32_cast(b, b as u32);
}

/// Coming before is transitive.
pub proof fn lemma_text_lt_transitive(a: Seq<char>, b: Seq<char>, c: Seq<char>)
    requires
        text_lt(a, b),
        text_lt(b, c),
    ensures
        text_lt(a, c),
{
    let k1 = choose|k: int| smaller_at(a, b, k);
    let k2 = choose|k: int| smaller_at(b, c, k);
    if k1 < k2 {
        assert(smaller_at(a, c, k1));
    } else if k2 < k1 {
        assert(smaller_at(a, c, k2));
    } else {
        assert(smaller_at(a, c, k1));
    }
}

/// Compares two texts in the order of `str`.
pub fn compare_texts(a: &Vec<char>, b: &Vec<char>) -> (r: Order)
    ensures
        (r == Order::Less) == text_lt(a@, b@),
        (r == Order::Equal) == (a@ == b@),
        (r == Order::Greater) == text_lt(b@, a@),
{
    proof {
        lemma_text_lt_asymmetric(a@, b@);
        lemma_text_lt_total(a@, b@);
    }
    let n = if a.len() < b.len() { a.len() } else { b.len() };
    let mut k: usize = 0;
    while k < n
        invariant
            n <= a.len(),
            n <= b.len(),
            n == a.len() || n == b.len(),
            k <= n,
            forall|j: int| 0 <= j < k ==> a@[j] == b@[j],
        decreases n - k,
    {
        if a[k] != b[k] {
            proof {
                lemma_char_code_injective(a@[k as int], b@[k as int]);
            }
            if (a[k] as u32) < (b[k] as u32) {
                assert(smaller_at(a@, b@, k as int));
                return Order::Less;
            } else {
                assert(smaller_at(b@, a@, k as int));
                return Order::Greater;
            }
        }
        k = k + 1;
    }
    if a.len() < b.len() {
        assert(smaller_at(a@, b@, k as int));
        Order::Less
    } else if b.len() < a.len() {
        assert(smaller_at(b@, a@, k as int));
        Order::Greater
    } else {
        assert(a@ =~= b@);
        Order::Equal
    }
}

} // verus!

verus! {

/// Whether two strings hold the same characters.
pub fn same_text(a: &str, b: &str) -> (r: bool)
    ensures
        r == (a@ == b@),
{
    let x = chars_of(a);
    let y = chars_of(b);
    match compare_texts(&x, &y) {
        Order::Equal => true,
        _ => false,
    }
}

} // verus!

verus! {

/// The decimal digit for `n`.
pub open spec fn digit(n: int) -> char {
    (('0' as int) + n) as char
}

/// The decimal digits of `n`, without leading zeros.
pub open spec fn decimal(n: nat) -> Seq<char>
    decreases n,
{
    if n < 10 {
        seq![digit(n as int)]
    } else {
        decimal(n / 10) + seq![digit((n % 10) as int)]
    }
}

fn digit_text(d: usize) -> (r: &'static str)
    requires
        d < 10,
    ensures
        r@ == seq![digit(d as int)],
{
    proof {
        reveal_strlit("0");
        reveal_strlit("1");
        reveal_strlit("2");
        reveal_strlit("3");
        reveal_strlit("4");
        reveal_strlit("5");
        reveal_strlit("6");
        reveal_strlit("7");
        reveal_strlit("8");
        reveal_strlit("9");
        assert(digit(0) == '0' && digit(1) == '1' && digit(2) == '2' && digit(3) == '3' && digit(4) == '4');
        assert(digit(5) == '5' && digit(6) == '6' && digit(7) == '7' && digit(8) == '8' && digit(9) == '9');
    }
    match d {
        0 => "0",
        1 => "1",
        2 => "2",
        3 => "3",
        4 => "4",
        5 => "5",
        6 => "6",
        7 => "7",
        8 => "8",
        _ => "9",
    }
}

/// The decimal digits of `n`, as `Display` writes them.
pub fn decimal_text(n: usize) -> (r: String)
    ensures
        r@ == decimal(n as nat),
    decreases n,
{
    if n < 10 {
        digit_text(n).to_string()
    } else {
        let mut r = decimal_text(n / 10);
        r.append(digit_text(n % 10));
        r
    }
}

} // verus!

use vstd::prelude::*;

use crate::cli;
use crate::error::JotError;
use crate::text;

verus! {

/// A kind of note: the alias its command can also be called by, and an optional
/// description.
#[derive(Debug)]
pub struct Variant {
    pub subcommand: String,
    pub description: Option<String>,
}

/// The keys of `s` strictly ascend in the order of `str`.
pub open spec fn keys_ascending(s: Seq<(String, Variant)>) -> bool {
    forall|i: int, j: int| 0 <= i < j < s.len() ==> text::text_lt(s[i].0@, s[j].0@)
}

/// The map that entries make when put in one after the other (a later entry
/// replaces an earlier one with the same key).
pub open spec fn map_of(s: Seq<(String, Variant)>) -> Map<Seq<char>, Variant>
    decreases s.len(),
{
    if s.len() == 0 {
        Map::empty()
    } else {
        map_of(s.drop_last()).insert(s.last().0@, s.last().1)
    }
}

/// The configuration: the variants by key, kept in key order.
pub struct Config {
    entries: Vec<(String, Variant)>,
}

impl View for Config {
    type V = Map<Seq<char>, Variant>;

    closed spec fn view(&self) -> Map<Seq<char>, Variant> {
        map_of(self.entries@)
    }
}

/// What the map of ascending entries holds: the key of each entry, with its
/// variant, and nothing else.
pub proof fn lemma_map_of(s: Seq<(String, Variant)>)
    requires
        keys_ascending(s),
    ensures
        forall|k: Seq<char>| #[trigger]
            map_of(s).dom().contains(k) <==> exists|i: int| 0 <= i < s.len() && s[i].0@ == k,
        forall|i: int| 0 <= i < s.len() ==> #[trigger] map_of(s)[s[i].0@] == s[i].1,
    decreases s.len(),
{
    if s.len() > 0 {
        let t = s.drop_last();
        assert forall|i: int, j: int| 0 <= i < j < t.len() implies text::text_lt(t[i].0@, t[j].0@) by {
            assert(t[i] == s[i] && t[j] == s[j]);
        }
        lemma_map_of(t);
        assert forall|k: Seq<char>| #[trigger]
            map_of(s).dom().contains(k) <==> exists|i: int| 0 <= i < s.len() && s[i].0@ == k by {
            if map_of(s).dom().contains(k) && k != s.last().0@ {
                assert(map_of(t).dom().contains(k));
                let i = choose|i: int| 0 <= i < t.len() && t[i].0@ == k;
                assert(t[i] == s[i]);
                assert(s[i].0@ == k);
            }
            if k == s.last().0@ {
                assert(s[s.len() - 1].0@ == k);
            }
            if exists|i: int| 0 <= i < s.len() && s[i].0@ == k {
                let i = choose|i: int| 0 <= i < s.len() && s[i].0@ == k;
                if i < t.len() {
                    assert(t[i] == s[i]);
                    assert(map_of(t).dom().contains(k));
                }
                assert(map_of(s).dom().contains(k));
            }
        }
        assert forall|i: int| 0 <= i < s.len() implies #[trigger] map_of(s)[s[i].0@] == s[i].1 by {
            if i < t.len() {
                assert(t[i] == s[i]);
                text::lemma_text_lt_asymmetric(s[i].0@, s.last().0@);
                assert(text::text_lt(s[i].0@, s[s.len() - 1].0@));
                assert(s[i].0@ != s.last().0@);
                assert(map_of(t)[t[i].0@] == t[i].1);
            }
        }
    }
}

proof fn lemma_key_positions(s: Seq<(String, Variant)>, p: int, key: Seq<char>)
    requires
        keys_ascending(s),
        0 <= p <= s.len(),
        forall|i: int| 0 <= i < p ==> text::text_lt(#[trigger] s[i].0@, key),
        p < s.len() ==> text::text_lt(key, s[p].0@),
    ensures
        forall|i: int| 0 <= i < s.len() ==> #[trigger] s[i].0@ != key,
        forall|i: int| p <= i < s.len() ==> text::text_lt(key, #[trigger] s[i].0@),
{
    assert forall|i: int| p <= i < s.len() implies text::text_lt(key, #[trigger] s[i].0@) by {
        if i > p {
            text::lemma_text_lt_transitive(key, s[p].0@, s[i].0@);
        }
    }
    assert forall|i: int| 0 <= i < s.len() implies #[trigger] s[i].0@ != key by {
        text::lemma_text_lt_asymmetric(key, key);
    }
}

impl Config {
    #[verifier::type_invariant]
    spec fn ascending(self) -> bool {
        keys_ascending(self.entries@)
    }

    /// The entries, in key order.
    pub closed spec fn entries_view(self) -> Seq<(String, Variant)> {
        self.entries@
    }

    /// An empty configuration.
    pub fn new() -> (c: Config)
        ensures
            c@ == Map::<Seq<char>, Variant>::empty(),
            c.entries_view().len() == 0,
    {
        Config { entries: Vec::new() }
    }

    /// The entries in key order: their keys ascend, and they make the map.
    pub fn entries(&self) -> (r: &Vec<(String, Variant)>)
        ensures
            r@ == self.entries_view(),
            keys_ascending(r@),
            map_of(r@) == self@,
    {
        proof {
            use_type_invariant(self);
        }
        &self.entries
    }

    /// The entries in key order, taken out of the configuration.
    pub fn into_entries(self) -> (r: Vec<(String, Variant)>)
        ensures
            r@ == self.entries_view(),
            keys_ascending(r@),
            map_of(r@) == self@,
    {
        proof {
            use_type_invariant(&self);
        }
        self.entries
    }

    /// Whether there is no variant.
    pub fn is_empty(&self) -> (r: bool)
        ensures
            r == (self@ == Map::<Seq<char>, Variant>::empty()),
            r == (self.entries_view().len() == 0),
    {
        proof {
            use_type_invariant(self);
            lemma_map_of(self.entries@);
            if self.entries@.len() > 0 {
                assert(self@.dom().contains(self.entries@[0].0@));
            }
        }
        self.entries.len() == 0
    }

    /// Whether a variant has the key.
    pub fn contains_key(&self, key: &str) -> (r: bool)
        ensures
            r == self@.dom().contains(key@),
    {
        proof {
            use_type_invariant(self);
            lemma_map_of(self.entries@);
        }
        match position_of(&self.entries, key) {
            Ok(_) => true,
            Err(_) => false,
        }
    }

    /// The variant with the key, if there is one.
    pub fn get(&self, key: &str) -> (r: Option<&Variant>)
        ensures
            match r {
                Some(v) => self@.dom().contains(key@) && *v == self@[key@],
                None => !self@.dom().contains(key@),
            },
    {
        proof {
            use_type_invariant(self);
            lemma_map_of(self.entries@);
        }
        match position_of(&self.entries, key) {
            Ok(i) => Some(&self.entries[i].1),
            Err(_) => None,
        }
    }

    /// Takes the variant with the key out; gives it back, if there was one.
    pub fn remove(&mut self, key: &str) -> (r: Option<Variant>)
        ensures
            final(self)@ == old(self)@.remove(key@),
            match r {
                Some(v) => old(self)@.dom().contains(key@) && v == old(self)@[key@],
                None => !old(self)@.dom().contains(key@),
            },
    {
        proof {
            use_type_invariant(&*self);
            lemma_map_of(self.entries@);
        }
        let ghost old_view = self@;
        let ghost k = key@;
        let mut entries: Vec<(String, Variant)> = Vec::new();
        std::mem::swap(&mut entries, &mut self.entries);
        let ghost s = entries@;
        let r = match position_of(&entries, key) {
            Ok(i) => {
                let (_, v) = entries.remove(i);
                proof {
                    let t = entries@;
                    assert(keys_ascending(t)) by {
                        assert forall|a: int, b: int| 0 <= a < b < t.len() implies text::text_lt(t[a].0@, t[b].0@) by {
                            if b < i {
                                assert(t[a] == s[a] && t[b] == s[b]);
                            } else if a < i {
                                assert(t[a] == s[a] && t[b] == s[b + 1]);
                            } else {
                                assert(t[a] == s[a + 1] && t[b] == s[b + 1]);
                            }
                        }
                    }
                    lemma_map_of(t);
                    assert(map_of(t) =~= old_view.remove(k)) by {
                        assert forall|x: Seq<char>| #[trigger] map_of(t).dom().contains(x) == old_view.remove(k).dom().contains(x) by {
                            if map_of(t).dom().contains(x) {
                                let j = choose|j: int| 0 <= j < t.len() && t[j].0@ == x;
                                if j < i {
                                    assert(t[j] == s[j]);
                                    assert(text::text_lt(s[j].0@, s[i as int].0@));
                                    text::lemma_text_lt_asymmetric(x, x);
                                } else {
                                    assert(t[j] == s[j + 1]);
                                    assert(text::text_lt(s[i as int].0@, s[j + 1].0@));
                                    text::lemma_text_lt_asymmetric(x, x);
                                }
                            }
                            if old_view.remove(k).dom().contains(x) {
                                let j = choose|j: int| 0 <= j < s.len() && s[j].0@ == x;
                                if j < i {
                                    assert(t[j] == s[j]);
                                } else {
                                    assert(j != i);
                                    assert(t[j - 1] == s[j]);
                                }
                            }
                        }
                        assert forall|x: Seq<char>| #[trigger] map_of(t).dom().contains(x) implies map_of(t)[x] == old_view.remove(k)[x] by {
                            let j = choose|j: int| 0 <= j < t.len() && t[j].0@ == x;
                            if j < i {
                                assert(t[j] == s[j]);
                            } else {
                                assert(t[j] == s[j + 1]);
                            }
                        }
                    }
                }
                Some(v)
            },
            Err(_) => {
                proof {
                    assert(old_view.remove(k) =~= old_view);
                }
                None
            },
        };
        self.entries = entries;
        r
    }

    /// The configuration that the entries make when put in one after the other
    /// (a later entry replaces an earlier one with the same key).
    pub fn from_entries(entries: Vec<(String, Variant)>) -> (c: Config)
        ensures
            c@ == map_of(entries@),
    {
        let mut c = Config::new();
        let mut rest = entries;
        let ghost all = rest@;
        let mut i: usize = 0;
        let n = rest.len();
        let mut items: Vec<(String, Variant)> = Vec::new();
        // reverse, so that entries can be popped in order
        while rest.len() > 0
            invariant
                all.len() == n,
                items@.len() + rest@.len() == n,
                rest@ == all.take(rest@.len() as int),
                forall|j: int| 0 <= j < items@.len() ==> #[trigger] items@[j] == all[n - 1 - j],
            decreases rest.len(),
        {
            let e = rest.pop().unwrap();
            items.push(e);
        }
        while items.len() > 0
            invariant
                all.len() == n,
                i + items@.len() == n,
                forall|j: int| 0 <= j < items@.len() ==> #[trigger] items@[j] == all[n - 1 - j],
                c@ == map_of(all.take(i as int)),
            decreases items.len(),
        {
            let (k, v) = items.pop().unwrap();
            proof {
                assert(all.take(i + 1).drop_last() =~= all.take(i as int));
            }
            c.insert(k, v);
            i = i + 1;
        }
        assert(all.take(n as int) =~= all);
        c
    }

    /// Puts a variant under a key, in place of the one it had; gives back the one
    /// it had.
    pub fn insert(&mut self, key: String, value: Variant) -> (r: Option<Variant>)
        ensures
            final(self)@ == old(self)@.insert(key@, value),
            match r {
                Some(v) => old(self)@.dom().contains(key@) && v == old(self)@[key@],
                None => !old(self)@.dom().contains(key@),
            },
    {
        proof {
            use_type_invariant(&*self);
            lemma_map_of(self.entries@);
        }
        let ghost old_view = self@;
        let ghost k = key@;
        let mut entries: Vec<(String, Variant)> = Vec::new();
        std::mem::swap(&mut entries, &mut self.entries);
        let ghost s = entries@;
        let pos = position_of(&entries, key.as_str());
        let r = match pos {
            Ok(i) => {
                let (old_key, old_value) = entries.remove(i);
                entries.insert(i, (key, value));
                proof {
                    let t = entries@;
                    assert(t =~= s.update(i as int, t[i as int]));
                    assert(keys_ascending(t)) by {
                        assert forall|a: int, b: int| 0 <= a < b < t.len() implies text::text_lt(t[a].0@, t[b].0@) by {
                            assert(t[i as int].0@ == s[i as int].0@);
                        }
                    }
                    lemma_map_of(t);
                    assert(map_of(t) =~= old_view.insert(k, value)) by {
                        assert forall|x: Seq<char>| #[trigger] map_of(t).dom().contains(x) == old_view.insert(k, value).dom().contains(x) by {
                            if map_of(t).dom().contains(x) {
                                let j = choose|j: int| 0 <= j < t.len() && t[j].0@ == x;
                                if j != i {
                                    assert(s[j].0@ == x);
                                }
                            }
                            if old_view.dom().contains(x) {
                                let j = choose|j: int| 0 <= j < s.len() && s[j].0@ == x;
                                assert(t[j].0@ == x);
                            }
                        }
                        assert forall|x: Seq<char>| #[trigger] map_of(t).dom().contains(x) implies map_of(t)[x] == old_view.insert(k, value)[x] by {
                            let j = choose|j: int| 0 <= j < t.len() && t[j].0@ == x;
                            if j != i as int {
                                assert(s[j] == t[j]);
                                text::lemma_text_lt_asymmetric(x, x);
                                if x == k {
                                    if j < i {
                                        assert(text::text_lt(s[j].0@, s[i as int].0@));
                                    } else {
                                        assert(text::text_lt(s[i as int].0@, s[j].0@));
                                    }
                                }
                            }
                        }
                    }
                }
                Some(old_value)
            },
            Err(p) => {
                entries.insert(p, (key, value));
                proof {
                    let t = entries@;
                    assert(keys_ascending(t)) by {
                        assert forall|a: int, b: int| 0 <= a < b < t.len() implies text::text_lt(t[a].0@, t[b].0@) by {
                            if a < p && b < p {
                                assert(t[a] == s[a] && t[b] == s[b]);
                            } else if a < p && b == p {
                                assert(t[a] == s[a]);
                            } else if a < p {
                                assert(t[a] == s[a]);
                                assert(t[b] == s[b - 1]);
                                text::lemma_text_lt_transitive(s[a].0@, k, s[b - 1].0@);
                            } else if a == p {
                                assert(t[b] == s[b - 1]);
                            } else {
                                assert(t[a] == s[a - 1]);
                                assert(t[b] == s[b - 1]);
                            }
                        }
                    }
                    lemma_map_of(t);
                    assert(map_of(t) =~= old_view.insert(k, value)) by {
                        assert forall|x: Seq<char>| #[trigger] map_of(t).dom().contains(x) == old_view.insert(k, value).dom().contains(x) by {
                            if map_of(t).dom().contains(x) {
                                let j = choose|j: int| 0 <= j < t.len() && t[j].0@ == x;
                                if j < p {
                                    assert(s[j].0@ == x);
                                } else if j > p {
                                    assert(s[j - 1].0@ == x);
                                }
                            }
                            if old_view.dom().contains(x) {
                                let j = choose|j: int| 0 <= j < s.len() && s[j].0@ == x;
                                if j < p {
                                    assert(t[j].0@ == x);
                                } else {
                                    assert(t[j + 1].0@ == x);
                                }
                            }
                            assert(t[p as int].0@ == k);
                        }
                        assert forall|x: Seq<char>| #[trigger] map_of(t).dom().contains(x) implies map_of(t)[x] == old_view.insert(k, value)[x] by {
                            let j = choose|j: int| 0 <= j < t.len() && t[j].0@ == x;
                            if j < p {
                                assert(s[j] == t[j]);
                            } else if j > p {
                                assert(s[j - 1] == t[j]);
                            }
                        }
                    }
                }
                None
            },
        };
        self.entries = entries;
        r
    }

}

/// Where `key` is in ascending entries, or where it would go.
fn position_of(entries: &Vec<(String, Variant)>, key: &str) -> (r: Result<usize, usize>)
    requires
        keys_ascending(entries@),
    ensures
        match r {
            Ok(i) => i < entries@.len() && entries@[i as int].0@ == key@,
            Err(p) => p <= entries@.len()
                && (forall|i: int| 0 <= i < entries@.len() ==> #[trigger] entries@[i].0@ != key@)
                && (forall|i: int| 0 <= i < p ==> text::text_lt(#[trigger] entries@[i].0@, key@))
                && (forall|i: int| p <= i < entries@.len() ==> text::text_lt(key@, #[trigger] entries@[i].0@)),
        },
{
    let k = text::chars_of(key);
    let mut i: usize = 0;
    while i < entries.len()
        invariant
            k@ == key@,
            keys_ascending(entries@),
            i <= entries@.len(),
            forall|j: int| 0 <= j < i ==> text::text_lt(#[trigger] entries@[j].0@, key@),
        decreases entries.len() - i,
    {
        let e = text::chars_of(entries[i].0.as_str());
        match text::compare_texts(&e, &k) {
            text::Order::Less => {},
            text::Order::Equal => {
                return Ok(i);
            },
            text::Order::Greater => {
                proof {
                    lemma_key_positions(entries@, i as int, key@);
                }
                return Err(i);
            },
        }
        i = i + 1;
    }
    proof {
        lemma_key_positions(entries@, i as int, key@);
    }
    Err(i)
}

} // verus!

verus! {

/// Some key of the entries is the name of a built-in command.
pub open spec fn has_reserved_key(s: Seq<(String, Variant)>) -> bool {
    exists|i: int| 0 <= i < s.len() && cli::is_reserved_name(#[trigger] s[i].0@)
}

/// The key at `i` is the first, in key order, that names a built-in command.
pub open spec fn is_first_reserved(s: Seq<(String, Variant)>, i: int) -> bool {
    &&& 0 <= i < s.len()
    &&& cli::is_reserved_name(s[i].0@)
    &&& forall|j: int| 0 <= j < i ==> !cli::is_reserved_name(#[trigger] s[j].0@)
}

/// Refuses a configuration whose keys name a built-in command: the first such
/// key, in key order.
pub fn check_reserved(c: Config) -> (r: Result<Config, JotError>)
    ensures
        if has_reserved_key(c.entries_view()) {
            r matches Err(JotError::ReservedName(n)) && exists|i: int|
                #[trigger] is_first_reserved(c.entries_view(), i) && c.entries_view()[i].0@ == n@
        } else {
            r == Ok::<Config, JotError>(c)
        },
{
    let entries = c.entries();
    let mut i: usize = 0;
    while i < entries.len()
        invariant
            entries@ == c.entries_view(),
            i <= entries@.len(),
            forall|j: int| 0 <= j < i ==> !cli::is_reserved_name(#[trigger] entries@[j].0@),
        decreases entries.len() - i,
    {
        if cli::is_reserved(entries[i].0.as_str()) {
            let n = entries[i].0.clone();
            assert(cli::is_reserved_name(c.entries_view()[i as int].0@));
            assert(has_reserved_key(c.entries_view()));
            assert(is_first_reserved(c.entries_view(), i as int));
            return Err(JotError::ReservedName(n));
        }
        i = i + 1;
    }
    assert(!has_reserved_key(c.entries_view()));
    Ok(c)
}

/// Checks a configuration as it was read: none when there was no configuration
/// file (an empty configuration), the error when reading or parsing it failed,
/// and otherwise the configuration, unless one of its keys is the name of a
/// built-in command: then the first such key, in key order, is refused.
pub fn load(read: Option<Result<Config, JotError>>) -> (r: Result<Config, JotError>)
    ensures
        match read {
            None => r matches Ok(c) && c@ == Map::<Seq<char>, Variant>::empty(),
            Some(Err(e)) => r == Err::<Config, JotError>(e),
            Some(Ok(c)) => if has_reserved_key(c.entries_view()) {
                r matches Err(JotError::ReservedName(n)) && exists|i: int|
                    #[trigger] is_first_reserved(c.entries_view(), i) && c.entries_view()[i].0@ == n@
            } else {
                r == Ok::<Config, JotError>(c)
            },
        },
{
    match read {
        None => Ok(Config::new()),
        Some(Err(e)) => Err(e),
        Some(Ok(c)) => check_reserved(c),
    }
}

} // verus!

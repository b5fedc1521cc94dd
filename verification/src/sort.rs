use vstd::prelude::*;

verus! {

/// Values that a total preorder ranks: `goes_before(a, b)` says that `a` may stand
/// before `b`. Of two values one may always stand before the other, and the
/// relation is transitive.
pub trait Ranked: Sized {
    spec fn goes_before(self, other: Self) -> bool;

    proof fn lemma_total(a: Self, b: Self)
        ensures
            a.goes_before(b) || b.goes_before(a),
    ;

    proof fn lemma_transitive(a: Self, b: Self, c: Self)
        requires
            a.goes_before(b),
            b.goes_before(c),
        ensures
            a.goes_before(c),
    ;

    fn may_precede(&self, other: &Self) -> (r: bool)
        ensures
            r == self.goes_before(*other),
    ;
}

/// `p` lists each of `0..n` once.
pub open spec fn is_permutation(p: Seq<int>, n: int) -> bool {
    &&& p.len() == n
    &&& forall|k: int| 0 <= k < n ==> 0 <= #[trigger] p[k] < n
    &&& forall|k: int, l: int| 0 <= k < n && 0 <= l < n && k != l ==> p[k] != p[l]
}

/// `out` holds the values of `input` in the places `p` gives, ranked, with values
/// that rank alike in the order they had in `input`.
pub open spec fn ranks_stably<T: Ranked>(input: Seq<T>, out: Seq<T>, p: Seq<int>) -> bool {
    &&& out.len() == input.len()
    &&& is_permutation(p, input.len() as int)
    &&& forall|k: int| 0 <= k < out.len() ==> out[k] == input[#[trigger] p[k]]
    &&& forall|k: int, l: int| 0 <= k < l < out.len() ==> out[k].goes_before(out[l])
    &&& forall|k: int, l: int|
        0 <= k < l < out.len() && #[trigger] out[l].goes_before(#[trigger] out[k]) ==> p[k] < p[l]
}

/// `out` is `input` sorted stably: the same values, ranked, ties in input order.
pub open spec fn sorted_stably<T: Ranked>(input: Seq<T>, out: Seq<T>) -> bool {
    exists|p: Seq<int>| ranks_stably(input, out, p)
}

/// The state of an insertion sort after `i` values: the first `i` places hold the
/// first `i` values of `input`, ranked stably; the rest are untouched.
spec fn sorted_prefix<T: Ranked>(input: Seq<T>, v: Seq<T>, p: Seq<int>, i: int) -> bool {
    &&& v.len() == input.len()
    &&& 0 <= i <= v.len()
    &&& is_permutation(p, input.len() as int)
    &&& forall|k: int| 0 <= k < v.len() ==> v[k] == input[#[trigger] p[k]]
    &&& forall|k: int| i <= k < v.len() ==> #[trigger] p[k] == k
    &&& forall|k: int, l: int| 0 <= k < l < i ==> v[k].goes_before(v[l])
    &&& forall|k: int, l: int|
        0 <= k < l < i && #[trigger] v[l].goes_before(#[trigger] v[k]) ==> p[k] < p[l]
}

proof fn lemma_prefix_below<T: Ranked>(input: Seq<T>, v: Seq<T>, p: Seq<int>, i: int)
    requires
        sorted_prefix(input, v, p, i),
    ensures
        forall|k: int| 0 <= k < i ==> #[trigger] p[k] < i,
{
    assert forall|k: int| 0 <= k < i implies #[trigger] p[k] < i by {
        if p[k] >= i {
            let m = p[k];
            assert(p[m] == m);
            assert(k != m);
        }
    }
}

proof fn lemma_insert_step<T: Ranked>(input: Seq<T>, v: Seq<T>, p: Seq<int>, i: int, pos: int)
    requires
        sorted_prefix(input, v, p, i),
        0 <= pos <= i < v.len(),
        forall|k: int| 0 <= k < pos ==> v[k].goes_before(#[trigger] v[i]),
        pos < i ==> !v[pos].goes_before(v[i]),
    ensures
        sorted_prefix(input, v.remove(i).insert(pos, v[i]), p.remove(i).insert(pos, i), i + 1),
{
    let x = v[i];
    let nv = v.remove(i).insert(pos, x);
    let np = p.remove(i).insert(pos, i);
    let n = v.len() as int;
    lemma_prefix_below(input, v, p, i);
    assert(nv.len() == n && np.len() == n);
    // where each new place came from
    assert forall|k: int| 0 <= k < n implies {
        &&& (k < pos ==> nv[k] == v[k] && np[k] == p[k])
        &&& (k == pos ==> nv[k] == x && np[k] == i)
        &&& (pos < k <= i ==> nv[k] == v[k - 1] && np[k] == p[k - 1])
        &&& (i < k ==> nv[k] == v[k] && np[k] == p[k])
    } by {}
    // the values after `pos` in the sorted part all rank strictly after `x`
    assert forall|m: int| pos <= m < i implies x.goes_before(v[m]) && !v[m].goes_before(x) by {
        T::lemma_total(v[pos], x);
        if m > pos {
            T::lemma_transitive(x, v[pos], v[m]);
            if v[m].goes_before(x) {
                T::lemma_transitive(v[pos], v[m], x);
            }
        }
    }
    assert(is_permutation(np, n)) by {
        assert forall|k: int| 0 <= k < n implies 0 <= #[trigger] np[k] < n by {}
        assert forall|k: int, l: int| 0 <= k < n && 0 <= l < n && k != l implies np[k] != np[l] by {
            if k != pos && l != pos {
                let ok = if k < pos || k > i { k } else { k - 1 };
                let ol = if l < pos || l > i { l } else { l - 1 };
                assert(ok != ol);
                assert(p[ok] != p[ol]);
            } else if k == pos {
                let ol = if l < pos || l > i { l } else { l - 1 };
                assert(ol != i);
                assert(p[i] == i);
            } else {
                let ok = if k < pos || k > i { k } else { k - 1 };
                assert(ok != i);
                assert(p[i] == i);
            }
        }
    }
    assert forall|k: int| 0 <= k < n implies nv[k] == input[#[trigger] np[k]] by {
        if k == pos {
            assert(p[i] == i);
        }
    }
    assert forall|k: int, l: int| 0 <= k < l < i + 1 implies nv[k].goes_before(nv[l]) by {
        if l == pos {
        } else if k == pos {
        } else if l < pos {
        } else if k < pos {
            T::lemma_transitive(v[k], x, v[l - 1]);
        } else {
        }
    }
    assert forall|k: int, l: int|
        0 <= k < l < i + 1 && #[trigger] nv[l].goes_before(#[trigger] nv[k]) implies np[k] < np[l] by {
        if l == pos {
        } else if k == pos {
        } else if l < pos {
        } else if k < pos {
        } else {
        }
    }
}

/// Sorts the values stably by their rank: afterwards every value may stand
/// before those that follow it, and values that rank alike keep their order.
pub fn stable_sort<T: Ranked>(v: &mut Vec<T>)
    ensures
        sorted_stably(old(v)@, final(v)@),
{
    let ghost input = v@;
    let ghost mut p: Seq<int> = Seq::new(v@.len(), |k: int| k);
    let n = v.len();
    let mut i: usize = 0;
    while i < n
        invariant
            n == v.len(),
            input == old(v)@,
            sorted_prefix(input, v@, p, i as int),
        decreases n - i,
    {
        let mut pos: usize = 0;
        while pos < i && v[pos].may_precede(&v[i])
            invariant
                n == v.len(),
                i < n,
                pos <= i,
                forall|k: int| 0 <= k < pos ==> v@[k].goes_before(#[trigger] v@[i as int]),
            decreases i - pos,
        {
            pos = pos + 1;
        }
        proof {
            lemma_insert_step(input, v@, p, i as int, pos as int);
            p = p.remove(i as int).insert(pos as int, i as int);
        }
        let x = v.remove(i);
        v.insert(pos, x);
        i = i + 1;
    }
    assert(ranks_stably(input, v@, p));
}

} // verus!

verus! {

/// A permutation of `0..n` takes every value in `0..n`.
proof fn lemma_permutation_onto(p: Seq<int>, n: int)
    requires
        is_permutation(p, n),
    ensures
        forall|v: int| 0 <= v < n ==> p.contains(v),
{
    assert(p.no_duplicates());
    p.unique_seq_to_set();
    vstd::set_lib::lemma_int_range(0, n);
    let range = vstd::set_lib::set_int_range(0, n);
    assert(p.to_set().subset_of(range));
    vstd::set_lib::lemma_len_subset(p.to_set(), range);
    vstd::set_lib::lemma_subset_equality(p.to_set(), range);
    assert forall|v: int| 0 <= v < n implies p.contains(v) by {
        assert(range.contains(v));
        assert(p.to_set().contains(v));
    }
}

proof fn lemma_places_agree<T: Ranked>(input: Seq<T>, a: Seq<T>, b: Seq<T>, p: Seq<int>, q: Seq<int>, k: int)
    requires
        ranks_stably(input, a, p),
        ranks_stably(input, b, q),
        0 <= k < input.len(),
    ensures
        p[k] == q[k],
    decreases k,
{
    let n = input.len() as int;
    assert forall|j: int| 0 <= j < k implies p[j] == q[j] by {
        lemma_places_agree(input, a, b, p, q, j);
    }
    let x = p[k];
    let y = q[k];
    if x != y {
        lemma_permutation_onto(p, n);
        lemma_permutation_onto(q, n);
        assert(p.contains(y));
        let m = choose|m: int| 0 <= m < p.len() && p[m] == y;
        assert(q.contains(x));
        let m2 = choose|m: int| 0 <= m < q.len() && q[m] == x;
        if m < k {
            assert(q[m] == y);
        }
        if m2 < k {
            assert(p[m2] == x);
        }
        assert(a[k] == input[x] && a[m] == input[y]);
        assert(b[k] == input[y] && b[m2] == input[x]);
        assert(input[x].goes_before(input[y]));
        assert(input[y].goes_before(input[x]));
        assert(a[m].goes_before(a[k]));
        assert(b[m2].goes_before(b[k]));
    }
}

/// Sorting stably has one outcome: two stable sorts of the same values agree.
pub proof fn lemma_sorted_stably_unique<T: Ranked>(input: Seq<T>, a: Seq<T>, b: Seq<T>)
    requires
        sorted_stably(input, a),
        sorted_stably(input, b),
    ensures
        a == b,
{
    let p = choose|p: Seq<int>| ranks_stably(input, a, p);
    let q = choose|q: Seq<int>| ranks_stably(input, b, q);
    assert forall|k: int| 0 <= k < a.len() implies a[k] == b[k] by {
        lemma_places_agree(input, a, b, p, q, k);
    }
    assert(a =~= b);
}

} // verus!

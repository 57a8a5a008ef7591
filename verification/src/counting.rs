use vstd::prelude::*;
use vstd::relations::injective_on;
use vstd::set_lib::*;

verus! {

/// Pigeonhole: `n` pairwise different values all below `bound` need
/// `n <= bound`.
pub proof fn lemma_injective_bound(n: int, bound: int, f: spec_fn(int) -> int)
    requires
        0 <= n,
        0 <= bound,
        forall|i: int| 0 <= i < n ==> 0 <= #[trigger] f(i) < bound,
        forall|i: int, j: int| 0 <= i < n && 0 <= j < n && i != j ==> #[trigger] f(i) != #[trigger] f(j),
    ensures
        n <= bound,
{
    let x = set_int_range(0, n);
    let y = x.map(f);
    lemma_int_range(0, n);
    lemma_int_range(0, bound);
    assert(injective_on(f, x)) by {
        assert forall|a: int, b: int| x.contains(a) && x.contains(b) && #[trigger] f(a) == #[trigger] f(b) implies a == b by {
            if a != b {
                assert(f(a) != f(b));
            }
        }
    }
    lemma_map_size(x, y, f);
    assert(y.subset_of(set_int_range(0, bound))) by {
        assert forall|v: int| y.contains(v) implies set_int_range(0, bound).contains(v) by {
            let i = choose|i: int| x.contains(i) && f(i) == v;
            assert(0 <= f(i) < bound);
        }
    }
    lemma_len_subset(y, set_int_range(0, bound));
}

/// A sequence without repeats whose values all lie below `bound` has at most
/// `bound` elements.
pub proof fn lemma_distinct_below(s: Seq<u32>, bound: int)
    requires
        0 <= bound,
        s.no_duplicates(),
        forall|i: int| 0 <= i < s.len() ==> #[trigger] s[i] < bound,
    ensures
        s.len() <= bound,
{
    let f = |i: int| if 0 <= i < s.len() { s[i] as int } else { 0 };
    assert forall|i: int, j: int| 0 <= i < s.len() && 0 <= j < s.len() && i != j implies #[trigger] f(i) != #[trigger] f(j) by {
        assert(s[i] != s[j]);
    }
    lemma_injective_bound(s.len() as int, bound, f);
}

/// Membership in a sequence with one more element.
pub proof fn lemma_push_contains<T>(s: Seq<T>, v: T, x: T)
    ensures
        s.push(v).contains(x) == (s.contains(x) || x == v),
{
    if s.contains(x) {
        let i = choose|i: int| 0 <= i < s.len() && s[i] == x;
        assert(s.push(v)[i] == x);
    }
    if x == v {
        assert(s.push(v)[s.len() as int] == x);
    }
    if s.push(v).contains(x) {
        let i = choose|i: int| 0 <= i < s.push(v).len() && s.push(v)[i] == x;
        if i < s.len() {
            assert(s[i] == x);
        }
    }
}

/// The elements of a sequence with one more element.
pub proof fn lemma_push_to_set<T>(s: Seq<T>, v: T)
    ensures
        s.push(v).to_set() == s.to_set().insert(v),
{
    assert forall|x: T| #[trigger] s.push(v).to_set().contains(x) == s.to_set().insert(v).contains(x) by {
        lemma_push_contains(s, v, x);
    }
    assert(s.push(v).to_set() =~= s.to_set().insert(v));
}

} // verus!

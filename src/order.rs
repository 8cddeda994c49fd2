//! The order of paths: a total order, and the ascending listing of a finite set.
use vstd::prelude::*;
use crate::table::{
    path_le, path_lt, strictly_ascending, ordered_paths, lemma_ordered_paths,
    lemma_path_le_antisymmetric,
};

verus! {

broadcast use vstd::seq_lib::group_to_multiset_ensures;

/// Every path sorts before or equal to itself.
pub proof fn lemma_path_le_reflexive(a: Seq<char>)
    ensures
        path_le(a, a),
    decreases a.len(),
{
    if a.len() > 0 {
        lemma_path_le_reflexive(a.drop_first());
    }
}

/// Any two paths are ordered one way or the other.
pub proof fn lemma_path_le_total(a: Seq<char>, b: Seq<char>)
    ensures
        path_le(a, b) || path_le(b, a),
    decreases a.len(),
{
    if a.len() > 0 && b.len() > 0 {
        if a[0] == b[0] {
            lemma_path_le_total(a.drop_first(), b.drop_first());
        } else {
            assert((a[0] as int) != (b[0] as int));
        }
    }
}

/// The order of paths is transitive.
pub proof fn lemma_path_le_transitive(a: Seq<char>, b: Seq<char>, c: Seq<char>)
    requires
        path_le(a, b),
        path_le(b, c),
    ensures
        path_le(a, c),
    decreases a.len(),
{
    if a.len() > 0 && b.len() > 0 && c.len() > 0 {
        if a[0] == b[0] && b[0] == c[0] {
            lemma_path_le_transitive(a.drop_first(), b.drop_first(), c.drop_first());
        }
    }
}

/// The order of paths is a total order.
pub proof fn lemma_path_order_total()
    ensures
        vstd::relations::total_ordering(|a: Seq<char>, b: Seq<char>| path_le(a, b)),
{
    let leq = |a: Seq<char>, b: Seq<char>| path_le(a, b);
    assert forall|x: Seq<char>| #[trigger] leq(x, x) by {
        lemma_path_le_reflexive(x);
    }
    assert forall|x: Seq<char>, y: Seq<char>| #[trigger] leq(x, y) && #[trigger] leq(y, x) implies x
        == y by {
        lemma_path_le_antisymmetric(x, y);
    }
    assert forall|x: Seq<char>, y: Seq<char>, z: Seq<char>| #[trigger] leq(x, y) && #[trigger] leq(
        y,
        z,
    ) implies leq(x, z) by {
        lemma_path_le_transitive(x, y, z);
    }
    assert forall|x: Seq<char>, y: Seq<char>| #[trigger] leq(x, y) || #[trigger] leq(y, x) by {
        lemma_path_le_total(x, y);
    }
}

/// A finite set's listing has no repeats.
proof fn lemma_to_seq_no_duplicates(paths: Set<Seq<char>>)
    requires
        paths.finite(),
    ensures
        paths.to_seq().no_duplicates(),
        paths.to_seq().to_set() == paths,
    decreases paths.len(),
{
    paths.lemma_to_seq_to_set_id();
    if paths.len() > 0 {
        let x = paths.choose();
        let rest = paths.remove(x);
        lemma_to_seq_no_duplicates(rest);
        let t = rest.to_seq();
        let s = paths.to_seq();
        assert(s == Seq::<Seq<char>>::empty().push(x) + t);
        assert(!t.contains(x)) by {
            if t.contains(x) {
                assert(t.to_set().contains(x));
            }
        }
        assert forall|i: int, j: int| 0 <= i < s.len() && 0 <= j < s.len() && i != j implies s[i]
            != s[j] by {
            if i == 0 {
                assert(t[j - 1] == s[j]);
            } else if j == 0 {
                assert(t[i - 1] == s[i]);
            } else {
                assert(t[i - 1] == s[i] && t[j - 1] == s[j]);
            }
        }
    }
}

/// Every finite set of paths has an ascending order, which `ordered_paths` gives.
pub proof fn lemma_ordered_paths_exist(paths: Set<Seq<char>>)
    requires
        paths.finite(),
    ensures
        strictly_ascending(ordered_paths(paths)),
        ordered_paths(paths).to_set() == paths,
{
    let leq = |a: Seq<char>, b: Seq<char>| path_le(a, b);
    lemma_path_order_total();
    lemma_to_seq_no_duplicates(paths);
    let t = paths.to_seq();
    t.lemma_sort_by_ensures(leq);
    let s = t.sort_by(leq);
    t.lemma_multiset_has_no_duplicates();
    assert forall|x: Seq<char>| s.to_multiset().contains(x) implies s.to_multiset().count(x) == 1 by {}
    s.lemma_multiset_has_no_duplicates_conv();
    assert(s.to_set() =~= paths) by {
        assert forall|x: Seq<char>| s.to_set().contains(x) <==> paths.contains(x) by {
            if s.contains(x) {
                assert(s.to_multiset().count(x) > 0);
                assert(t.to_multiset().count(x) > 0);
                assert(t.to_set().contains(x));
            }
            if paths.contains(x) {
                assert(t.to_set().contains(x));
                assert(t.to_multiset().count(x) > 0);
                assert(s.to_multiset().count(x) > 0);
            }
        }
    }
    assert forall|i: int, j: int| 0 <= i < j < s.len() implies path_lt(#[trigger] s[i], #[trigger] s[j]) by {
        assert(leq(s[i], s[j]));
    }
    lemma_ordered_paths(s);
}

} // verus!

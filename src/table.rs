//! The merge table: sanitized paths mapped to file content, filled under a
//! conflict policy.
use vstd::prelude::*;
use vstd::hash_map::StringHashMap;
use crate::error::MergeError;
use crate::options::OverwritePolicy;

verus! {

broadcast use vstd::seq_lib::group_to_multiset_ensures;

/// A path and the bytes stored under it.
pub type EntryView = (Seq<char>, Seq<u8>);

/// The table after one more entry under `policy`, or `Err` with the path that the
/// policy refuses.
pub open spec fn insert_entry(
    m: Map<Seq<char>, Seq<u8>>,
    e: EntryView,
    policy: OverwritePolicy,
) -> Result<Map<Seq<char>, Seq<u8>>, Seq<char>> {
    if !m.contains_key(e.0) {
        Ok(m.insert(e.0, e.1))
    } else {
        match policy {
            OverwritePolicy::LastWins => Ok(m.insert(e.0, e.1)),
            OverwritePolicy::FirstWins => Ok(m),
            OverwritePolicy::SkipIfExists => Ok(m),
            OverwritePolicy::ErrorIfConflict => Err(e.0),
        }
    }
}

/// The table after the entries `es`, in order, under `policy`; the first refused
/// path ends the merge.
pub open spec fn merged(
    base: Map<Seq<char>, Seq<u8>>,
    es: Seq<EntryView>,
    policy: OverwritePolicy,
) -> Result<Map<Seq<char>, Seq<u8>>, Seq<char>>
    decreases es.len(),
{
    if es.len() == 0 {
        Ok(base)
    } else {
        match merged(base, es.drop_last(), policy) {
            Ok(m) => insert_entry(m, es.last(), policy),
            Err(p) => Err(p),
        }
    }
}

/// Every path of an entry is a key of a table the entries merged into.
pub proof fn lemma_merged_holds_paths(
    base: Map<Seq<char>, Seq<u8>>,
    es: Seq<EntryView>,
    policy: OverwritePolicy,
)
    ensures
        merged(base, es, policy) matches Ok(m) ==> {
            &&& forall|k: Seq<char>| base.contains_key(k) ==> m.contains_key(k)
            &&& forall|j: int| 0 <= j < es.len() ==> m.contains_key(#[trigger] es[j].0)
        },
    decreases es.len(),
{
    if es.len() > 0 {
        lemma_merged_holds_paths(base, es.drop_last(), policy);
        assert forall|j: int| 0 <= j < es.len() - 1 implies es.drop_last()[j] == #[trigger] es[j] by {}
    }
}

/// Under last-wins a merge never fails, and each path holds the content of the
/// last entry with that path; a path that no entry has keeps what the base held.
pub proof fn last_wins_keeps_last_entry(base: Map<Seq<char>, Seq<u8>>, es: Seq<EntryView>)
    ensures
        merged(base, es, OverwritePolicy::LastWins) is Ok,
        forall|i: int|
            0 <= i < es.len() && (forall|j: int| i < j < es.len() ==> es[j].0 != es[i].0)
                ==> merged(base, es, OverwritePolicy::LastWins)->Ok_0.contains_key(
                #[trigger] es[i].0,
            ) && merged(base, es, OverwritePolicy::LastWins)->Ok_0[es[i].0] == es[i].1,
        forall|k: Seq<char>|
            (forall|j: int| 0 <= j < es.len() ==> es[j].0 != k) ==> (#[trigger] merged(
                base,
                es,
                OverwritePolicy::LastWins,
            )->Ok_0.contains_key(k) == base.contains_key(k) && (base.contains_key(k)
                ==> merged(base, es, OverwritePolicy::LastWins)->Ok_0[k] == base[k])),
    decreases es.len(),
{
    if es.len() > 0 {
        let init = es.drop_last();
        last_wins_keeps_last_entry(base, init);
        let m = merged(base, es, OverwritePolicy::LastWins)->Ok_0;
        assert forall|i: int|
            0 <= i < es.len() && (forall|j: int| i < j < es.len() ==> es[j].0 != es[i].0)
                implies m.contains_key(#[trigger] es[i].0) && m[es[i].0] == es[i].1 by {
            if i < es.len() - 1 {
                assert(init[i] == es[i]);
                assert forall|j: int| i < j < init.len() implies init[j].0 != init[i].0 by {
                    assert(init[j] == es[j]);
                }
            }
        }
        assert forall|k: Seq<char>| (forall|j: int| 0 <= j < es.len() ==> es[j].0 != k) implies (
        #[trigger] m.contains_key(k)) == base.contains_key(k) && (base.contains_key(k) ==> m[k]
            == base[k]) by {
            assert forall|j: int| 0 <= j < init.len() implies init[j].0 != k by {
                assert(init[j] == es[j]);
            }
            assert(es[es.len() - 1].0 != k);
        }
    }
}

/// Under first-wins, and under skip-if-exists, each path holds the content of the
/// first entry with that path.
#[verifier::rlimit(30)]
pub proof fn first_wins_keeps_first_entry(es: Seq<EntryView>, policy: OverwritePolicy)
    requires
        policy == OverwritePolicy::FirstWins || policy == OverwritePolicy::SkipIfExists,
    ensures
        merged(Map::empty(), es, policy) is Ok,
        forall|i: int|
            0 <= i < es.len() && (forall|j: int| 0 <= j < i ==> es[j].0 != es[i].0)
                ==> merged(Map::empty(), es, policy)->Ok_0.contains_key(#[trigger] es[i].0)
                && merged(Map::empty(), es, policy)->Ok_0[es[i].0] == es[i].1,
        forall|k: Seq<char>|
            (forall|j: int| 0 <= j < es.len() ==> es[j].0 != k) ==> !(#[trigger] merged(
                Map::empty(),
                es,
                policy,
            )->Ok_0.contains_key(k)),
    decreases es.len(),
{
    if es.len() > 0 {
        let init = es.drop_last();
        first_wins_keeps_first_entry(init, policy);
        lemma_merged_holds_paths(Map::empty(), init, policy);
        let m0 = merged(Map::empty(), init, policy)->Ok_0;
        let m = merged(Map::empty(), es, policy)->Ok_0;
        let last = es.len() - 1;
        assert(m == if m0.contains_key(es[last].0) {
            m0
        } else {
            m0.insert(es[last].0, es[last].1)
        });
        assert forall|i: int|
            0 <= i < es.len() && (forall|j: int| 0 <= j < i ==> es[j].0 != es[i].0)
                implies m.contains_key(#[trigger] es[i].0) && m[es[i].0] == es[i].1 by {
            if i < last {
                assert(init[i] == es[i]);
                assert forall|j: int| 0 <= j < i implies init[j].0 != init[i].0 by {
                    assert(init[j] == es[j]);
                }
                assert(m0.contains_key(es[i].0));
            } else {
                assert forall|j: int| 0 <= j < init.len() implies init[j].0 != es[i].0 by {
                    assert(init[j] == es[j]);
                }
            }
        }
        assert forall|k: Seq<char>| (forall|j: int| 0 <= j < es.len() ==> es[j].0 != k) implies !(
        #[trigger] m.contains_key(k)) by {
            assert forall|j: int| 0 <= j < init.len() implies init[j].0 != k by {
                assert(init[j] == es[j]);
            }
            assert(es[last].0 != k);
        }
    }
}

/// Under error-if-conflict a merge fails exactly when two entries share a path.
pub proof fn error_if_conflict_fails_on_shared_path(es: Seq<EntryView>)
    ensures
        merged(Map::empty(), es, OverwritePolicy::ErrorIfConflict) is Err <==> exists|i: int, j: int|
            0 <= i < j < es.len() && #[trigger] es[i].0 == #[trigger] es[j].0,
    decreases es.len(),
{
    let p = OverwritePolicy::ErrorIfConflict;
    if es.len() > 0 {
        let init = es.drop_last();
        let last = es.len() - 1;
        error_if_conflict_fails_on_shared_path(init);
        lemma_merged_holds_paths(Map::empty(), init, p);
        if exists|i: int, j: int| 0 <= i < j < init.len() && #[trigger] init[i].0 == #[trigger] init[j].0 {
            let (i, j) = choose|i: int, j: int| 0 <= i < j < init.len() && #[trigger] init[i].0 == #[trigger] init[j].0;
            assert(es[i] == init[i] && es[j] == init[j]);
        } else if merged(Map::empty(), es, p) is Err {
            let m0 = merged(Map::empty(), init, p)->Ok_0;
            assert(m0.contains_key(es[last].0));
            lemma_merged_paths_come_from_entries(init, p);
            let i = choose|i: int| 0 <= i < init.len() && init[i].0 == es[last].0;
            assert(es[i] == init[i]);
        } else {
            assert forall|i: int, j: int| 0 <= i < j < es.len() implies #[trigger] es[i].0 != #[trigger] es[j].0 by {
                if j < last {
                    assert(es[i] == init[i] && es[j] == init[j]);
                } else {
                    assert(es[i] == init[i]);
                    let m0 = merged(Map::empty(), init, p)->Ok_0;
                    assert(m0.contains_key(init[i].0));
                }
            }
        }
    }
}

/// Every key of a table merged from nothing is the path of some entry.
pub proof fn lemma_merged_paths_come_from_entries(es: Seq<EntryView>, policy: OverwritePolicy)
    ensures
        merged(Map::empty(), es, policy) matches Ok(m) ==> forall|k: Seq<char>| #[trigger]
            m.contains_key(k) ==> exists|i: int| 0 <= i < es.len() && es[i].0 == k,
    decreases es.len(),
{
    if es.len() > 0 {
        let init = es.drop_last();
        lemma_merged_paths_come_from_entries(init, policy);
        if merged(Map::empty(), es, policy) is Ok {
            let m = merged(Map::empty(), es, policy)->Ok_0;
            assert forall|k: Seq<char>| #[trigger] m.contains_key(k) implies exists|i: int|
                0 <= i < es.len() && es[i].0 == k by {
                if k != es.last().0 {
                    let i = choose|i: int| 0 <= i < init.len() && init[i].0 == k;
                    assert(es[i] == init[i]);
                } else {
                    assert(es[es.len() - 1].0 == k);
                }
            }
        }
    }
}

/// Every key of a merged table is a key of the base or the path of some entry.
pub proof fn lemma_merged_keys(base: Map<Seq<char>, Seq<u8>>, es: Seq<EntryView>, policy: OverwritePolicy)
    ensures
        merged(base, es, policy) matches Ok(m) ==> forall|k: Seq<char>| #[trigger]
            m.contains_key(k) ==> base.contains_key(k) || exists|i: int| 0 <= i < es.len() && es[i].0
                == k,
    decreases es.len(),
{
    if es.len() > 0 {
        let init = es.drop_last();
        lemma_merged_keys(base, init, policy);
        if merged(base, es, policy) is Ok {
            let m = merged(base, es, policy)->Ok_0;
            assert forall|k: Seq<char>| #[trigger] m.contains_key(k) implies base.contains_key(k)
                || exists|i: int| 0 <= i < es.len() && es[i].0 == k by {
                if k == es.last().0 {
                    assert(es[es.len() - 1].0 == k);
                } else if !base.contains_key(k) {
                    let i = choose|i: int| 0 <= i < init.len() && init[i].0 == k;
                    assert(es[i] == init[i]);
                }
            }
        }
    }
}

/// Entries whose paths are all different and new to the base merge the same way
/// under error-if-conflict as under last-wins.
pub proof fn conflict_free_merges_agree(base: Map<Seq<char>, Seq<u8>>, es: Seq<EntryView>)
    requires
        forall|i: int, j: int| 0 <= i < j < es.len() ==> #[trigger] es[i].0 != #[trigger] es[j].0,
        forall|i: int| 0 <= i < es.len() ==> !base.contains_key(#[trigger] es[i].0),
    ensures
        merged(base, es, OverwritePolicy::ErrorIfConflict) == merged(base, es, OverwritePolicy::LastWins),
        merged(base, es, OverwritePolicy::LastWins) is Ok,
    decreases es.len(),
{
    if es.len() > 0 {
        let init = es.drop_last();
        let last = es.len() - 1;
        assert forall|i: int, j: int| 0 <= i < j < init.len() implies #[trigger] init[i].0 != #[trigger] init[j].0 by {
            assert(init[i] == es[i] && init[j] == es[j]);
        }
        assert forall|i: int| 0 <= i < init.len() implies !base.contains_key(#[trigger] init[i].0) by {
            assert(init[i] == es[i]);
        }
        conflict_free_merges_agree(base, init);
        last_wins_keeps_last_entry(base, init);
        lemma_merged_keys(base, init, OverwritePolicy::LastWins);
        let m = merged(base, init, OverwritePolicy::LastWins)->Ok_0;
        if m.contains_key(es[last].0) {
            assert(!base.contains_key(es[last].0));
            let i = choose|i: int| 0 <= i < init.len() && init[i].0 == es[last].0;
            assert(es[i] == init[i]);
        }
    }
}

/// The message of the error that a refused path gives.
pub open spec fn conflict_message(path: Seq<char>) -> Seq<char> {
    "conflicting path in inputs: "@ + path
}

/// `a` sorts before or equal to `b`, comparing characters by code point.
pub open spec fn path_le(a: Seq<char>, b: Seq<char>) -> bool
    decreases a.len(),
{
    if a.len() == 0 {
        true
    } else if b.len() == 0 {
        false
    } else if a[0] != b[0] {
        (a[0] as int) < (b[0] as int)
    } else {
        path_le(a.drop_first(), b.drop_first())
    }
}

/// `a` sorts strictly before `b`.
pub open spec fn path_lt(a: Seq<char>, b: Seq<char>) -> bool {
    path_le(a, b) && a != b
}

/// Every path sorts strictly before the ones after it.
pub open spec fn strictly_ascending(s: Seq<Seq<char>>) -> bool {
    forall|i: int, j: int| 0 <= i < j < s.len() ==> path_lt(#[trigger] s[i], #[trigger] s[j])
}

/// The paths of a set in ascending order.
pub open spec fn ordered_paths(paths: Set<Seq<char>>) -> Seq<Seq<char>> {
    choose|ks: Seq<Seq<char>>| strictly_ascending(ks) && ks.to_set() == paths
}

/// Two paths that each sort before or equal to the other are equal.
pub proof fn lemma_path_le_antisymmetric(a: Seq<char>, b: Seq<char>)
    requires
        path_le(a, b),
        path_le(b, a),
    ensures
        a == b,
    decreases a.len(),
{
    if a.len() > 0 {
        lemma_path_le_antisymmetric(a.drop_first(), b.drop_first());
        assert(a =~= seq![a[0]] + a.drop_first());
        assert(b =~= seq![b[0]] + b.drop_first());
    } else {
        assert(b.len() == 0);
        assert(a =~= b);
    }
}

/// Only one strictly ascending sequence holds a given set of paths.
pub proof fn lemma_ascending_unique(a: Seq<Seq<char>>, b: Seq<Seq<char>>)
    requires
        strictly_ascending(a),
        strictly_ascending(b),
        a.to_set() == b.to_set(),
    ensures
        a == b,
    decreases a.len(),
{
    if a.len() == 0 {
        if b.len() > 0 {
            assert(b.to_set().contains(b[0]));
        }
        assert(a =~= b);
    } else {
        assert(a.to_set().contains(a[0]));
        assert(b.len() > 0);
        assert(b.to_set().contains(b[0]));
        let j = choose|j: int| 0 <= j < b.len() && b[j] == a[0];
        let i = choose|i: int| 0 <= i < a.len() && a[i] == b[0];
        if j > 0 {
            assert(path_lt(b[0], b[j]));
            if i > 0 {
                assert(path_lt(a[0], a[i]));
                lemma_path_le_antisymmetric(a[0], b[0]);
            }
            assert(false);
        }
        let ra = a.drop_first();
        let rb = b.drop_first();
        assert forall|x: Seq<char>| ra.to_set().contains(x) <==> rb.to_set().contains(x) by {
            if ra.contains(x) {
                let k = choose|k: int| 0 <= k < ra.len() && ra[k] == x;
                assert(a[k + 1] == x);
                assert(path_lt(a[0], a[k + 1]));
                assert(b.to_set().contains(x));
                let m = choose|m: int| 0 <= m < b.len() && b[m] == x;
                assert(m != 0);
                assert(rb[m - 1] == x);
            }
            if rb.contains(x) {
                let k = choose|k: int| 0 <= k < rb.len() && rb[k] == x;
                assert(b[k + 1] == x);
                assert(path_lt(b[0], b[k + 1]));
                assert(a.to_set().contains(x));
                let m = choose|m: int| 0 <= m < a.len() && a[m] == x;
                assert(m != 0);
                assert(ra[m - 1] == x);
            }
        }
        assert(ra.to_set() =~= rb.to_set());
        assert(strictly_ascending(ra)) by {
            assert forall|x: int, y: int| 0 <= x < y < ra.len() implies path_lt(#[trigger] ra[x], #[trigger] ra[y]) by {
                assert(ra[x] == a[x + 1] && ra[y] == a[y + 1]);
            }
        }
        assert(strictly_ascending(rb)) by {
            assert forall|x: int, y: int| 0 <= x < y < rb.len() implies path_lt(#[trigger] rb[x], #[trigger] rb[y]) by {
                assert(rb[x] == b[x + 1] && rb[y] == b[y + 1]);
            }
        }
        lemma_ascending_unique(ra, rb);
        assert(a =~= seq![a[0]] + ra);
        assert(b =~= seq![b[0]] + rb);
    }
}

/// A strictly ascending sequence is the ordered form of its set.
pub proof fn lemma_ordered_paths(ks: Seq<Seq<char>>)
    requires
        strictly_ascending(ks),
    ensures
        ordered_paths(ks.to_set()) == ks,
{
    let o = ordered_paths(ks.to_set());
    assert(strictly_ascending(o) && o.to_set() == ks.to_set());
    lemma_ascending_unique(o, ks);
}

pub open spec fn string_views(v: Seq<String>) -> Seq<Seq<char>> {
    v.map_values(|s: String| s@)
}

/// Appending a path that is not yet listed keeps the list free of repeats and adds
/// it to the listed set.
pub proof fn lemma_push_new_path(ps: Seq<Seq<char>>, x: Seq<char>)
    requires
        ps.no_duplicates(),
        !ps.contains(x),
    ensures
        ps.push(x).no_duplicates(),
        ps.push(x).to_set() == ps.to_set().insert(x),
{
    assert forall|y: Seq<char>| #[trigger] ps.push(x).contains(y) <==> (ps.contains(y) || y == x) by {
        if ps.contains(y) {
            let k = choose|k: int| 0 <= k < ps.len() && ps[k] == y;
            assert(ps.push(x)[k] == y);
        }
        if y == x {
            assert(ps.push(x)[ps.len() as int] == y);
        }
    }
    assert(ps.push(x).to_set() =~= ps.to_set().insert(x));
    assert forall|a: int, b: int| 0 <= a < ps.len() + 1 && 0 <= b < ps.len() + 1 && a != b implies ps.push(x)[a] != ps.push(x)[b] by {
        if a == ps.len() {
            assert(ps[b] == ps.push(x)[b]);
        } else if b == ps.len() {
            assert(ps[a] == ps.push(x)[a]);
        }
    }
}

/// Relies on `slice::sort`: the vector becomes an ascending permutation of itself,
/// and `str` orders lexicographically by byte, which is lexicographic order by code point.
#[verifier::external_body]
fn sort_strings(v: &mut Vec<String>)
    ensures
        string_views(final(v)@).to_multiset() == string_views(old(v)@).to_multiset(),
        forall|i: int, j: int|
            0 <= i < j < final(v)@.len() ==> path_le(
                #[trigger] final(v)@[i]@,
                #[trigger] final(v)@[j]@,
            ),
{
    v.sort();
}

/// The table of one merge.
pub struct MergeTable {
    files: StringHashMap<Vec<u8>>,
    paths: Vec<String>,
}

impl View for MergeTable {
    type V = Map<Seq<char>, Seq<u8>>;

    closed spec fn view(&self) -> Map<Seq<char>, Seq<u8>> {
        self.files@.map_values(|v: Vec<u8>| v@)
    }
}

impl MergeTable {
    /// The paths are unique and are exactly the keys of the table.
    pub closed spec fn wf(&self) -> bool {
        &&& string_views(self.paths@).no_duplicates()
        &&& string_views(self.paths@).to_set() == self.files@.dom()
    }

    pub fn new() -> (r: MergeTable)
        ensures
            r.wf(),
            r@ == Map::<Seq<char>, Seq<u8>>::empty(),
    {
        let r = MergeTable { files: StringHashMap::new(), paths: Vec::new() };
        assert(string_views(r.paths@) =~= Seq::<Seq<char>>::empty());
        assert(string_views(r.paths@).to_set() =~= r.files@.dom());
        assert(r@ =~= Map::<Seq<char>, Seq<u8>>::empty());
        r
    }

    /// Adds one entry under `policy`. A path the policy refuses leaves the table as
    /// it was and gives an `InvalidInput` error that names it.
    pub fn insert(&mut self, path: String, data: Vec<u8>, policy: OverwritePolicy) -> (r: Result<
        (),
        MergeError,
    >)
        requires
            old(self).wf(),
        ensures
            final(self).wf(),
            match insert_entry(old(self)@, (path@, data@), policy) {
                Ok(m) => r is Ok && final(self)@ == m,
                Err(p) => {
                    &&& final(self)@ == old(self)@
                    &&& r matches Err(MergeError::InvalidInput(msg)) && msg@ == conflict_message(p)
                },
            },
    {
        let present = self.files.contains_key(path.as_str());
        let ghost ps = string_views(self.paths@);
        if !present {
            let key = path.clone();
            self.files.insert(key, data);
            self.paths.push(path);
            proof {
                assert(string_views(self.paths@) =~= ps.push(path@));
                assert forall|x: Seq<char>| #[trigger] ps.push(path@).contains(x) <==> (ps.contains(x) || x == path@) by {
                    if ps.contains(x) {
                        let k = choose|k: int| 0 <= k < ps.len() && ps[k] == x;
                        assert(ps.push(path@)[k] == x);
                    }
                    if x == path@ {
                        assert(ps.push(path@)[ps.len() as int] == x);
                    }
                }
                assert(ps.push(path@).to_set() =~= ps.to_set().insert(path@));
                assert(self@ =~= old(self)@.insert(path@, data@));
            }
            Ok(())
        } else {
            match policy {
                OverwritePolicy::LastWins => {
                    self.files.insert(path, data);
                    proof {
                        assert(self.files@.dom() =~= old(self).files@.dom());
                        assert(self@ =~= old(self)@.insert(path@, data@));
                    }
                    Ok(())
                },
                OverwritePolicy::FirstWins => Ok(()),
                OverwritePolicy::SkipIfExists => Ok(()),
                OverwritePolicy::ErrorIfConflict => {
                    Err(MergeError::invalid("conflicting path in inputs: ", path.as_str()))
                },
            }
        }
    }

    /// The content stored under `path`.
    pub fn get(&self, path: &str) -> (r: Option<&Vec<u8>>)
        ensures
            r matches Some(v) ==> self@.contains_key(path@) && self@[path@] == v@,
            r is None ==> !self@.contains_key(path@),
    {
        self.files.get(path)
    }

    /// Every path of the table, each once, in ascending order.
    pub fn sorted_paths(&self) -> (r: Vec<String>)
        requires
            self.wf(),
        ensures
            strictly_ascending(string_views(r@)),
            string_views(r@).to_set() == self@.dom(),
            string_views(r@) == ordered_paths(self@.dom()),
            strictly_ascending(ordered_paths(self@.dom())),
    {
        let v = self.paths.clone();
        proof {
            assert(string_views(v@) =~= string_views(self.paths@));
            assert(self@.dom() =~= self.files@.dom());
        }
        let r = sorted_unique(v);
        proof {
            lemma_ordered_paths(string_views(r@));
        }
        r
    }
}

/// The strings in ascending order, given that no two are equal.
pub(crate) fn sorted_unique(v: Vec<String>) -> (r: Vec<String>)
    requires
        string_views(v@).no_duplicates(),
    ensures
        strictly_ascending(string_views(r@)),
        string_views(r@).to_set() == string_views(v@).to_set(),
{
    let mut v = v;
    let ghost before = string_views(v@);
    sort_strings(&mut v);
    let ghost after = string_views(v@);
    proof {
        before.lemma_multiset_has_no_duplicates();
        assert forall|x: Seq<char>| after.to_multiset().contains(x) implies after.to_multiset().count(x) == 1 by {}
        after.lemma_multiset_has_no_duplicates_conv();
        assert(after.to_set() =~= before.to_set()) by {
            assert forall|x: Seq<char>| after.to_set().contains(x) <==> before.to_set().contains(x) by {
                if after.contains(x) {
                    assert(after.to_multiset().count(x) > 0);
                    assert(before.to_multiset().count(x) > 0);
                }
                if before.contains(x) {
                    assert(before.to_multiset().count(x) > 0);
                    assert(after.to_multiset().count(x) > 0);
                }
            }
        }
        assert forall|i: int, j: int| 0 <= i < j < after.len() implies path_lt(#[trigger] after[i], #[trigger] after[j]) by {
            assert(path_le(v@[i]@, v@[j]@));
        }
    }
    v
}

} // verus!

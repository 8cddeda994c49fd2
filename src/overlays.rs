//! Merging the overlay declarations of all inputs, keyed by directory name.
use vstd::prelude::*;
use serde_json::Value;
use crate::json::{
    JsonModel, field, json_of, models, json_get, json_as_array, json_as_str, json_clone,
    json_object, json_insert, json_array,
};
use crate::table::{
    strictly_ascending, string_views, sorted_unique, ordered_paths, lemma_ordered_paths,
    lemma_push_new_path,
};
use vstd::hash_map::StringHashMap;

verus! {

/// The directory that an overlay entry names, if it names one as a string.
pub open spec fn entry_directory(e: JsonModel) -> Option<Seq<char>> {
    match field(e, "directory"@) {
        Some(JsonModel::Text(d)) => Some(d),
        _ => None,
    }
}

/// The entries of an overlays block: its `entries` array, or nothing.
pub open spec fn block_entries(block: JsonModel) -> Seq<JsonModel> {
    match field(block, "entries"@) {
        Some(JsonModel::Array(items)) => items,
        _ => Seq::empty(),
    }
}

/// The declarations among overlay entries: each entry that names a directory,
/// with that directory, in order.
pub open spec fn entry_declarations(items: Seq<JsonModel>) -> Seq<(Seq<char>, JsonModel)>
    decreases items.len(),
{
    if items.len() == 0 {
        Seq::empty()
    } else {
        let init = entry_declarations(items.drop_last());
        match entry_directory(items.last()) {
            Some(d) => init.push((d, items.last())),
            None => init,
        }
    }
}

/// The declarations of a list of overlays blocks, block after block.
pub open spec fn declarations(blocks: Seq<JsonModel>) -> Seq<(Seq<char>, JsonModel)>
    decreases blocks.len(),
{
    if blocks.len() == 0 {
        Seq::empty()
    } else {
        declarations(blocks.drop_last()) + entry_declarations(block_entries(blocks.last()))
    }
}

/// Each directory mapped to the entry of its last declaration.
pub open spec fn overlay_map(decls: Seq<(Seq<char>, JsonModel)>) -> Map<Seq<char>, JsonModel>
    decreases decls.len(),
{
    if decls.len() == 0 {
        Map::empty()
    } else {
        overlay_map(decls.drop_last()).insert(decls.last().0, decls.last().1)
    }
}

/// The merged overlays block: the entries of `m` in ascending directory order.
pub open spec fn merged_block(m: Map<Seq<char>, JsonModel>, dirs: Seq<Seq<char>>) -> JsonModel {
    JsonModel::Object(
        Map::empty().insert(
            "entries"@,
            JsonModel::Array(dirs.map_values(|d: Seq<char>| m[d])),
        ),
    )
}

/// A directory declared more than once keeps the entry of its last declaration,
/// that is, of the latest input that declares it.
pub proof fn later_overlay_declaration_wins(decls: Seq<(Seq<char>, JsonModel)>, i: int)
    requires
        0 <= i < decls.len(),
        forall|j: int| i < j < decls.len() ==> decls[j].0 != decls[i].0,
    ensures
        overlay_map(decls).contains_key(decls[i].0),
        overlay_map(decls)[decls[i].0] == decls[i].1,
    decreases decls.len(),
{
    if i < decls.len() - 1 {
        let init = decls.drop_last();
        assert forall|j: int| i < j < init.len() implies init[j].0 != init[i].0 by {
            assert(init[j] == decls[j]);
        }
        later_overlay_declaration_wins(init, i);
        assert(init[i] == decls[i]);
    }
}

/// Each declaration names the directory of its own entry.
proof fn lemma_declarations_name_their_entry(blocks: Seq<JsonModel>)
    ensures
        forall|k: int|
            0 <= k < declarations(blocks).len() ==> entry_directory(
                (#[trigger] declarations(blocks)[k]).1,
            ) == Some(declarations(blocks)[k].0),
    decreases blocks.len(),
{
    if blocks.len() > 0 {
        lemma_declarations_name_their_entry(blocks.drop_last());
        lemma_entry_declarations_name_their_entry(block_entries(blocks.last()));
        let a = declarations(blocks.drop_last());
        let b = entry_declarations(block_entries(blocks.last()));
        assert forall|k: int| 0 <= k < (a + b).len() implies entry_directory(
            (#[trigger] (a + b)[k]).1,
        ) == Some((a + b)[k].0) by {
            if k < a.len() {
                assert((a + b)[k] == a[k]);
            } else {
                assert((a + b)[k] == b[k - a.len()]);
            }
        }
    }
}

proof fn lemma_entry_declarations_name_their_entry(items: Seq<JsonModel>)
    ensures
        forall|k: int|
            0 <= k < entry_declarations(items).len() ==> entry_directory(
                (#[trigger] entry_declarations(items)[k]).1,
            ) == Some(entry_declarations(items)[k].0),
    decreases items.len(),
{
    if items.len() > 0 {
        lemma_entry_declarations_name_their_entry(items.drop_last());
    }
}

/// The map of declarations has finitely many directories, each the directory of its
/// own entry.
proof fn lemma_overlay_map_shape(decls: Seq<(Seq<char>, JsonModel)>)
    requires
        forall|k: int| 0 <= k < decls.len() ==> entry_directory((#[trigger] decls[k]).1) == Some(decls[k].0),
    ensures
        overlay_map(decls).dom().finite(),
        forall|d: Seq<char>| #[trigger] overlay_map(decls).contains_key(d) ==> entry_directory(
            overlay_map(decls)[d],
        ) == Some(d),
    decreases decls.len(),
{
    if decls.len() > 0 {
        let init = decls.drop_last();
        assert forall|k: int| 0 <= k < init.len() implies entry_directory((#[trigger] init[k]).1) == Some(init[k].0) by {
            assert(init[k] == decls[k]);
        }
        lemma_overlay_map_shape(init);
        assert(entry_directory(decls[decls.len() - 1].1) == Some(decls[decls.len() - 1].0));
    }
}

/// In the merged overlays block each declared directory has exactly one entry: the
/// entry of its last declaration, that of the latest input declaring it.
pub proof fn merged_block_has_one_entry_per_directory(blocks: Seq<JsonModel>, d: Seq<char>)
    requires
        overlay_map(declarations(blocks)).contains_key(d),
    ensures
        ({
            let m = overlay_map(declarations(blocks));
            let entries = ordered_paths(m.dom()).map_values(|k: Seq<char>| m[k]);
            &&& merged_block(m, ordered_paths(m.dom())) == JsonModel::Object(
                Map::empty().insert("entries"@, JsonModel::Array(entries)),
            )
            &&& exists|k: int| 0 <= k < entries.len() && entries[k] == m[d]
            &&& forall|k: int|
                0 <= k < entries.len() && entry_directory(#[trigger] entries[k]) == Some(d)
                    ==> entries[k] == m[d]
            &&& forall|k1: int, k2: int|
                0 <= k1 < k2 < entries.len() ==> entry_directory(#[trigger] entries[k1])
                    != entry_directory(#[trigger] entries[k2])
        }),
{
    let decls = declarations(blocks);
    let m = overlay_map(decls);
    lemma_declarations_name_their_entry(blocks);
    lemma_overlay_map_shape(decls);
    crate::order::lemma_ordered_paths_exist(m.dom());
    let ks = ordered_paths(m.dom());
    let entries = ks.map_values(|k: Seq<char>| m[k]);
    assert(ks.to_set().contains(d));
    let j = choose|j: int| 0 <= j < ks.len() && ks[j] == d;
    assert(entries[j] == m[d]);
    assert forall|k: int| 0 <= k < entries.len() implies entry_directory(#[trigger] entries[k]) == Some(
        ks[k],
    ) by {
        assert(ks.to_set().contains(ks[k]));
    }
    assert forall|k1: int, k2: int| 0 <= k1 < k2 < entries.len() implies entry_directory(
        #[trigger] entries[k1],
    ) != entry_directory(#[trigger] entries[k2]) by {
        assert(crate::table::path_lt(ks[k1], ks[k2]));
    }
}

/// What the entries held in a map of values say, as models.
pub open spec fn held(m: Map<Seq<char>, Value>) -> Map<Seq<char>, JsonModel> {
    m.map_values(|v: Value| json_of(v))
}

/// One more declaration updates the map under its directory.
proof fn lemma_overlay_map_push(decls: Seq<(Seq<char>, JsonModel)>, d: (Seq<char>, JsonModel))
    ensures
        overlay_map(decls.push(d)) == overlay_map(decls).insert(d.0, d.1),
{
    assert(decls.push(d).drop_last() =~= decls);
}

/// Merges the overlays blocks of all inputs, in input order. Entries are keyed by
/// their `directory`; a later declaration of a directory replaces an earlier one.
/// The result lists the entries in ascending directory order, and is `None` when no
/// entry names a directory.
pub fn merge_overlays(blocks: &Vec<Value>) -> (r: Option<Value>)
    ensures
        ({
            let m = overlay_map(declarations(models(blocks@)));
            &&& r is None <==> m.dom() == Set::<Seq<char>>::empty()
            &&& r matches Some(v) ==> json_of(v) == merged_block(m, ordered_paths(m.dom()))
            &&& r is Some ==> strictly_ascending(ordered_paths(m.dom()))
        }),
{
    let mut entries: StringHashMap<Value> = StringHashMap::new();
    let mut dirs: Vec<String> = Vec::new();
    let ghost bs = models(blocks@);
    assert(string_views(dirs@) =~= Seq::<Seq<char>>::empty());
    assert(string_views(dirs@).to_set() =~= entries@.dom());
    assert(held(entries@) =~= overlay_map(declarations(bs.take(0))));
    let mut i: usize = 0;
    while i < blocks.len()
        invariant
            i <= blocks@.len(),
            bs == models(blocks@),
            string_views(dirs@).no_duplicates(),
            string_views(dirs@).to_set() == entries@.dom(),
            held(entries@) == overlay_map(declarations(bs.take(i as int))),
        decreases blocks@.len() - i,
    {
        let ghost before = declarations(bs.take(i as int));
        let ghost items = block_entries(bs[i as int]);
        assert(bs.take(i as int + 1).drop_last() == bs.take(i as int));
        let block_items: Option<&Vec<Value>> = match json_get(&blocks[i], "entries") {
            Some(e) => json_as_array(e),
            None => None,
        };
        match block_items {
            Some(arr) => {
                assert(models(arr@) == items);
                let mut j: usize = 0;
                while j < arr.len()
                    invariant
                        j <= arr@.len(),
                        models(arr@) == items,
                        string_views(dirs@).no_duplicates(),
                        string_views(dirs@).to_set() == entries@.dom(),
                        held(entries@) == overlay_map(before + entry_declarations(items.take(j as int))),
                    decreases arr@.len() - j,
                {
                    let e = &arr[j];
                    let ghost em = json_of(*e);
                    assert(items[j as int] == em);
                    assert(items.take(j as int + 1).drop_last() == items.take(j as int));
                    let dir: Option<&str> = match json_get(e, "directory") {
                        Some(d) => json_as_str(d),
                        None => None,
                    };
                    match dir {
                        Some(d) => {
                            let key = String::from_str(d);
                            let ghost decl = (key@, em);
                            assert(entry_directory(em) == Some(key@));
                            assert(before + entry_declarations(items.take(j as int + 1)) =~= (before
                                + entry_declarations(items.take(j as int))).push(decl));
                            proof {
                                lemma_overlay_map_push(before + entry_declarations(items.take(j as int)), decl);
                            }
                            let v = json_clone(e);
                            let ghost old_entries = entries@;
                            if !entries.contains_key(key.as_str()) {
                                let ghost sv = string_views(dirs@);
                                dirs.push(key.clone());
                                proof {
                                    assert(string_views(dirs@) =~= sv.push(key@));
                                    lemma_push_new_path(sv, key@);
                                }
                            }
                            entries.insert(key, v);
                            assert(held(entries@) =~= held(old_entries).insert(decl.0, decl.1));
                            assert(entries@.dom() =~= old_entries.dom().insert(decl.0));
                        },
                        None => {
                            assert(entry_directory(em) is None);
                            assert(entry_declarations(items.take(j as int + 1)) == entry_declarations(items.take(j as int)));
                        },
                    }
                    j = j + 1;
                }
                assert(items.take(arr@.len() as int) == items);
            },
            None => {
                assert(items == Seq::<JsonModel>::empty());
                assert(entry_declarations(items) == Seq::<(Seq<char>, JsonModel)>::empty());
                assert(before + entry_declarations(items) =~= before);
            },
        }
        assert(declarations(bs.take(i as int + 1)) == before + entry_declarations(items));
        i = i + 1;
    }
    assert(bs.take(blocks@.len() as int) == bs);
    let ghost m = held(entries@);
    if dirs.len() == 0 {
        assert(string_views(dirs@).to_set() =~= Set::<Seq<char>>::empty());
        assert(m.dom() =~= Set::<Seq<char>>::empty());
        return None;
    }
    let copy = dirs.clone();
    assert(string_views(copy@) =~= string_views(dirs@));
    let sorted = sorted_unique(copy);
    let mut out: Vec<Value> = Vec::new();
    let mut k: usize = 0;
    while k < sorted.len()
        invariant
            k <= sorted@.len(),
            m == held(entries@),
            string_views(sorted@).to_set() == entries@.dom(),
            models(out@) == string_views(sorted@).take(k as int).map_values(|d: Seq<char>| m[d]),
        decreases sorted@.len() - k,
    {
        assert(string_views(sorted@)[k as int] == sorted@[k as int]@);
        assert(string_views(sorted@).to_set().contains(sorted@[k as int]@));
        match entries.get(sorted[k].as_str()) {
            Some(v) => {
                let ghost before = out@;
                let x = json_clone(v);
                out.push(x);
                proof {
                    assert(json_of(x) == m[sorted@[k as int]@]);
                    assert(models(out@) =~= models(before).push(json_of(x)));
                    assert(string_views(sorted@).take(k as int + 1) =~= string_views(sorted@).take(
                        k as int,
                    ).push(sorted@[k as int]@));
                    assert(models(out@) =~= string_views(sorted@).take(k as int + 1).map_values(
                        |d: Seq<char>| m[d],
                    ));
                }
            },
            None => {
                assert(false);
            },
        }
        k = k + 1;
    }
    assert(string_views(sorted@).take(sorted@.len() as int) == string_views(sorted@));
    let mut block = json_object();
    json_insert(&mut block, String::from_str("entries"), json_array(out));
    assert(m.dom() == entries@.dom());
    assert(json_of(block) == merged_block(m, string_views(sorted@)));
    assert(string_views(dirs@)[0] == dirs@[0]@);
    assert(m.dom().contains(dirs@[0]@));
    proof {
        lemma_ordered_paths(string_views(sorted@));
    }
    Some(block)
}

} // verus!

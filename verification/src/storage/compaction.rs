//! Merging the entries of several tables.

use vstd::prelude::*;

use crate::storage::entry::{is_newest, picks_newest, slot_less, slot_picked, view_entries};
use crate::storage::entry::pick_newest;
use crate::storage::key::{key_less, LsmKey, LsmValue, Slot};
use crate::storage::layers::{is_merged, is_newest_of, keys_of, newest_entry};
use crate::storage::layers::lemma_newest_unique;

verus! {

/// Keeps of each slot the newest entry, and nothing of a slot whose newest entry is a deletion.
/// The entries come out in ascending order.
pub fn merge_entries(all: &Vec<(LsmKey, LsmValue)>) -> (out: Vec<(LsmKey, LsmValue)>)
    ensures
        is_merged(view_entries(out@), view_entries(all@)),
        out@.len() <= all@.len(),
{
    let ghost es = view_entries(all@);
    let mut keys: Vec<LsmKey> = Vec::new();
    let mut i: usize = 0;
    while i < all.len()
        invariant
            i <= all@.len(),
            keys@.len() == i,
            forall|j: int| 0 <= j < i ==> (#[trigger] keys@[j]) == all@[j].0,
        decreases all@.len() - i,
    {
        keys.push(all[i].0);
        i = i + 1;
    }
    assert(keys@ =~= keys_of(es));
    let picked = pick_newest(&keys);
    proof {
        lemma_picked_len(keys@, picked@);
    }
    let mut out: Vec<(LsmKey, LsmValue)> = Vec::new();
    let mut x: usize = 0;
    while x < picked.len()
        invariant
            x <= picked@.len(),
            es == view_entries(all@),
            keys@ == keys_of(es),
            picks_newest(keys@, picked@),
            out@.len() <= x,
            forall|y: int|
                0 <= y < out@.len() ==> newest_entry(es, (#[trigger] view_entries(out@)[y]).0.spec_slot()) == Some(
                    view_entries(out@)[y],
                ) && view_entries(out@)[y].1 is Some,
            forall|y: int, z: int|
                0 <= y < z < out@.len() ==> slot_less(
                    (#[trigger] view_entries(out@)[y]).0.spec_slot(),
                    (#[trigger] view_entries(out@)[z]).0.spec_slot(),
                ),
            forall|y: int, z: int|
                0 <= y < out@.len() && x <= z < picked@.len() ==> slot_less(
                    (#[trigger] view_entries(out@)[y]).0.spec_slot(),
                    keys@[#[trigger] picked@[z] as int].spec_slot(),
                ),
            forall|z: int|
                0 <= z < x && es[#[trigger] picked@[z] as int].1 is Some ==> view_entries(out@).contains(
                    es[picked@[z] as int],
                ),
        decreases picked@.len() - x,
    {
        let at: usize = picked[x];
        let ghost before = out@;
        proof {
            assert(is_newest(keys@, at as int));
            assert(is_newest_of(es, es[at as int].0.spec_slot(), at as int));
            lemma_newest_unique(es, es[at as int].0.spec_slot(), at as int);
        }
        if !all[at].1.is_tombstone() {
            let k = all[at].0;
            let v = all[at].1.clone();
            out.push((k, v));
            proof {
                assert(es[at as int] == (k, v@));
                assert(view_entries(out@) =~= view_entries(before).push((k, v@)));
                assert(view_entries(out@)[before.len() as int] == (k, v@));
            }
        }
        proof {
            assert forall|z: int| 0 <= z < x + 1 && es[#[trigger] picked@[z] as int].1 is Some implies view_entries(
                out@,
            ).contains(es[picked@[z] as int]) by {
                if z < x {
                    let m = es[picked@[z] as int];
                    let y = choose|y: int| 0 <= y < view_entries(before).len() && view_entries(before)[y] == m;
                    assert(view_entries(out@)[y] == m);
                } else {
                    assert(view_entries(out@)[before.len() as int] == es[at as int]);
                }
            }
        }
        x = x + 1;
    }
    proof {
        let result = view_entries(out@);
        assert forall|slot: Slot|
            (#[trigger] newest_entry(es, slot)) is Some && (newest_entry(es, slot)->0).1
                is Some implies result.contains(newest_entry(es, slot)->0) by {
            let i = choose|i: int| is_newest_of(es, slot, i);
            assert(keys@[i].spec_slot() == slot);
            assert(slot_picked(keys@, picked@, slot));
            let z = choose|z: int|
                0 <= z < picked@.len() && keys@[#[trigger] picked@[z] as int].spec_slot() == slot;
            let at = picked@[z] as int;
            assert(is_newest_of(es, slot, at));
            lemma_newest_unique(es, slot, at);
        }
        assert forall|y: int, z: int| 0 <= y < z < result.len() implies key_less(
            (#[trigger] result[y]).0,
            (#[trigger] result[z]).0,
        ) by {
            assert(slot_less(result[y].0.spec_slot(), result[z].0.spec_slot()));
        }
        assert forall|y: int, z: int| 0 <= y < z < result.len() implies (#[trigger] result[y]).0.spec_slot() != (
        #[trigger] result[z]).0.spec_slot() by {
            assert(slot_less(result[y].0.spec_slot(), result[z].0.spec_slot()));
        }
    }
    out
}

/// No more positions are picked than there are keys.
proof fn lemma_picked_len(keys: Seq<LsmKey>, picked: Seq<usize>)
    requires
        picks_newest(keys, picked),
    ensures
        picked.len() <= keys.len(),
{
    let all = Seq::new(picked.len(), |x: int| picked[x] as int);
    assert(all.no_duplicates()) by {
        assert forall|x: int, y: int| 0 <= x < all.len() && 0 <= y < all.len() && x != y implies all[x] != all[y] by {
            if x < y {
                assert(slot_less(keys[picked[x] as int].spec_slot(), keys[picked[y] as int].spec_slot()));
            } else {
                assert(slot_less(keys[picked[y] as int].spec_slot(), keys[picked[x] as int].spec_slot()));
            }
        }
    }
    all.unique_seq_to_set();
    let bound = vstd::set_lib::set_int_range(0, keys.len() as int);
    vstd::set_lib::lemma_int_range(0, keys.len() as int);
    assert(all.to_set().subset_of(bound)) by {
        assert forall|i: int| all.to_set().contains(i) implies bound.contains(i) by {
            let x = choose|x: int| 0 <= x < all.len() && all[x] == i;
            assert(picked[x] < keys.len());
        }
    }
    vstd::set_lib::lemma_len_subset(all.to_set(), bound);
}

} // verus!

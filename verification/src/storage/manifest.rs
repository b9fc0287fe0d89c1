//! The manifest of an index: its identity, its sorted tables and its log.

use vstd::prelude::*;

use crate::storage::key::key_bytes;
use crate::storage::sstable::SSTable;

verus! {

/// What the manifest says of a sorted table.
#[derive(Debug)]
pub struct SSTableMeta {
    pub id: u32,
    pub path: String,
    pub entry_count: u32,
    pub min_key_bytes: [u8; 21],
    pub max_key_bytes: [u8; 21],
}

impl Clone for SSTableMeta {
    fn clone(&self) -> (m: Self)
        ensures
            m == *self,
    {
        SSTableMeta {
            id: self.id,
            path: self.path.clone(),
            entry_count: self.entry_count,
            min_key_bytes: self.min_key_bytes,
            max_key_bytes: self.max_key_bytes,
        }
    }
}

/// What a manifest says of the given table.
pub open spec fn describes(m: SSTableMeta, t: SSTable) -> bool {
    &&& m.id == t.id
    &&& m.path == t.path
    &&& m.entry_count == t.entry_count
    &&& m.min_key_bytes@ == key_bytes(t.min_key)
    &&& m.max_key_bytes@ == key_bytes(t.max_key)
}

impl SSTableMeta {
    /// What a manifest says of a table.
    pub fn of(t: &SSTable) -> (m: Self)
        ensures
            describes(m, *t),
    {
        SSTableMeta {
            id: t.id,
            path: t.path.clone(),
            entry_count: t.entry_count,
            min_key_bytes: t.min_key.encode(),
            max_key_bytes: t.max_key.encode(),
        }
    }
}

/// The manifest of an index.
#[derive(Debug)]
pub struct Manifest {
    pub index_id: u64,
    pub index_name: String,
    pub sstables: Vec<SSTableMeta>,
    pub wal_path: String,
    pub last_checkpoint_lsn: u64,
    pub created_at: u64,
    pub updated_at: u64,
}

/// The tables whose id is not among `ids`, in their order.
pub open spec fn without_ids(tables: Seq<SSTableMeta>, ids: Seq<u32>) -> Seq<SSTableMeta>
    decreases tables.len(),
{
    if tables.len() == 0 {
        Seq::empty()
    } else {
        let rest = without_ids(tables.drop_last(), ids);
        if ids.contains(tables.last().id) {
            rest
        } else {
            rest.push(tables.last())
        }
    }
}

/// The table stands for a file or has entries.
pub open spec fn is_real_table(m: SSTableMeta) -> bool {
    m.entry_count > 0 || m.path@.len() > 0
}

/// The tables that stand for a file or have entries, in their order.
pub open spec fn real_tables(tables: Seq<SSTableMeta>) -> Seq<SSTableMeta>
    decreases tables.len(),
{
    if tables.len() == 0 {
        Seq::empty()
    } else {
        let rest = real_tables(tables.drop_last());
        if is_real_table(tables.last()) {
            rest.push(tables.last())
        } else {
            rest
        }
    }
}

/// The greatest id of a table; 0 if there is none.
pub open spec fn max_table_id(tables: Seq<SSTableMeta>) -> u32
    decreases tables.len(),
{
    if tables.len() == 0 {
        0
    } else if tables.last().id > max_table_id(tables.drop_last()) {
        tables.last().id
    } else {
        max_table_id(tables.drop_last())
    }
}

/// Whether a number is in a list.
fn contains_id(ids: &Vec<u32>, id: u32) -> (r: bool)
    ensures
        r == ids@.contains(id),
{
    let mut i: usize = 0;
    while i < ids.len()
        invariant
            i <= ids@.len(),
            forall|j: int| 0 <= j < i ==> ids@[j] != id,
        decreases ids@.len() - i,
    {
        if ids[i] == id {
            assert(ids@[i as int] == id);
            return true;
        }
        i = i + 1;
    }
    false
}

impl Manifest {
    /// A manifest without tables, made at the given time.
    pub fn new(index_id: u64, index_name: String, wal_path: String, now: u64) -> (m: Self)
        ensures
            m.index_id == index_id,
            m.index_name == index_name,
            m.sstables@.len() == 0,
            m.wal_path == wal_path,
            m.last_checkpoint_lsn == 0,
            m.created_at == now,
            m.updated_at == now,
    {
        Manifest {
            index_id,
            index_name,
            sstables: Vec::new(),
            wal_path,
            last_checkpoint_lsn: 0,
            created_at: now,
            updated_at: now,
        }
    }

    /// Adds a table.
    pub fn add_sstable(&mut self, meta: SSTableMeta, now: u64)
        ensures
            final(self).sstables@ == old(self).sstables@.push(meta),
            final(self).updated_at == now,
            final(self).same_but_tables(*old(self)),
    {
        self.sstables.push(meta);
        self.updated_at = now;
    }

    /// Takes out the tables whose ids are given, and adds another one. Ids that do not occur
    /// are passed over.
    pub fn replace_sstables(&mut self, ids: Vec<u32>, meta: SSTableMeta, now: u64)
        ensures
            final(self).sstables@ == without_ids(old(self).sstables@, ids@).push(meta),
            final(self).updated_at == now,
            final(self).same_but_tables(*old(self)),
    {
        let ghost tables = self.sstables@;
        let mut kept: Vec<SSTableMeta> = Vec::new();
        let mut i: usize = 0;
        assert(tables.take(0) =~= Seq::<SSTableMeta>::empty());
        while i < self.sstables.len()
            invariant
                i <= self.sstables@.len(),
                *self == *old(self),
                tables == self.sstables@,
                kept@ == without_ids(tables.take(i as int), ids@),
            decreases self.sstables@.len() - i,
        {
            proof {
                assert(tables.take(i + 1).drop_last() =~= tables.take(i as int));
                assert(tables.take(i + 1).last() == tables[i as int]);
            }
            if !contains_id(&ids, self.sstables[i].id) {
                kept.push(self.sstables[i].clone());
            }
            i = i + 1;
        }
        assert(tables.take(i as int) =~= tables);
        kept.push(meta);
        self.sstables = kept;
        self.updated_at = now;
    }

    /// Takes out the tables that neither stand for a file nor have entries.
    pub fn drop_placeholders(&mut self)
        ensures
            final(self).sstables@ == real_tables(old(self).sstables@),
            final(self).updated_at == old(self).updated_at,
            final(self).same_but_tables(*old(self)),
    {
        let ghost tables = self.sstables@;
        let mut kept: Vec<SSTableMeta> = Vec::new();
        let mut i: usize = 0;
        assert(tables.take(0) =~= Seq::<SSTableMeta>::empty());
        while i < self.sstables.len()
            invariant
                i <= self.sstables@.len(),
                *self == *old(self),
                tables == self.sstables@,
                kept@ == real_tables(tables.take(i as int)),
            decreases self.sstables@.len() - i,
        {
            proof {
                assert(tables.take(i + 1).drop_last() =~= tables.take(i as int));
                assert(tables.take(i + 1).last() == tables[i as int]);
            }
            let has_path: bool = self.sstables[i].path.as_str().unicode_len() > 0;
            if self.sstables[i].entry_count > 0 || has_path {
                kept.push(self.sstables[i].clone());
            }
            i = i + 1;
        }
        assert(tables.take(i as int) =~= tables);
        self.sstables = kept;
    }

    /// The greatest id of a table; 0 if there is none.
    pub fn max_sstable_id(&self) -> (id: u32)
        ensures
            id == max_table_id(self.sstables@),
            forall|k: int| 0 <= k < self.sstables@.len() ==> (#[trigger] self.sstables@[k]).id <= id,
            id > 0 ==> exists|k: int| 0 <= k < self.sstables@.len() && (#[trigger] self.sstables@[k]).id == id,
    {
        let ghost tables = self.sstables@;
        let mut max: u32 = 0;
        let mut i: usize = 0;
        assert(tables.take(0) =~= Seq::<SSTableMeta>::empty());
        while i < self.sstables.len()
            invariant
                i <= self.sstables@.len(),
                tables == self.sstables@,
                max == max_table_id(tables.take(i as int)),
            decreases self.sstables@.len() - i,
        {
            proof {
                assert(tables.take(i + 1).drop_last() =~= tables.take(i as int));
                assert(tables.take(i + 1).last() == tables[i as int]);
            }
            if self.sstables[i].id > max {
                max = self.sstables[i].id;
            }
            i = i + 1;
        }
        assert(tables.take(i as int) =~= tables);
        proof {
            law_greatest_table_id(tables);
        }
        max
    }

    /// Nothing but the tables and the time of the last change differs.
    pub open spec fn same_but_tables(self, other: Manifest) -> bool {
        &&& self.index_id == other.index_id
        &&& self.index_name == other.index_name
        &&& self.wal_path == other.wal_path
        &&& self.last_checkpoint_lsn == other.last_checkpoint_lsn
        &&& self.created_at == other.created_at
    }
}

/// After a replacement none of the replaced ids is left, unless the new table has it.
pub proof fn law_replaced_ids_are_gone(tables: Seq<SSTableMeta>, ids: Seq<u32>)
    ensures
        forall|i: int| 0 <= i < without_ids(tables, ids).len() ==> !ids.contains((#[trigger] without_ids(tables, ids)[i]).id),
        forall|i: int|
            0 <= i < tables.len() && !ids.contains((#[trigger] tables[i]).id) ==> without_ids(tables, ids).contains(
                tables[i],
            ),
    decreases tables.len(),
{
    if tables.len() > 0 {
        let init = tables.drop_last();
        law_replaced_ids_are_gone(init, ids);
        let rest = without_ids(init, ids);
        let all = without_ids(tables, ids);
        assert forall|i: int| 0 <= i < tables.len() && !ids.contains((#[trigger] tables[i]).id) implies all.contains(
            tables[i],
        ) by {
            if i < init.len() {
                assert(init[i] == tables[i]);
                assert(rest.contains(init[i]));
                let k = choose|k: int| 0 <= k < rest.len() && rest[k] == init[i];
                assert(all[k] == tables[i]);
            } else {
                assert(all[all.len() - 1] == tables[i]);
            }
        }
    }
}

/// No table has an id above the greatest one, and some table has that id, unless there are no
/// tables and it is 0: the number behind it is the id of no table.
pub proof fn law_greatest_table_id(tables: Seq<SSTableMeta>)
    ensures
        forall|i: int| 0 <= i < tables.len() ==> (#[trigger] tables[i]).id <= max_table_id(tables),
        forall|i: int| 0 <= i < tables.len() ==> (#[trigger] tables[i]).id != max_table_id(tables) + 1,
        tables.len() > 0 ==> exists|i: int| 0 <= i < tables.len() && (#[trigger] tables[i]).id == max_table_id(tables),
        tables.len() == 0 ==> max_table_id(tables) == 0,
    decreases tables.len(),
{
    if tables.len() > 0 {
        let init = tables.drop_last();
        law_greatest_table_id(init);
        assert forall|i: int| 0 <= i < tables.len() implies (#[trigger] tables[i]).id <= max_table_id(tables) by {
            if i < init.len() {
                assert(init[i] == tables[i]);
            }
        }
        let n = tables.len() - 1;
        if max_table_id(tables) == tables[n].id {
            assert(tables[n].id == max_table_id(tables));
        } else {
            let i = choose|i: int| 0 <= i < init.len() && (#[trigger] init[i]).id == max_table_id(init);
            assert(tables[i].id == max_table_id(tables));
        }
    }
}

/// Dropping placeholders keeps every table that stands for a file or has entries, keeps no other
/// one, and keeps the order. Doing it again changes nothing.
pub proof fn law_placeholders_are_dropped(tables: Seq<SSTableMeta>)
    ensures
        forall|i: int|
            0 <= i < tables.len() ==> (real_tables(tables).contains(#[trigger] tables[i]) <==> tables[i].entry_count
                > 0 || tables[i].path@.len() > 0),
        keeps_order(real_tables(tables), tables),
        real_tables(real_tables(tables)) == real_tables(tables),
{
    lemma_real_tables(tables);
    lemma_all_real(real_tables(tables));
    let out = real_tables(tables);
    assert forall|i: int| 0 <= i < tables.len() implies (out.contains(#[trigger] tables[i]) <==> tables[i].entry_count
        > 0 || tables[i].path@.len() > 0) by {
        if out.contains(tables[i]) {
            let k = choose|k: int| 0 <= k < out.len() && out[k] == tables[i];
            assert(is_real_table(out[k]));
        }
    }
}

/// What replacing leaves of the tables is in their order.
pub proof fn law_replacing_keeps_order(tables: Seq<SSTableMeta>, ids: Seq<u32>)
    ensures
        keeps_order(without_ids(tables, ids), tables),
    decreases tables.len(),
{
    if tables.len() > 0 {
        let init = tables.drop_last();
        law_replacing_keeps_order(init, ids);
        let last = tables.last();
        assert(init.push(last) =~= tables);
        lemma_order_kept(without_ids(init, ids), init, last);
    } else {
        assert(is_place_of(Seq::empty(), without_ids(tables, ids), tables));
    }
}

/// `places` tells where each table of the one list stands in the other one, further on for later
/// tables.
pub open spec fn is_place_of(places: Seq<int>, kept: Seq<SSTableMeta>, tables: Seq<SSTableMeta>) -> bool {
    &&& places.len() == kept.len()
    &&& forall|k: int|
        0 <= k < kept.len() ==> 0 <= (#[trigger] places[k]) < tables.len() && kept[k] == tables[places[k]]
    &&& forall|a: int, b: int| 0 <= a < b < kept.len() ==> (#[trigger] places[a]) < (#[trigger] places[b])
}

/// The tables are some of the others, in their order.
pub open spec fn keeps_order(kept: Seq<SSTableMeta>, tables: Seq<SSTableMeta>) -> bool {
    exists|places: Seq<int>| is_place_of(places, kept, tables)
}

proof fn lemma_order_kept(kept: Seq<SSTableMeta>, tables: Seq<SSTableMeta>, last: SSTableMeta)
    requires
        keeps_order(kept, tables),
    ensures
        keeps_order(kept, tables.push(last)),
        keeps_order(kept.push(last), tables.push(last)),
{
    let places = choose|places: Seq<int>| is_place_of(places, kept, tables);
    assert(is_place_of(places, kept, tables.push(last)));
    let more = places.push(tables.len() as int);
    assert forall|k: int| 0 <= k < kept.len() + 1 implies 0 <= (#[trigger] more[k]) < tables.len() + 1
        && kept.push(last)[k] == tables.push(last)[more[k]] by {
        if k < kept.len() {
            assert(more[k] == places[k]);
        }
    }
    assert forall|a: int, b: int| 0 <= a < b < kept.len() + 1 implies (#[trigger] more[a]) < (#[trigger] more[b]) by {
        assert(more[a] == places[a]);
        if b < kept.len() {
            assert(more[b] == places[b]);
        }
    }
    assert(is_place_of(more, kept.push(last), tables.push(last)));
}

proof fn lemma_real_tables(tables: Seq<SSTableMeta>)
    ensures
        forall|k: int| 0 <= k < real_tables(tables).len() ==> is_real_table(#[trigger] real_tables(tables)[k]),
        forall|i: int|
            0 <= i < tables.len() && is_real_table(#[trigger] tables[i]) ==> real_tables(tables).contains(tables[i]),
        keeps_order(real_tables(tables), tables),
    decreases tables.len(),
{
    let out = real_tables(tables);
    if tables.len() > 0 {
        let init = tables.drop_last();
        lemma_real_tables(init);
        let rest = real_tables(init);
        assert forall|i: int| 0 <= i < tables.len() && is_real_table(#[trigger] tables[i]) implies out.contains(
            tables[i],
        ) by {
            if i < init.len() {
                assert(rest.contains(init[i]));
                let k = choose|k: int| 0 <= k < rest.len() && rest[k] == init[i];
                assert(out[k] == tables[i]);
            } else {
                assert(out[out.len() - 1] == tables[i]);
            }
        }
        assert(init.push(tables.last()) =~= tables);
        lemma_order_kept(rest, init, tables.last());
    } else {
        assert(is_place_of(Seq::empty(), out, tables));
    }
}

proof fn lemma_all_real(tables: Seq<SSTableMeta>)
    requires
        forall|k: int| 0 <= k < tables.len() ==> is_real_table(#[trigger] tables[k]),
    ensures
        real_tables(tables) == tables,
    decreases tables.len(),
{
    if tables.len() > 0 {
        let init = tables.drop_last();
        assert forall|k: int| 0 <= k < init.len() implies is_real_table(#[trigger] init[k]) by {
            assert(init[k] == tables[k]);
        }
        lemma_all_real(init);
        assert(is_real_table(tables[tables.len() - 1]));
        assert(init.push(tables.last()) =~= tables);
    }
}

} // verus!

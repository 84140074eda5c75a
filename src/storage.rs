use vstd::prelude::*;
use crate::codec::{decoded, value_bytes};
use crate::id::IdGenerator;
use crate::value::lookup;

verus! {

/// A failure reported by a table.
#[derive(Debug, PartialEq, Eq)]
pub enum StorageError {
    /// An append was asked for with a key that is not above every key present.
    KeyNotAppended,
}

/// A secondary index declared at schema setup: its name, and the property whose
/// value keys it.
#[derive(Debug, PartialEq, Eq)]
pub struct IndexDecl {
    pub name: String,
    pub property: String,
}

pub type EntryView = (usize, Seq<u8>, u128);

/// The node table: ids in strictly increasing order, each with its encoded node.
/// The secondary-index tables share one log of entries `(table, key, node id)`; a
/// later entry for a key overrides an earlier one.
pub struct GraphStorage {
    pub nodes: Vec<(u128, Vec<u8>)>,
    pub indices: Vec<IndexDecl>,
    pub index_entries: Vec<(usize, Vec<u8>, u128)>,
    pub ids: IdGenerator,
}

pub open spec fn nodes_view(ns: Seq<(u128, Vec<u8>)>) -> Seq<(u128, Seq<u8>)> {
    ns.map_values(|e: (u128, Vec<u8>)| (e.0, e.1@))
}

pub open spec fn entries_view(es: Seq<(usize, Vec<u8>, u128)>) -> Seq<EntryView> {
    es.map_values(|e: (usize, Vec<u8>, u128)| (e.0, e.1@, e.2))
}

pub open spec fn decls_view(ds: Seq<IndexDecl>) -> Seq<(Seq<char>, Seq<char>)> {
    ds.map_values(|d: IndexDecl| (d.name@, d.property@))
}

/// The node table as a map from id to encoded node.
pub open spec fn table_map(ns: Seq<(u128, Seq<u8>)>) -> Map<u128, Seq<u8>>
    decreases ns.len(),
{
    if ns.len() == 0 {
        Map::empty()
    } else {
        table_map(ns.drop_last()).insert(ns.last().0, ns.last().1)
    }
}

/// Index table `t` as a map from key to node id.
pub open spec fn index_map(es: Seq<EntryView>, t: usize) -> Map<Seq<u8>, u128>
    decreases es.len(),
{
    if es.len() == 0 {
        Map::empty()
    } else if es.last().0 == t {
        index_map(es.drop_last(), t).insert(es.last().1, es.last().2)
    } else {
        index_map(es.drop_last(), t)
    }
}

/// The table declared under `name` (the last one, should a name repeat).
pub open spec fn find_decl(ds: Seq<(Seq<char>, Seq<char>)>, name: Seq<char>) -> Option<usize>
    decreases ds.len(),
{
    if ds.len() == 0 {
        None
    } else if ds.last().0 == name {
        Some((ds.len() - 1) as usize)
    } else {
        find_decl(ds.drop_last(), name)
    }
}

/// Index entry `e` names a stored node whose value of the index's property
/// encodes to the entry's key.
pub open spec fn entry_backed(
    ns: Seq<(u128, Seq<u8>)>,
    e: EntryView,
    decls: Seq<(Seq<char>, Seq<char>)>,
) -> bool {
    &&& table_map(ns).contains_key(e.2)
    &&& decoded(table_map(ns)[e.2]) matches Some(n)
    &&& lookup(n.properties, decls[e.0 as int].1) matches Some(v)
    &&& value_bytes(v) == e.1
}

/// Every index entry is backed by the node table.
pub open spec fn consistent(
    ns: Seq<(u128, Seq<u8>)>,
    es: Seq<EntryView>,
    decls: Seq<(Seq<char>, Seq<char>)>,
) -> bool {
    forall|j: int| 0 <= j < es.len() ==> entry_backed(ns, #[trigger] es[j], decls)
}

/// Whether an append of `id` is accepted: the table is empty or `id` is above
/// its last key.
pub open spec fn appendable(ns: Seq<(u128, Seq<u8>)>, id: u128) -> bool {
    ns.len() == 0 || ns.last().0 < id
}

fn bytes_eq(a: &Vec<u8>, b: &Vec<u8>) -> (r: bool)
    ensures
        r == (a@ == b@),
{
    if a.len() != b.len() {
        return false;
    }
    let mut i: usize = 0;
    while i < a.len()
        invariant
            i <= a@.len() == b@.len(),
            a@.subrange(0, i as int) == b@.subrange(0, i as int),
        decreases a@.len() - i,
    {
        if a[i] != b[i] {
            return false;
        }
        assert(a@.subrange(0, i + 1) =~= a@.subrange(0, i as int).push(a@[i as int]));
        assert(b@.subrange(0, i + 1) =~= b@.subrange(0, i as int).push(b@[i as int]));
        i = i + 1;
    }
    assert(a@ =~= a@.subrange(0, i as int));
    assert(b@ =~= b@.subrange(0, i as int));
    true
}

impl GraphStorage {
    pub open spec fn nodes_seq(&self) -> Seq<(u128, Seq<u8>)> {
        nodes_view(self.nodes@)
    }

    pub open spec fn entries_seq(&self) -> Seq<EntryView> {
        entries_view(self.index_entries@)
    }

    pub open spec fn decls(&self) -> Seq<(Seq<char>, Seq<char>)> {
        decls_view(self.indices@)
    }

    /// Every index entry is backed by the node table.
    pub open spec fn consistent(&self) -> bool {
        consistent(self.nodes_seq(), self.entries_seq(), self.decls())
    }

    pub open spec fn wf(&self) -> bool {
        &&& forall|i: int, j: int|
            0 <= i < j < self.nodes@.len() ==> self.nodes@[i].0 < self.nodes@[j].0
        &&& forall|i: int|
            0 <= i < self.index_entries@.len() ==> self.index_entries@[i].0 < self.indices@.len()
    }

    /// Empty tables with the given secondary indices declared.
    pub fn new(indices: Vec<IndexDecl>) -> (r: GraphStorage)
        ensures
            r.wf(),
            r.nodes@.len() == 0,
            r.index_entries@.len() == 0,
            r.decls() == decls_view(indices@),
            r.ids.last == 0,
    {
        GraphStorage {
            nodes: Vec::new(),
            indices,
            index_entries: Vec::new(),
            ids: IdGenerator::new(),
        }
    }

    /// Writes a node record with the append hint: accepted only when `id` is above
    /// every id present.
    pub fn put_primary(&mut self, id: u128, bytes: Vec<u8>) -> (r: Result<(), StorageError>)
        requires
            old(self).wf(),
        ensures
            final(self).wf(),
            r is Ok <==> appendable(old(self).nodes_seq(), id),
            r is Ok ==> final(self).nodes_seq() == old(self).nodes_seq().push((id, bytes@)),
            r is Err ==> final(self).nodes_seq() == old(self).nodes_seq(),
            final(self).entries_seq() == old(self).entries_seq(),
            final(self).indices == old(self).indices,
            final(self).ids == old(self).ids,
    {
        let n = self.nodes.len();
        if n > 0 && self.nodes[n - 1].0 >= id {
            return Err(StorageError::KeyNotAppended);
        }
        let ghost before = self.nodes@;
        self.nodes.push((id, bytes));
        proof {
            assert(nodes_view(self.nodes@) =~= nodes_view(before).push((id, bytes@)));
            assert forall|i: int, j: int| 0 <= i < j < self.nodes@.len() implies self.nodes@[i].0
                < self.nodes@[j].0 by {
                if j == n && i < n - 1 {
                    assert(before[i].0 < before[n - 1].0);
                }
            }
        }
        Ok(())
    }

    /// The table declared under `name`, if any.
    pub fn secondary_index(&self, name: &String) -> (r: Option<usize>)
        ensures
            r == find_decl(self.decls(), name@),
            r matches Some(t) ==> t < self.indices@.len(),
    {
        let mut i: usize = self.indices.len();
        assert(self.indices@.subrange(0, i as int) =~= self.indices@);
        while i > 0
            invariant
                i <= self.indices@.len(),
                find_decl(self.decls(), name@) == find_decl(
                    decls_view(self.indices@.subrange(0, i as int)),
                    name@,
                ),
            decreases i,
        {
            let ghost pre = decls_view(self.indices@.subrange(0, i as int));
            assert(pre.drop_last() =~= decls_view(self.indices@.subrange(0, i - 1)));
            assert(pre[i - 1] == (self.indices@[i - 1].name@, self.indices@[i - 1].property@));
            if self.indices[i - 1].name.eq(name) {
                return Some(i - 1);
            }
            i = i - 1;
        }
        None
    }

    /// Records `key -> id` in index table `t`, replacing an earlier entry for `key`.
    pub fn index_put(&mut self, t: usize, key: Vec<u8>, id: u128) -> (r: Result<(), StorageError>)
        requires
            old(self).wf(),
            t < old(self).indices@.len(),
        ensures
            final(self).wf(),
            r is Ok,
            final(self).entries_seq() == old(self).entries_seq().push((t, key@, id)),
            final(self).nodes_seq() == old(self).nodes_seq(),
            final(self).nodes@ == old(self).nodes@,
            final(self).indices == old(self).indices,
            final(self).ids == old(self).ids,
    {
        let ghost before = self.index_entries@;
        self.index_entries.push((t, key, id));
        assert(entries_view(self.index_entries@) =~= entries_view(before).push((t, key@, id)));
        Ok(())
    }

    /// The encoded node stored under `id`.
    pub fn get_node(&self, id: u128) -> (r: Option<&Vec<u8>>)
        ensures
            match r {
                Some(b) => table_map(self.nodes_seq()).contains_key(id) && table_map(
                    self.nodes_seq(),
                )[id] == b@,
                None => !table_map(self.nodes_seq()).contains_key(id),
            },
    {
        let mut i: usize = self.nodes.len();
        assert(nodes_view(self.nodes@.subrange(0, i as int)) =~= self.nodes_seq());
        while i > 0
            invariant
                i <= self.nodes@.len(),
                table_map(self.nodes_seq()).contains_key(id) <==> table_map(
                    nodes_view(self.nodes@.subrange(0, i as int)),
                ).contains_key(id),
                table_map(nodes_view(self.nodes@.subrange(0, i as int))).contains_key(id)
                    ==> table_map(self.nodes_seq())[id] == table_map(
                    nodes_view(self.nodes@.subrange(0, i as int)),
                )[id],
            decreases i,
        {
            let ghost pre = nodes_view(self.nodes@.subrange(0, i as int));
            assert(pre.drop_last() =~= nodes_view(self.nodes@.subrange(0, i - 1)));
            assert(pre[i - 1] == (self.nodes@[i - 1].0, self.nodes@[i - 1].1@));
            if self.nodes[i - 1].0 == id {
                return Some(&self.nodes[i - 1].1);
            }
            i = i - 1;
        }
        None
    }

    /// The node id that the index named `name` records under `key`.
    pub fn index_get(&self, name: &String, key: &Vec<u8>) -> (r: Option<u128>)
        ensures
            match find_decl(self.decls(), name@) {
                None => r is None,
                Some(t) => match r {
                    Some(id) => index_map(self.entries_seq(), t).contains_key(key@) && index_map(
                        self.entries_seq(),
                        t,
                    )[key@] == id,
                    None => !index_map(self.entries_seq(), t).contains_key(key@),
                },
            },
    {
        let t = match self.secondary_index(name) {
            Some(t) => t,
            None => {
                return None;
            },
        };
        let mut i: usize = self.index_entries.len();
        assert(entries_view(self.index_entries@.subrange(0, i as int)) =~= self.entries_seq());
        while i > 0
            invariant
                i <= self.index_entries@.len(),
                find_decl(self.decls(), name@) == Some(t),
                index_map(self.entries_seq(), t).contains_key(key@) <==> index_map(
                    entries_view(self.index_entries@.subrange(0, i as int)),
                    t,
                ).contains_key(key@),
                index_map(entries_view(self.index_entries@.subrange(0, i as int)), t).contains_key(key@)
                    ==> index_map(self.entries_seq(), t)[key@] == index_map(
                    entries_view(self.index_entries@.subrange(0, i as int)),
                    t,
                )[key@],
            decreases i,
        {
            let ghost pre = entries_view(self.index_entries@.subrange(0, i as int));
            assert(pre.drop_last() =~= entries_view(self.index_entries@.subrange(0, i - 1)));
            assert(pre[i - 1] == (self.index_entries@[i - 1].0, self.index_entries@[i - 1].1@, self.index_entries@[i - 1].2));
            assert(pre.len() == i);
            if self.index_entries[i - 1].0 == t && bytes_eq(&self.index_entries[i - 1].1, key) {
                assert(index_map(pre, t) == index_map(pre.drop_last(), t).insert(key@, self.index_entries@[i - 1].2));
                return Some(self.index_entries[i - 1].2);
            }
            i = i - 1;
        }
        None
    }
}

} // verus!

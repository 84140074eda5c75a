use vstd::prelude::*;
use crate::codec::{CodecError, decoded, encode_node, encode_value, lemma_round_trip, node_bytes, value_bytes};
use crate::id::next_after;
use crate::storage::{
    entry_backed, EntryView, GraphStorage, StorageError, appendable, consistent, entries_view, find_decl,
    index_map, nodes_view, table_map,
};
use crate::value::{Node, NodeView, PropsView, Value, collect_properties, collected, lookup, props_view};

verus! {

/// A value handed along a traversal.
#[derive(Debug, PartialEq, Eq)]
pub enum TraversalVal {
    Empty,
    Node(Node),
    Value(Value),
}

#[derive(Debug, PartialEq, Eq)]
pub enum GraphError {
    Storage(StorageError),
    Codec(CodecError),
    /// No secondary index is declared under this name.
    MissingIndex(String),
    /// The node lacks the property that this index is keyed by.
    MissingProperty(String),
    /// Adding a node failed at a secondary-index step; the steps' own errors are
    /// not kept.
    AddNodeFailed,
    /// No id was supplied and the generator has issued its last one.
    IdsExhausted,
}

/// An open write transaction over the tables. Writes only append, so aborting
/// cuts each table back to the length it had when the transaction began.
pub struct RwTxn {
    pub storage: GraphStorage,
    pub nodes_mark: usize,
    pub entries_mark: usize,
    /// The clock reading (milliseconds) that ids generated in this transaction carry.
    pub now: u64,
}

impl RwTxn {
    pub open spec fn wf(&self) -> bool {
        &&& self.storage.wf()
        &&& self.nodes_mark <= self.storage.nodes@.len()
        &&& self.entries_mark <= self.storage.index_entries@.len()
        &&& consistent(
            self.storage.nodes_seq().subrange(0, self.nodes_mark as int),
            self.storage.entries_seq().subrange(0, self.entries_mark as int),
            self.storage.decls(),
        )
    }

    pub fn begin(storage: GraphStorage, now: u64) -> (r: RwTxn)
        requires
            storage.wf(),
            storage.consistent(),
        ensures
            r.wf(),
            r.storage == storage,
            r.nodes_mark == storage.nodes@.len(),
            r.entries_mark == storage.index_entries@.len(),
            r.now == now,
    {
        let nodes_mark = storage.nodes.len();
        let entries_mark = storage.index_entries.len();
        assert(storage.nodes_seq().subrange(0, nodes_mark as int) =~= storage.nodes_seq());
        assert(storage.entries_seq().subrange(0, entries_mark as int) =~= storage.entries_seq());
        RwTxn { storage, nodes_mark, entries_mark, now }
    }

    /// Keeps every write of the transaction, which must leave every index entry
    /// backed by the node table.
    pub fn commit(self) -> (r: GraphStorage)
        requires
            self.storage.consistent(),
        ensures
            r == self.storage,
    {
        self.storage
    }

    /// Drops every write of the transaction; ids issued stay used.
    pub fn abort(self) -> (r: GraphStorage)
        requires
            self.wf(),
        ensures
            r.wf(),
            r.consistent(),
            r.nodes_seq() == self.storage.nodes_seq().subrange(0, self.nodes_mark as int),
            r.entries_seq() == self.storage.entries_seq().subrange(0, self.entries_mark as int),
            r.indices == self.storage.indices,
            r.ids == self.storage.ids,
    {
        let mut storage = self.storage;
        let ghost (ns, es) = (storage.nodes@, storage.index_entries@);
        storage.nodes.truncate(self.nodes_mark);
        storage.index_entries.truncate(self.entries_mark);
        assert(nodes_view(storage.nodes@) =~= nodes_view(ns).subrange(0, self.nodes_mark as int));
        assert(entries_view(storage.index_entries@) =~= entries_view(es).subrange(
            0,
            self.entries_mark as int,
        ));
        storage
    }
}

/// The single result of a mutating step, computed when the step was built.
pub struct AddNIterator {
    pub inner: Option<Result<TraversalVal, GraphError>>,
}

impl AddNIterator {
    /// Hands out the result once, then nothing.
    pub fn next(&mut self) -> (r: Option<Result<TraversalVal, GraphError>>)
        ensures
            r == old(self).inner,
            final(self).inner is None,
    {
        self.inner.take()
    }
}

/// A traversal step bound to a write transaction.
pub struct RwTraversalIterator<I> {
    pub inner: I,
    pub txn: RwTxn,
}

pub open spec fn names_view(names: Seq<String>) -> Seq<Seq<char>> {
    names.map_values(|s: String| s@)
}

/// The index entry that the index named `name` gets for a node with properties
/// `props` and id `id`, if any.
pub open spec fn index_write(
    decls: Seq<(Seq<char>, Seq<char>)>,
    name: Seq<char>,
    props: PropsView,
    id: u128,
) -> Seq<EntryView> {
    match find_decl(decls, name) {
        Some(t) => match lookup(props, decls[t as int].1) {
            Some(v) => seq![(t, value_bytes(v), id)],
            None => Seq::empty(),
        },
        None => Seq::empty(),
    }
}

/// Whether the index named `name` is declared and the node has its property.
pub open spec fn indexable(decls: Seq<(Seq<char>, Seq<char>)>, name: Seq<char>, props: PropsView) -> bool {
    match find_decl(decls, name) {
        Some(t) => lookup(props, decls[t as int].1) is Some,
        None => false,
    }
}

/// The entries written for the requested indices, in the order requested.
pub open spec fn index_writes(
    decls: Seq<(Seq<char>, Seq<char>)>,
    names: Seq<Seq<char>>,
    props: PropsView,
    id: u128,
) -> Seq<EntryView>
    decreases names.len(),
{
    if names.len() == 0 {
        Seq::empty()
    } else {
        index_writes(decls, names.drop_last(), props, id) + index_write(decls, names.last(), props, id)
    }
}

pub open spec fn all_indexable(
    decls: Seq<(Seq<char>, Seq<char>)>,
    names: Seq<Seq<char>>,
    props: PropsView,
) -> bool {
    forall|i: int| 0 <= i < names.len() ==> indexable(decls, #[trigger] names[i], props)
}

/// The key under which the index named `name` records `node`.
pub fn index_key(storage: &GraphStorage, node: &Node, name: &String) -> (r: Result<
    (usize, Vec<u8>),
    GraphError,
>)
    ensures
        match find_decl(storage.decls(), name@) {
            None => r matches Err(GraphError::MissingIndex(n)) && n@ == name@,
            Some(t) => match lookup(node@.properties, storage.decls()[t as int].1) {
                None => r matches Err(GraphError::MissingProperty(n)) && n@ == name@,
                Some(v) => r matches Ok((u, k)) && u == t && k@ == value_bytes(v),
            },
        },
        r matches Ok((u, _)) ==> u < storage.indices@.len(),
{
    match storage.secondary_index(name) {
        None => Err(GraphError::MissingIndex(name.clone())),
        Some(t) => {
            assert(storage.decls()[t as int].1 == storage.indices@[t as int].property@);
            match node.check_property(storage.indices[t].property.as_str()) {
                None => Err(GraphError::MissingProperty(name.clone())),
                Some(v) => match encode_value(v) {
                    Ok(k) => Ok((t, k)),
                    Err(e) => Err(GraphError::Codec(e)),
                },
            }
        },
    }
}

/// Writes `node` into each index named in `names`, going on after a failure;
/// true when every one was written.
fn write_indices(storage: &mut GraphStorage, node: &Node, names: &[String]) -> (ok: bool)
    requires
        old(storage).wf(),
    ensures
        final(storage).wf(),
        final(storage).entries_seq() == old(storage).entries_seq() + index_writes(
            old(storage).decls(),
            names_view(names@),
            node@.properties,
            node.id,
        ),
        ok == all_indexable(old(storage).decls(), names_view(names@), node@.properties),
        final(storage).nodes@ == old(storage).nodes@,
        final(storage).indices == old(storage).indices,
        final(storage).ids == old(storage).ids,
{
    let ghost start = storage.entries_seq();
    let ghost decls = storage.decls();
    let ghost all = names_view(names@);
    let mut ok = true;
    let mut i: usize = 0;
    while i < names.len()
        invariant
            i <= names@.len(),
            storage.wf(),
            storage.decls() == decls,
            all == names_view(names@),
            storage.entries_seq() == start + index_writes(
                decls,
                all.subrange(0, i as int),
                node@.properties,
                node.id,
            ),
            ok == all_indexable(decls, all.subrange(0, i as int), node@.properties),
            storage.nodes@ == old(storage).nodes@,
            storage.indices == old(storage).indices,
            storage.ids == old(storage).ids,
        decreases names@.len() - i,
    {
        let ghost pre = all.subrange(0, i + 1);
        assert(pre.drop_last() =~= all.subrange(0, i as int));
        assert(pre.last() == names@[i as int]@);
        let ghost before = storage.entries_seq();
        let ghost step = index_write(decls, names@[i as int]@, node@.properties, node.id);
        match index_key(storage, node, &names[i]) {
            Ok((t, k)) => {
                let _ = storage.index_put(t, k, node.id);
                assert(storage.entries_seq() =~= before + step);
            },
            Err(_) => {
                ok = false;
                assert(step =~= Seq::<EntryView>::empty());
                assert(storage.entries_seq() =~= before + step);
            },
        }
        proof {
            assert(start + index_writes(decls, pre, node@.properties, node.id) =~= before + step);
            assert(indexable(decls, pre.last(), node@.properties) ==> (all_indexable(decls, pre, node@.properties) <==> all_indexable(decls, pre.drop_last(), node@.properties)));
            if !indexable(decls, pre.last(), node@.properties) {
                assert(pre[i as int] == pre.last());
            }
        }
        i = i + 1;
    }
    assert(all.subrange(0, i as int) =~= all);
    ok
}

pub open spec fn requested(secondary_indices: Option<&[String]>) -> Seq<Seq<char>> {
    match secondary_indices {
        Some(names) => names_view(names@),
        None => Seq::empty(),
    }
}

/// The id that a node added in `txn` gets: the one supplied, or the next
/// generated one.
pub open spec fn id_for(txn: RwTxn, id: Option<u128>) -> u128 {
    match id {
        Some(x) => x,
        None => next_after(txn.storage.ids.last, txn.now),
    }
}

/// What adding a node may start from: a well-formed transaction.
pub open spec fn add_n_pre(txn: RwTxn, id: Option<u128>) -> bool {
    txn.wf()
}

/// No id is supplied and the generator cannot issue another.
pub open spec fn ids_exhausted(txn: RwTxn, id: Option<u128>) -> bool {
    id is None && !txn.storage.ids.can_issue()
}

/// What adding a node leaves behind. With no id to give, nothing changes and the
/// result is `IdsExhausted`. Otherwise: the node, with one property per name (the
/// last value given for it), is appended to the node table when its id is above
/// every id there; each requested index that is declared and whose property the
/// node has gets an entry, in request order, whatever failed before; and the single
/// result is the node when every step succeeded, the node table's error when only
/// the append was refused, and `AddNodeFailed` when an index step failed.
pub open spec fn add_n_post(
    txn: RwTxn,
    label: Seq<char>,
    properties: Seq<(String, Value)>,
    names: Seq<Seq<char>>,
    id: Option<u128>,
    r: RwTraversalIterator<AddNIterator>,
) -> bool {
    if ids_exhausted(txn, id) {
        &&& r.txn == txn
        &&& r.inner.inner == Some(Err::<TraversalVal, GraphError>(GraphError::IdsExhausted))
    } else {
        let nid = id_for(txn, id);
        let node = NodeView { id: nid, label, properties: collected(props_view(properties)) };
        let s = txn.storage;
        let written = appendable(s.nodes_seq(), nid);
        let indexed = all_indexable(s.decls(), names, node.properties);
        &&& r.txn.wf()
        &&& r.txn.nodes_mark == txn.nodes_mark
        &&& r.txn.entries_mark == txn.entries_mark
        &&& r.txn.now == txn.now
        &&& r.txn.storage.indices == s.indices
        &&& r.txn.storage.ids.last == (if id is None { nid } else { s.ids.last })
        &&& r.txn.storage.nodes_seq() == (if written {
            s.nodes_seq().push((nid, node_bytes(node)))
        } else {
            s.nodes_seq()
        })
        &&& r.txn.storage.entries_seq() == s.entries_seq() + index_writes(
            s.decls(),
            names,
            node.properties,
            nid,
        )
        &&& (written ==> node_bytes(node).len() <= usize::MAX)
        &&& r.inner.inner matches Some(res)
        &&& (res is Ok <==> (written && indexed))
        &&& (res matches Ok(v) ==> (v matches TraversalVal::Node(n) && n@ == node))
        &&& (res matches Err(e) ==> if indexed {
            e == GraphError::Storage(StorageError::KeyNotAppended)
        } else {
            e is AddNodeFailed
        })
    }
}

impl<I> RwTraversalIterator<I> {
    /// Adds a node, writing it at once: to the node table with the append hint,
    /// then to each requested secondary index in order, trying every index even
    /// after a failure. Writes made before a failure stay in the transaction, so
    /// a caller that sees a failure aborts the transaction.
    pub fn add_node(
        self,
        label: &str,
        properties: Vec<(String, Value)>,
        secondary_indices: Option<&[String]>,
        id: Option<u128>,
    ) -> (r: RwTraversalIterator<AddNIterator>)
        requires
            add_n_pre(self.txn, id),
        ensures
            add_n_post(self.txn, label@, properties@, requested(secondary_indices), id, r),
    {
        let mut txn = self.txn;
        let ghost t0 = txn;
        if id.is_none() && txn.storage.ids.last == u128::MAX {
            return RwTraversalIterator {
                inner: AddNIterator { inner: Some(Err(GraphError::IdsExhausted)) },
                txn,
            };
        }
        let nid = match id {
            Some(x) => x,
            None => {
                let now = txn.now;
                txn.storage.ids.next_id(now)
            },
        };
        let node = Node { id: nid, label: label.to_owned(), properties: collect_properties(properties) };
        let primary: Result<(), GraphError> = match encode_node(&node) {
            Ok(bytes) => {
                // Reading the length tells the prover that the record fits in memory.
                let _size = bytes.len();
                match txn.storage.put_primary(nid, bytes) {
                    Ok(()) => Ok(()),
                    Err(e) => Err(GraphError::Storage(e)),
                }
            },
            Err(e) => Err(GraphError::Codec(e)),
        };
        let indexed = match secondary_indices {
            Some(names) => write_indices(&mut txn.storage, &node, names),
            None => {
                assert(index_writes(t0.storage.decls(), Seq::empty(), node@.properties, nid)
                    =~= Seq::<EntryView>::empty());
                assert(txn.storage.entries_seq() =~= t0.storage.entries_seq() + Seq::<
                    EntryView,
                >::empty());
                true
            },
        };
        let result = if !indexed {
            Err(GraphError::AddNodeFailed)
        } else {
            match primary {
                Ok(()) => Ok(TraversalVal::Node(node)),
                Err(e) => Err(e),
            }
        };
        let r = RwTraversalIterator { inner: AddNIterator { inner: Some(result) }, txn };
        proof {
            let nv = NodeView { id: nid, label: label@, properties: collected(props_view(properties@)) };
            assert(node@ == nv);
            assert(r.txn.storage.index_entries@.len() == r.txn.storage.entries_seq().len());
            assert(t0.storage.index_entries@.len() == t0.storage.entries_seq().len());
            assert(r.txn.storage.nodes@.len() == r.txn.storage.nodes_seq().len());
            assert(t0.storage.nodes@.len() == t0.storage.nodes_seq().len());
            assert(r.txn.storage.nodes_seq().subrange(0, t0.nodes_mark as int) =~= t0.storage.nodes_seq().subrange(0, t0.nodes_mark as int));
            assert(r.txn.storage.entries_seq().subrange(0, t0.entries_mark as int) =~= t0.storage.entries_seq().subrange(0, t0.entries_mark as int));
        }
        r
    }
}

/// Steps that add a node to the graph.
pub trait AddNAdapter: Sized {
    /// The transaction that the step writes in.
    spec fn txn_view(&self) -> RwTxn;

    fn add_n(
        self,
        label: &str,
        properties: Vec<(String, Value)>,
        secondary_indices: Option<&[String]>,
        id: Option<u128>,
    ) -> (r: RwTraversalIterator<AddNIterator>)
        requires
            add_n_pre(self.txn_view(), id),
        ensures
            add_n_post(self.txn_view(), label@, properties@, requested(secondary_indices), id, r),
    ;
}

impl<I> AddNAdapter for RwTraversalIterator<I> {
    open spec fn txn_view(&self) -> RwTxn {
        self.txn
    }

    fn add_n(
        self,
        label: &str,
        properties: Vec<(String, Value)>,
        secondary_indices: Option<&[String]>,
        id: Option<u128>,
    ) -> (r: RwTraversalIterator<AddNIterator>) {
        self.add_node(label, properties, secondary_indices, id)
    }
}

/// The key that index table `t` gets for a node with properties `props`.
pub open spec fn table_key(decls: Seq<(Seq<char>, Seq<char>)>, t: usize, props: PropsView) -> Seq<u8> {
    value_bytes(lookup(props, decls[t as int].1)->Some_0)
}

proof fn lemma_writes_agree(
    decls: Seq<(Seq<char>, Seq<char>)>,
    names: Seq<Seq<char>>,
    props: PropsView,
    id: u128,
)
    ensures
        forall|j: int|
            0 <= j < index_writes(decls, names, props, id).len() ==> {
                let e = #[trigger] index_writes(decls, names, props, id)[j];
                e == (e.0, table_key(decls, e.0, props), id) && lookup(
                    props,
                    decls[e.0 as int].1,
                ) is Some
            },
    decreases names.len(),
{
    if names.len() > 0 {
        lemma_writes_agree(decls, names.drop_last(), props, id);
        let front = index_writes(decls, names.drop_last(), props, id);
        let all = index_writes(decls, names, props, id);
        assert forall|j: int| 0 <= j < all.len() implies {
            let e = #[trigger] all[j];
            e == (e.0, table_key(decls, e.0, props), id) && lookup(props, decls[e.0 as int].1) is Some
        } by {
            if j < front.len() {
                assert(all[j] == front[j]);
            }
        }
    }
}

proof fn lemma_writes_include(
    decls: Seq<(Seq<char>, Seq<char>)>,
    names: Seq<Seq<char>>,
    props: PropsView,
    id: u128,
    i: int,
)
    requires
        0 <= i < names.len(),
        indexable(decls, names[i], props),
    ensures
        index_writes(decls, names, props, id).contains(
            (find_decl(decls, names[i])->Some_0, table_key(decls, find_decl(decls, names[i])->Some_0, props), id),
        ),
    decreases names.len(),
{
    let all = index_writes(decls, names, props, id);
    let front = index_writes(decls, names.drop_last(), props, id);
    if i < names.len() - 1 {
        assert(names.drop_last()[i] == names[i]);
        lemma_writes_include(decls, names.drop_last(), props, id, i);
        let k = choose|k: int| 0 <= k < front.len() && front[k] == (find_decl(decls, names[i])->Some_0, table_key(decls, find_decl(decls, names[i])->Some_0, props), id);
        assert(all[k] == front[k]);
    } else {
        assert(all[front.len() as int] == (find_decl(decls, names[i])->Some_0, table_key(decls, find_decl(decls, names[i])->Some_0, props), id));
    }
}

proof fn lemma_map_after(es: Seq<EntryView>, ws: Seq<EntryView>, t: usize, k: Seq<u8>, id: u128)
    requires
        ws.contains((t, k, id)),
        forall|j: int| 0 <= j < ws.len() && (#[trigger] ws[j]).0 == t ==> ws[j] == (t, k, id),
    ensures
        index_map(es + ws, t).contains_key(k),
        index_map(es + ws, t)[k] == id,
    decreases ws.len(),
{
    let all = es + ws;
    assert(all.drop_last() =~= es + ws.drop_last());
    assert(all.last() == ws.last());
    if ws.last().0 != t {
        let j = choose|j: int| 0 <= j < ws.len() && ws[j] == (t, k, id);
        assert(ws.drop_last()[j] == ws[j]);
        assert forall|j: int| 0 <= j < ws.drop_last().len() && (#[trigger] ws.drop_last()[j]).0 == t
            implies ws.drop_last()[j] == (t, k, id) by {
            assert(ws.drop_last()[j] == ws[j]);
        }
        lemma_map_after(es, ws.drop_last(), t, k, id);
    } else {
        assert(ws[ws.len() - 1] == ws.last());
    }
}

/// After a node is added successfully, the node table holds its record, and each
/// requested index maps the node's value of that index's property to the node's
/// id, in the same transaction.
pub proof fn lemma_index_consistent(
    txn: RwTxn,
    label: Seq<char>,
    properties: Seq<(String, Value)>,
    names: Seq<Seq<char>>,
    id: Option<u128>,
    r: RwTraversalIterator<AddNIterator>,
    i: int,
)
    requires
        add_n_post(txn, label, properties, names, id, r),
        r.inner.inner matches Some(res) && res is Ok,
        0 <= i < names.len(),
    ensures
        ({
            let nid = id_for(txn, id);
            let decls = txn.storage.decls();
            let t = find_decl(decls, names[i])->Some_0;
            let key = table_key(decls, t, collected(props_view(properties)));
            &&& table_map(r.txn.storage.nodes_seq()).contains_key(nid)
            &&& index_map(r.txn.storage.entries_seq(), t).contains_key(key)
            &&& index_map(r.txn.storage.entries_seq(), t)[key] == nid
        }),
{
    let nid = id_for(txn, id);
    let decls = txn.storage.decls();
    let props = collected(props_view(properties));
    let t = find_decl(decls, names[i])->Some_0;
    let key = table_key(decls, t, props);
    let ws = index_writes(decls, names, props, nid);
    assert(indexable(decls, names[i], props));
    lemma_writes_include(decls, names, props, nid, i);
    lemma_writes_agree(decls, names, props, nid);
    lemma_map_after(txn.storage.entries_seq(), ws, t, key, nid);
    let ns = r.txn.storage.nodes_seq();
    assert(ns.drop_last() =~= txn.storage.nodes_seq());
}

proof fn lemma_table_keys(ns: Seq<(u128, Seq<u8>)>, k: u128)
    requires
        table_map(ns).contains_key(k),
    ensures
        exists|j: int| 0 <= j < ns.len() && ns[j].0 == k,
    decreases ns.len(),
{
    if ns.last().0 != k {
        lemma_table_keys(ns.drop_last(), k);
        let j = choose|j: int| 0 <= j < ns.drop_last().len() && ns.drop_last()[j].0 == k;
        assert(ns[j] == ns.drop_last()[j]);
    } else {
        assert(ns[ns.len() - 1] == ns.last());
    }
}

/// A successful add keeps every index entry backed by the node table, so the
/// transaction can be committed.
pub proof fn lemma_add_keeps_consistent(
    txn: RwTxn,
    label: Seq<char>,
    properties: Seq<(String, Value)>,
    names: Seq<Seq<char>>,
    id: Option<u128>,
    r: RwTraversalIterator<AddNIterator>,
)
    requires
        txn.wf(),
        txn.storage.consistent(),
        add_n_post(txn, label, properties, names, id, r),
        r.inner.inner matches Some(res) && res is Ok,
    ensures
        r.txn.storage.consistent(),
{
    let nid = id_for(txn, id);
    let props = collected(props_view(properties));
    let node = NodeView { id: nid, label, properties: props };
    let s = txn.storage;
    let decls = s.decls();
    let ns0 = s.nodes_seq();
    let ns1 = r.txn.storage.nodes_seq();
    let nb = node_bytes(node);
    assert(ns1.drop_last() =~= ns0);
    assert(table_map(ns1) == table_map(ns0).insert(nid, nb));
    lemma_round_trip(node);
    if table_map(ns0).contains_key(nid) {
        lemma_table_keys(ns0, nid);
        let j = choose|j: int| 0 <= j < ns0.len() && ns0[j].0 == nid;
        assert(ns0[j].0 == s.nodes@[j].0);
        assert(ns0.last().0 == s.nodes@[ns0.len() - 1].0);
        if j < ns0.len() - 1 {
            assert(s.nodes@[j].0 < s.nodes@[ns0.len() - 1].0);
        }
    }
    let es0 = s.entries_seq();
    let ws = index_writes(decls, names, props, nid);
    let es1 = r.txn.storage.entries_seq();
    lemma_writes_agree(decls, names, props, nid);
    assert(r.txn.storage.decls() == decls);
    assert forall|j: int| 0 <= j < es1.len() implies entry_backed(ns1, #[trigger] es1[j], decls) by {
        if j < es0.len() {
            assert(es1[j] == es0[j]);
            assert(entry_backed(ns0, es0[j], decls));
        } else {
            assert(es1[j] == ws[j - es0.len()]);
        }
    }
}

} // verus!

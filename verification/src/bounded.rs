//! Fixed-capacity collections of node indices, kept in `heapless` containers.
//!
//! Each container lives in a private field of a type that Verus sees as opaque (the storage
//! type inside `heapless::Vec` is private to `heapless`, so the container types cannot be
//! declared to Verus directly); what it holds is named by an uninterpreted view, and each
//! `heapless` method that the routing logic calls has one wrapper whose contract states,
//! from `heapless`'s source, what the method does to that view and what it returns.
use vstd::prelude::*;

verus! {

/// Largest number of nodes in a routing graph (`heapless` index maps need a power of two).
pub const MAX_NODES: usize = 16;

/// Largest number of inputs of one node.
pub const MAX_NODE_INPUTS: usize = 3;

/// A `heapless::Vec<usize, MAX_NODES>`.
#[verifier::external_body]
pub struct IndexList {
    inner: heapless::Vec<usize, 16>,
}

/// What an [`IndexList`] holds, front to back.
pub uninterp spec fn index_list_items(l: IndexList) -> Seq<usize>;

impl View for IndexList {
    type V = Seq<usize>;

    open spec fn view(&self) -> Seq<usize> {
        index_list_items(*self)
    }
}

impl IndexList {
    /// `heapless::Vec::new`: an empty vector.
    #[verifier::external_body]
    pub(crate) fn new() -> (r: IndexList)
        ensures
            index_list_items(r) == Seq::<usize>::empty(),
    {
        IndexList { inner: heapless::Vec::new() }
    }

    /// `heapless::Vec::len`: the number of items; never more than the capacity.
    #[verifier::external_body]
    pub(crate) fn len(&self) -> (r: usize)
        ensures
            r == index_list_items(*self).len(),
            r <= MAX_NODES,
    {
        self.inner.len()
    }

    /// `heapless::Vec::push`: appends when there is room, else hands the item back and
    /// leaves the vector as it was.
    #[verifier::external_body]
    pub(crate) fn push(&mut self, item: usize) -> (r: Result<(), usize>)
        ensures
            index_list_items(*old(self)).len() < MAX_NODES ==> r is Ok,
            index_list_items(*old(self)).len() < MAX_NODES ==> index_list_items(*final(self)) == index_list_items(*old(self)).push(item),
            index_list_items(*old(self)).len() >= MAX_NODES ==> r is Err && r->Err_0 == item,
            index_list_items(*old(self)).len() >= MAX_NODES ==> index_list_items(*final(self)) == index_list_items(*old(self)),
    {
        self.inner.push(item)
    }

    /// `heapless::Vec::pop`: removes and returns the last item, `None` when empty.
    #[verifier::external_body]
    pub(crate) fn pop(&mut self) -> (r: Option<usize>)
        ensures
            index_list_items(*old(self)).len() == 0 ==> r is None,
            index_list_items(*old(self)).len() == 0 ==> index_list_items(*final(self)) == index_list_items(*old(self)),
            index_list_items(*old(self)).len() > 0 ==> r == Some(index_list_items(*old(self)).last()),
            index_list_items(*old(self)).len() > 0 ==> index_list_items(*final(self)) == index_list_items(*old(self)).drop_last(),
    {
        self.inner.pop()
    }

    /// Indexing through `heapless::Vec`'s `Deref` to a slice.
    #[verifier::external_body]
    pub(crate) fn get(&self, i: usize) -> (r: usize)
        requires
            i < self@.len(),
        ensures
            r == index_list_items(*self)[i as int],
    {
        self.inner[i]
    }

    /// Assignment through `heapless::Vec`'s `DerefMut` to a slice.
    #[verifier::external_body]
    pub(crate) fn set(&mut self, i: usize, item: usize)
        requires
            i < old(self)@.len(),
        ensures
            index_list_items(*final(self)) == index_list_items(*old(self)).update(i as int, item),
    {
        self.inner[i] = item;
    }
}

} // verus!

verus! {

/// A `heapless::Vec<usize, MAX_NODE_INPUTS>`: the input nodes of one node.
#[verifier::external_body]
pub struct InputList {
    inner: heapless::Vec<usize, 3>,
}

/// What an [`InputList`] holds, front to back.
pub uninterp spec fn input_list_items(l: InputList) -> Seq<usize>;

impl View for InputList {
    type V = Seq<usize>;

    open spec fn view(&self) -> Seq<usize> {
        input_list_items(*self)
    }
}

impl InputList {
    /// `heapless::Vec::new`: an empty vector.
    #[verifier::external_body]
    pub(crate) fn new() -> (r: InputList)
        ensures
            input_list_items(r) == Seq::<usize>::empty(),
    {
        InputList { inner: heapless::Vec::new() }
    }

    /// `heapless::Vec::len`: the number of items; never more than the capacity.
    #[verifier::external_body]
    pub(crate) fn len(&self) -> (r: usize)
        ensures
            r == input_list_items(*self).len(),
            r <= MAX_NODE_INPUTS,
    {
        self.inner.len()
    }

    /// Indexing through `heapless::Vec`'s `Deref` to a slice.
    #[verifier::external_body]
    pub(crate) fn get(&self, i: usize) -> (r: usize)
        requires
            i < self@.len(),
        ensures
            r == input_list_items(*self)[i as int],
    {
        self.inner[i]
    }

    /// `heapless::Vec::push`: appends when there is room, else hands the item back and
    /// leaves the vector as it was.
    #[verifier::external_body]
    pub(crate) fn push(&mut self, item: usize) -> (r: Result<(), usize>)
        ensures
            input_list_items(*old(self)).len() < MAX_NODE_INPUTS ==> r is Ok,
            input_list_items(*old(self)).len() < MAX_NODE_INPUTS ==> input_list_items(*final(self)) == input_list_items(*old(self)).push(item),
            input_list_items(*old(self)).len() >= MAX_NODE_INPUTS ==> r is Err && r->Err_0 == item,
            input_list_items(*old(self)).len() >= MAX_NODE_INPUTS ==> input_list_items(*final(self)) == input_list_items(*old(self)),
    {
        self.inner.push(item)
    }
}

/// A `heapless::index_set::FnvIndexSet<usize, MAX_NODES>`: a set of node indices.
#[verifier::external_body]
pub struct NodeSet {
    inner: heapless::index_set::FnvIndexSet<usize, 16>,
}

/// The node indices that a [`NodeSet`] holds.
pub uninterp spec fn node_set_items(s: NodeSet) -> Set<usize>;

impl View for NodeSet {
    type V = Set<usize>;

    open spec fn view(&self) -> Set<usize> {
        node_set_items(*self)
    }
}

impl NodeSet {
    /// `FnvIndexSet::new`: an empty set.
    #[verifier::external_body]
    pub(crate) fn new() -> (r: NodeSet)
        ensures
            node_set_items(r) == Set::<usize>::empty(),
    {
        NodeSet { inner: heapless::index_set::FnvIndexSet::new() }
    }

    /// `FnvIndexSet::insert`: adds `value`; `Ok(true)` when it was absent, `Ok(false)` when it
    /// was present already; when it is absent and the set is full, hands it back as `Err`
    /// and leaves the set as it was.
    #[verifier::external_body]
    pub(crate) fn insert(&mut self, value: usize) -> (r: Result<bool, usize>)
        ensures
            node_set_items(*old(self)).finite() ==> node_set_items(*final(self)).finite(),
            node_set_items(*old(self)).contains(value) ==> (r matches Ok(false) && node_set_items(*final(self)) == node_set_items(*old(self))),
            !node_set_items(*old(self)).contains(value) && node_set_items(*old(self)).len() < MAX_NODES ==> r matches Ok(true),
            !node_set_items(*old(self)).contains(value) && node_set_items(*old(self)).len() < MAX_NODES ==> node_set_items(*final(self)) == node_set_items(*old(self)).insert(value),
            !node_set_items(*old(self)).contains(value) && node_set_items(*old(self)).len() >= MAX_NODES ==> r is Err && r->Err_0 == value,
            !node_set_items(*old(self)).contains(value) && node_set_items(*old(self)).len() >= MAX_NODES ==> node_set_items(*final(self)) == node_set_items(*old(self)),
    {
        self.inner.insert(value)
    }

    /// The set's items as `FnvIndexSet::iter` yields them, collected into an [`IndexList`]:
    /// each item of the set exactly once, in the set's insertion order (which is left
    /// unstated).
    #[verifier::external_body]
    pub(crate) fn to_list(&self) -> (r: IndexList)
        ensures
            index_list_items(r).to_set() == node_set_items(*self),
            index_list_items(r).no_duplicates(),
    {
        IndexList { inner: self.inner.iter().copied().collect() }
    }
}

/// A `heapless::index_map::FnvIndexMap<usize, FnvIndexSet<usize, MAX_NODES>, MAX_NODES>`:
/// for each node, the set of nodes that it feeds.
#[verifier::external_body]
pub struct EdgeMap {
    inner: heapless::index_map::FnvIndexMap<usize, heapless::index_set::FnvIndexSet<usize, 16>, 16>,
}

/// What an [`EdgeMap`] holds: each key with the items of its set.
pub uninterp spec fn edge_map_entries(m: EdgeMap) -> Map<usize, Set<usize>>;

impl View for EdgeMap {
    type V = Map<usize, Set<usize>>;

    open spec fn view(&self) -> Map<usize, Set<usize>> {
        edge_map_entries(*self)
    }
}

impl EdgeMap {
    /// `FnvIndexMap::new`: an empty map.
    #[verifier::external_body]
    pub(crate) fn new() -> (r: EdgeMap)
        ensures
            edge_map_entries(r).dom() == Set::<usize>::empty(),
    {
        EdgeMap { inner: heapless::index_map::FnvIndexMap::new() }
    }

    /// `FnvIndexMap::is_empty`: true when the map holds no key.
    #[verifier::external_body]
    pub(crate) fn is_empty(&self) -> (r: bool)
        ensures
            r <==> edge_map_entries(*self).dom() == Set::<usize>::empty(),
    {
        self.inner.is_empty()
    }

    /// `FnvIndexMap::insert`: maps `key` to `set`, handing back the set that it replaces;
    /// when `key` is absent and the map is full, hands both back as `Err` and leaves the map
    /// as it was.
    #[verifier::external_body]
    pub(crate) fn insert(&mut self, key: usize, set: NodeSet) -> (r: Result<Option<NodeSet>, (usize, NodeSet)>)
        ensures
            edge_map_entries(*old(self)).dom().finite() ==> edge_map_entries(*final(self)).dom().finite(),
            edge_map_entries(*old(self)).dom().contains(key) ==> (r matches Ok(Some(s)) && node_set_items(s) == edge_map_entries(*old(self))[key]),
            edge_map_entries(*old(self)).dom().contains(key) ==> edge_map_entries(*final(self)) == edge_map_entries(*old(self)).insert(key, node_set_items(set)),
            !edge_map_entries(*old(self)).dom().contains(key) && edge_map_entries(*old(self)).dom().len() < MAX_NODES ==> r matches Ok(None),
            !edge_map_entries(*old(self)).dom().contains(key) && edge_map_entries(*old(self)).dom().len() < MAX_NODES ==> edge_map_entries(*final(self)) == edge_map_entries(*old(self)).insert(key, node_set_items(set)),
            !edge_map_entries(*old(self)).dom().contains(key) && edge_map_entries(*old(self)).dom().len() >= MAX_NODES ==> (r matches Err(e) && e.0 == key && e.1 == set),
            !edge_map_entries(*old(self)).dom().contains(key) && edge_map_entries(*old(self)).dom().len() >= MAX_NODES ==> edge_map_entries(*final(self)) == edge_map_entries(*old(self)),
    {
        self.inner.insert(key, set.inner).map(|old| old.map(|inner| NodeSet { inner })).map_err(|(k, inner)| (k, NodeSet { inner }))
    }

    /// `FnvIndexMap::remove`: removes `key` and hands back its set, `None` when it is absent.
    #[verifier::external_body]
    pub(crate) fn remove(&mut self, key: usize) -> (r: Option<NodeSet>)
        ensures
            edge_map_entries(*old(self)).dom().contains(key) ==> (r matches Some(s) && node_set_items(s) == edge_map_entries(*old(self))[key]),
            !edge_map_entries(*old(self)).dom().contains(key) ==> r is None,
            edge_map_entries(*final(self)) == edge_map_entries(*old(self)).remove(key),
    {
        self.inner.remove(&key).map(|inner| NodeSet { inner })
    }
}

} // verus!

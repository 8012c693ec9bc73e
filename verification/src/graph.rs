//! The routing graph that connects processing nodes, and the ordering of its nodes so that
//! every node runs after the nodes that feed it.
use vstd::prelude::*;

use crate::bounded::{
    edge_map_entries, index_list_items, input_list_items, node_set_items, EdgeMap, IndexList,
    InputList, NodeSet, MAX_NODES, MAX_NODE_INPUTS,
};

verus! {

/// An input list that a node may hold: at most `MAX_NODE_INPUTS` indices, each of them a
/// possible node index (the same node may feed several inputs).
pub open spec fn valid_inputs(inputs: Seq<usize>) -> bool {
    &&& inputs.len() <= MAX_NODE_INPUTS
    &&& forall|q: int| 0 <= q < inputs.len() ==> #[trigger] inputs[q] < MAX_NODES
}

/// `order` lists each node of the graph whose node `i` takes its inputs from the nodes
/// `inputs[i]` exactly once, and every node after all of its inputs.
pub open spec fn is_topological_order(inputs: Seq<Seq<usize>>, order: Seq<usize>) -> bool {
    &&& order.len() == inputs.len()
    &&& order.no_duplicates()
    &&& forall|p: int| 0 <= p < order.len() ==> #[trigger] order[p] < inputs.len()
    &&& forall|p: int, q: int|
        0 <= p < order.len() && 0 <= q < inputs[order[p] as int].len() ==> order.take(p).contains(
            #[trigger] inputs[order[p] as int][q],
        )
}

/// The graph can be run in some order: it has no cycle, and every input names a node of
/// the graph.
pub open spec fn has_topological_order(inputs: Seq<Seq<usize>>) -> bool {
    exists|order: Seq<usize>| is_topological_order(inputs, order)
}

/// `cycle` is a cycle of the graph: each of its nodes feeds the next, and the last one feeds
/// the first.
pub open spec fn is_cycle(inputs: Seq<Seq<usize>>, cycle: Seq<usize>) -> bool {
    &&& cycle.len() > 0
    &&& forall|k: int| 0 <= k < cycle.len() ==> #[trigger] cycle[k] < inputs.len()
    &&& forall|k: int|
        0 <= k < cycle.len() ==> inputs[cycle[(k + 1) % (cycle.len() as int)] as int].contains(#[trigger] cycle[k])
}

/// The position of `x` in `order`.
spec fn position(order: Seq<usize>, x: usize) -> int {
    choose|p: int| 0 <= p < order.len() && order[p] == x
}

/// In a topological order, each node stands after each node that feeds it.
proof fn lemma_input_before(inputs: Seq<Seq<usize>>, order: Seq<usize>, i: usize, j: usize)
    requires
        is_topological_order(inputs, order),
        i < inputs.len(),
        inputs[i as int].contains(j),
        inputs.len() <= MAX_NODES,
    ensures
        0 <= position(order, j) < position(order, i) < order.len(),
        order[position(order, i)] == i,
        order[position(order, j)] == j,
{
    assert forall|p: int| 0 <= p < order.len() implies #[trigger] order[p] < inputs.len() as usize by {}
    lemma_bounded_seq(order, inputs.len() as usize);
    assert(order.contains(i));
    let pi = position(order, i);
    let q = choose|q: int| 0 <= q < inputs[i as int].len() && inputs[i as int][q] == j;
    assert(order.take(pi).contains(inputs[order[pi] as int][q]));
    let pj = choose|pj: int| 0 <= pj < order.take(pi).len() && order.take(pi)[pj] == j;
    assert(order[pj] == j);
    assert(order.contains(j));
    assert(position(order, j) == pj);
}

/// Along a path of nodes whose positions grow at each step, the `k`-th node stands at least
/// `k` places after the first.
proof fn lemma_positions_grow(order: Seq<usize>, cycle: Seq<usize>, k: int)
    requires
        0 <= k < cycle.len(),
        forall|k2: int| 0 <= k2 < cycle.len() ==> position(order, #[trigger] cycle[k2]) < position(
            order,
            cycle[(k2 + 1) % (cycle.len() as int)],
        ),
    ensures
        position(order, cycle[k]) >= position(order, cycle[0]) + k,
    decreases k,
{
    if k > 0 {
        lemma_positions_grow(order, cycle, k - 1);
        vstd::arithmetic::div_mod::lemma_small_mod(k as nat, cycle.len());
        assert(position(order, cycle[k - 1]) < position(order, cycle[(k - 1 + 1) % (cycle.len() as int)]));
    }
}

/// No topological order runs a cycle.
proof fn lemma_cycle_not_ordered(inputs: Seq<Seq<usize>>, cycle: Seq<usize>, order: Seq<usize>)
    requires
        is_cycle(inputs, cycle),
        inputs.len() <= MAX_NODES,
    ensures
        !is_topological_order(inputs, order),
{
    if is_topological_order(inputs, order) {
        let len = cycle.len() as int;
        assert forall|k: int| 0 <= k < len implies position(order, #[trigger] cycle[k]) < position(
            order,
            cycle[(k + 1) % len],
        ) by {
            lemma_input_before(inputs, order, cycle[(k + 1) % len], cycle[k]);
        }
        lemma_positions_grow(order, cycle, len - 1);
        vstd::arithmetic::div_mod::lemma_mod_self_0(len);
        assert((len - 1 + 1) % len == 0);
        assert(position(order, cycle[len - 1]) < position(order, cycle[(len - 1 + 1) % len]));
    }
}

/// A graph with a cycle has no topological order, so sorting it fails.
pub proof fn lemma_cycle_has_no_order(inputs: Seq<Seq<usize>>, cycle: Seq<usize>)
    requires
        is_cycle(inputs, cycle),
        inputs.len() <= MAX_NODES,
    ensures
        !has_topological_order(inputs),
{
    assert forall|order: Seq<usize>| !is_topological_order(inputs, order) by {
        lemma_cycle_not_ordered(inputs, cycle, order);
    }
}

/// Some node takes an input from an index that names no node of the graph.
pub open spec fn has_missing_input(inputs: Seq<Seq<usize>>) -> bool {
    exists|i: int, q: int| 0 <= i < inputs.len() && 0 <= q < inputs[i].len() && #[trigger] inputs[i][q] >= inputs.len()
}

/// A graph with an input from a missing node has no topological order, so sorting it fails.
pub proof fn lemma_missing_input_has_no_order(inputs: Seq<Seq<usize>>)
    requires
        has_missing_input(inputs),
    ensures
        !has_topological_order(inputs),
{
    let (i, q) = choose|i: int, q: int| 0 <= i < inputs.len() && 0 <= q < inputs[i].len() && #[trigger] inputs[i][q] >= inputs.len();
    assert forall|order: Seq<usize>| !is_topological_order(inputs, order) by {
        if is_topological_order(inputs, order) {
            assert forall|p: int| 0 <= p < order.len() implies #[trigger] order[p] < inputs.len() as usize by {}
            lemma_bounded_seq(order, inputs.len() as usize);
            assert(order.contains(i as usize));
            let p = choose|p: int| 0 <= p < order.len() && order[p] == i as usize;
            assert(order.take(p).contains(inputs[order[p] as int][q]));
            let k = choose|k: int| 0 <= k < order.take(p).len() && order.take(p)[k] == inputs[i][q];
            assert(order[k] == inputs[i][q]);
        }
    }
}

/// An input of node `r` that is not among `sorted`.
spec fn unsorted_input(inputs: Seq<Seq<usize>>, sorted: Seq<usize>, r: usize) -> usize {
    choose|x: usize| inputs[r as int].contains(x) && !sorted.contains(x)
}

/// Starting at `start`, `k` steps backwards along inputs that are not among `sorted`.
spec fn walk(inputs: Seq<Seq<usize>>, sorted: Seq<usize>, start: usize, k: nat) -> usize
    decreases k,
{
    if k == 0 {
        start
    } else {
        unsorted_input(inputs, sorted, walk(inputs, sorted, start, (k - 1) as nat))
    }
}

/// When every node that is not sorted has an input that is not sorted either, walking
/// backwards along such inputs stays among the nodes that are not sorted.
proof fn lemma_walk(inputs: Seq<Seq<usize>>, sorted: Seq<usize>, deg: Seq<usize>, start: usize, k: nat)
    requires
        deg.len() == inputs.len(),
        forall|c: int| 0 <= c < inputs.len() ==> #[trigger] deg[c] == count_missing(inputs[c], sorted),
        forall|c: usize| c < inputs.len() ==> (#[trigger] deg[c as int] == 0 ==> sorted.contains(c)),
        !has_missing_input(inputs),
        start < inputs.len(),
        !sorted.contains(start),
    ensures
        walk(inputs, sorted, start, k) < inputs.len(),
        !sorted.contains(walk(inputs, sorted, start, k)),
        walk(inputs, sorted, start, k + 1) < inputs.len(),
        !sorted.contains(walk(inputs, sorted, start, k + 1)),
        inputs[walk(inputs, sorted, start, k) as int].contains(walk(inputs, sorted, start, k + 1)),
    decreases k,
{
    if k > 0 {
        lemma_walk(inputs, sorted, deg, start, (k - 1) as nat);
        assert(((k - 1) as nat + 1) as nat == k);
    }
    let r = walk(inputs, sorted, start, k);
    assert(deg[r as int] == 0 ==> sorted.contains(r));
    assert(deg[r as int] != 0);
    lemma_count_missing_zero(inputs[r as int], sorted);
    let q = choose|q: int| 0 <= q < inputs[r as int].len() && !sorted.contains(#[trigger] inputs[r as int][q]);
    let x = inputs[r as int][q];
    assert(inputs[r as int].contains(x));
    let y = unsorted_input(inputs, sorted, r);
    assert(inputs[r as int].contains(y) && !sorted.contains(y));
    assert(walk(inputs, sorted, start, k + 1) == y);
    let qy = choose|qy: int| 0 <= qy < inputs[r as int].len() && inputs[r as int][qy] == y;
    if y >= inputs.len() {
        assert(inputs[r as int][qy] >= inputs.len());
    }
}

/// When the sort stops with a node left over and every input names a node, the left-over
/// nodes hold a cycle.
proof fn lemma_stuck_has_cycle(inputs: Seq<Seq<usize>>, sorted: Seq<usize>, deg: Seq<usize>, start: usize)
    requires
        inputs.len() <= MAX_NODES,
        deg.len() == inputs.len(),
        forall|c: int| 0 <= c < inputs.len() ==> #[trigger] deg[c] == count_missing(inputs[c], sorted),
        forall|c: usize| c < inputs.len() ==> (#[trigger] deg[c as int] == 0 ==> sorted.contains(c)),
        !has_missing_input(inputs),
        start < inputs.len(),
        !sorted.contains(start),
    ensures
        exists|cycle: Seq<usize>| is_cycle(inputs, cycle),
{
    let n = inputs.len();
    let w = Seq::new((n + 1) as nat, |k: int| walk(inputs, sorted, start, k as nat));
    assert forall|k: int| 0 <= k < w.len() implies #[trigger] w[k] < n as usize by {
        lemma_walk(inputs, sorted, deg, start, k as nat);
    }
    if w.no_duplicates() {
        lemma_bounded_seq(w, n as usize);
    }
    let (a, b) = choose|a: int, b: int| 0 <= a < w.len() && 0 <= b < w.len() && a != b && w[a] == w[b];
    let (lo, hi) = if a < b {
        (a, b)
    } else {
        (b, a)
    };
    let len = hi - lo;
    let cycle = Seq::new(len as nat, |t: int| w[hi - t]);
    assert forall|k: int| 0 <= k < cycle.len() implies #[trigger] cycle[k] < n by {
        assert(w[hi - k] < n as usize);
    }
    assert forall|k: int| 0 <= k < cycle.len() implies inputs[cycle[(k + 1) % (cycle.len() as int)] as int].contains(
        #[trigger] cycle[k],
    ) by {
        if k + 1 < len {
            vstd::arithmetic::div_mod::lemma_small_mod((k + 1) as nat, len as nat);
            lemma_walk(inputs, sorted, deg, start, (hi - k - 1) as nat);
            assert(cycle[k + 1] == w[hi - k - 1]);
            assert(walk(inputs, sorted, start, (hi - k - 1) as nat + 1) == w[hi - k]);
        } else {
            vstd::arithmetic::div_mod::lemma_mod_self_0(len);
            lemma_walk(inputs, sorted, deg, start, lo as nat);
            assert(cycle[0] == w[hi]);
            assert(cycle[k] == w[lo + 1]);
            assert(walk(inputs, sorted, start, lo as nat + 1) == w[lo + 1]);
        }
    }
    assert(is_cycle(inputs, cycle));
}

/// The nodes of the graph that take node `j` as an input.
pub open spec fn consumers(inputs: Seq<Seq<usize>>, j: usize) -> Set<usize> {
    Set::new(|i: usize| i < inputs.len() && inputs[i as int].contains(j))
}

/// How many items of `s` are not in `done`.
pub open spec fn count_missing(s: Seq<usize>, done: Seq<usize>) -> nat
    decreases s.len(),
{
    if s.len() == 0 {
        0
    } else {
        count_missing(s.drop_last(), done) + if done.contains(s.last()) {
            0nat
        } else {
            1nat
        }
    }
}

proof fn lemma_count_missing_zero(s: Seq<usize>, done: Seq<usize>)
    ensures
        count_missing(s, done) == 0 <==> forall|q: int| 0 <= q < s.len() ==> done.contains(#[trigger] s[q]),
    decreases s.len(),
{
    if s.len() > 0 {
        lemma_count_missing_zero(s.drop_last(), done);
        if count_missing(s, done) == 0 {
            assert forall|q: int| 0 <= q < s.len() implies done.contains(#[trigger] s[q]) by {
                if q < s.len() - 1 {
                    assert(s.drop_last()[q] == s[q]);
                }
            }
        }
        if forall|q: int| 0 <= q < s.len() ==> done.contains(#[trigger] s[q]) {
            assert forall|q: int| 0 <= q < s.drop_last().len() implies done.contains(
                #[trigger] s.drop_last()[q],
            ) by {
                assert(s[q] == s.drop_last()[q]);
            }
            assert(done.contains(s[s.len() - 1]));
        }
    }
}

/// How many times `x` occurs in `s`.
pub open spec fn occurrences(s: Seq<usize>, x: usize) -> nat
    decreases s.len(),
{
    if s.len() == 0 {
        0
    } else {
        occurrences(s.drop_last(), x) + if s.last() == x {
            1nat
        } else {
            0nat
        }
    }
}

proof fn lemma_occurrences_contains(s: Seq<usize>, x: usize)
    ensures
        occurrences(s, x) > 0 <==> s.contains(x),
    decreases s.len(),
{
    if s.len() > 0 {
        let r = s.drop_last();
        lemma_occurrences_contains(r, x);
        lemma_push_contains(r, s.last(), x);
        assert(s =~= r.push(s.last()));
    }
}

proof fn lemma_count_missing_push(s: Seq<usize>, done: Seq<usize>, x: usize)
    requires
        !done.contains(x),
    ensures
        count_missing(s, done.push(x)) + occurrences(s, x) == count_missing(s, done),
    decreases s.len(),
{
    if s.len() > 0 {
        let r = s.drop_last();
        lemma_count_missing_push(r, done, x);
        assert forall|y: usize| done.push(x).contains(y) <==> (done.contains(y) || y == x) by {
            lemma_push_contains(done, x, y);
        }
    }
}

/// A set of indices below `n` is finite and holds at most `n` of them.
proof fn lemma_bounded_set(s: Set<usize>, n: usize)
    requires
        forall|x: usize| s.contains(x) ==> x < n,
    ensures
        s.finite(),
        s.len() <= n,
{
    let r = Set::<usize>::range(0, n);
    vstd::set_lib::range_set_properties::<usize>(0, n);
    assert(s.subset_of(r));
    vstd::set_lib::lemma_len_subset(s, r);
}

/// A sequence without duplicates of indices below `n` has at most `n` items, and exactly
/// `n` when it holds every index below `n`.
proof fn lemma_bounded_seq(s: Seq<usize>, n: usize)
    requires
        s.no_duplicates(),
        forall|p: int| 0 <= p < s.len() ==> #[trigger] s[p] < n,
    ensures
        s.len() <= n,
        (forall|i: usize| i < n ==> s.contains(i)) ==> s.len() == n,
        s.len() == n ==> forall|i: usize| i < n ==> s.contains(i),
{
    s.unique_seq_to_set();
    let r = Set::<usize>::range(0, n);
    vstd::set_lib::range_set_properties::<usize>(0, n);
    assert forall|x: usize| s.to_set().contains(x) implies x < n by {
        let k = choose|k: int| 0 <= k < s.len() && s[k] == x;
    }
    lemma_bounded_set(s.to_set(), n);
    if forall|i: usize| i < n ==> s.contains(i) {
        assert(s.to_set() =~= r);
    }
    if s.len() == n {
        assert(s.to_set().subset_of(r));
        vstd::set_lib::lemma_subset_equality(s.to_set(), r);
        assert forall|i: usize| i < n implies s.contains(i) by {
            assert(r.contains(i));
            assert(s.to_set().contains(i));
        }
    }
}

/// A processing node: what it is, and the indices of the nodes that feed it.
pub struct Node<T> {
    /// What the node computes.
    node_type: T,
    /// Indices of input nodes.
    input_nodes: InputList,
}

impl<T> Node<T> {
    /// The indices of the nodes that feed this node.
    pub closed spec fn inputs(&self) -> Seq<usize> {
        input_list_items(self.input_nodes)
    }

    /// What the node computes.
    pub closed spec fn kind(&self) -> T {
        self.node_type
    }

    #[verifier::type_invariant]
    spec fn inv(self) -> bool {
        valid_inputs(self.inputs())
    }

    /// What the node computes.
    pub fn node_type(&self) -> (r: &T)
        ensures
            *r == self.kind(),
    {
        &self.node_type
    }

    /// A node with no inputs.
    pub fn new(node_type: T) -> (r: Node<T>)
        ensures
            r.kind() == node_type,
            r.inputs() == Seq::<usize>::empty(),
    {
        let input_nodes = InputList::new();
        proof {
            assert(input_list_items(input_nodes) =~= Seq::<usize>::empty());
        }
        Node { node_type, input_nodes }
    }

    /// Feeds the output of node `from` into this node (a node may feed several inputs).
    /// Refused (`false`, nothing changes) when the node has all its inputs already, or when
    /// `from` is not a possible node index.
    pub fn add_input(&mut self, from: usize) -> (r: bool)
        ensures
            r <==> (old(self).inputs().len() < MAX_NODE_INPUTS && from < MAX_NODES),
            r ==> final(self).inputs() == old(self).inputs().push(from),
            !r ==> final(self).inputs() == old(self).inputs(),
            final(self).kind() == old(self).kind(),
    {
        proof {
            use_type_invariant(&*self);
        }
        if from >= MAX_NODES {
            return false;
        }
        let len = self.input_nodes.len();
        if len >= MAX_NODE_INPUTS {
            return false;
        }
        let ghost before = self.inputs();
        let mut list = InputList::new();
        std::mem::swap(&mut list, &mut self.input_nodes);
        let _ = list.push(from);
        std::mem::swap(&mut list, &mut self.input_nodes);
        proof {
            assert forall|q: int| 0 <= q < self.inputs().len() implies #[trigger] self.inputs()[q]
                < MAX_NODES by {
                if q < before.len() {
                    assert(self.inputs()[q] == before[q]);
                }
            }
        }
        true
    }

    /// The number of inputs of this node.
    pub fn num_inputs(&self) -> (r: usize)
        ensures
            r == self.inputs().len(),
    {
        self.input_nodes.len()
    }

    /// The index of the node that feeds input `q` of this node.
    pub fn input(&self, q: usize) -> (r: usize)
        requires
            q < self.inputs().len(),
        ensures
            r == self.inputs()[q as int],
    {
        self.input_nodes.get(q)
    }

    /// How many inputs of this node node `from` feeds.
    pub fn count_input(&self, from: usize) -> (r: usize)
        ensures
            r == occurrences(self.inputs(), from),
    {
        proof {
            use_type_invariant(self);
        }
        let len = self.input_nodes.len();
        let mut count: usize = 0;
        let mut q: usize = 0;
        while q < len
            invariant
                len == self.inputs().len(),
                len <= MAX_NODE_INPUTS,
                q <= len,
                count == occurrences(self.inputs().take(q as int), from),
                count <= q,
            decreases len - q,
        {
            proof {
                assert(self.inputs().take(q as int + 1).drop_last() =~= self.inputs().take(q as int));
            }
            if self.input_nodes.get(q) == from {
                count = count + 1;
            }
            q = q + 1;
        }
        proof {
            assert(self.inputs().take(len as int) =~= self.inputs());
        }
        count
    }
}

proof fn lemma_count_missing_none(s: Seq<usize>)
    ensures
        count_missing(s, Seq::<usize>::empty()) == s.len(),
    decreases s.len(),
{
    if s.len() > 0 {
        lemma_count_missing_none(s.drop_last());
    }
}

/// The nodes `c` of the graph that take node `j` as an input, counting for node `i` only its
/// first `q` inputs and leaving out the nodes after it.
spec fn consumers_before(inputs: Seq<Seq<usize>>, j: usize, i: int, q: int) -> Set<usize> {
    Set::new(
        |c: usize|
            c < inputs.len() && ((c < i && inputs[c as int].contains(j)) || (c == i
                && inputs[c as int].take(q).contains(j))),
    )
}

/// Under the loop facts of the sort, every node of a topological order is among the sorted.
proof fn lemma_order_prefix_sorted(
    inputs: Seq<Seq<usize>>,
    sorted: Seq<usize>,
    deg: Seq<usize>,
    order: Seq<usize>,
    p: int,
)
    requires
        is_topological_order(inputs, order),
        0 <= p < order.len(),
        deg.len() == inputs.len(),
        forall|i: int| 0 <= i < inputs.len() ==> #[trigger] deg[i] == count_missing(inputs[i], sorted),
        forall|i: int| 0 <= i < inputs.len() && #[trigger] deg[i] == 0 ==> sorted.contains(i as usize),
    ensures
        forall|k: int| 0 <= k <= p ==> sorted.contains(#[trigger] order[k]),
    decreases p,
{
    if p > 0 {
        lemma_order_prefix_sorted(inputs, sorted, deg, order, p - 1);
    }
    let x = order[p];
    let s = inputs[x as int];
    assert forall|q: int| 0 <= q < s.len() implies sorted.contains(#[trigger] s[q]) by {
        assert(order.take(p).contains(inputs[order[p] as int][q]));
        let k = choose|k: int| 0 <= k < order.take(p).len() && order.take(p)[k] == s[q];
        assert(order[k] == s[q]);
    }
    lemma_count_missing_zero(s, sorted);
    assert(deg[x as int] == 0);
}

proof fn lemma_push_contains(s: Seq<usize>, x: usize, c: usize)
    ensures
        s.push(x).contains(c) <==> (s.contains(c) || c == x),
{
    if s.push(x).contains(c) {
        let k = choose|k: int| 0 <= k < s.push(x).len() && s.push(x)[k] == c;
        if k < s.len() {
            assert(s[k] == c);
        }
    }
    if s.contains(c) {
        let k = choose|k: int| 0 <= k < s.len() && s[k] == c;
        assert(s.push(x)[k] == c);
    }
    if c == x {
        assert(s.push(x)[s.len() as int] == c);
    }
}

/// The sorted nodes and the nodes waiting to be sorted are distinct node indices, so there
/// are at most `n` of them together.
proof fn lemma_sorted_bound(sorted: Seq<usize>, check: Seq<usize>, n: usize)
    requires
        sorted.no_duplicates(),
        check.no_duplicates(),
        forall|a: int, b: int| 0 <= a < sorted.len() && 0 <= b < check.len() ==> sorted[a] != check[b],
        forall|p: int| 0 <= p < sorted.len() ==> #[trigger] sorted[p] < n,
        forall|p: int| 0 <= p < check.len() ==> #[trigger] check[p] < n,
    ensures
        sorted.len() + check.len() <= n,
{
    vstd::seq_lib::lemma_no_dup_in_concat(sorted, check);
    let all = sorted + check;
    assert forall|p: int| 0 <= p < all.len() implies #[trigger] all[p] < n by {
        if p < sorted.len() {
            assert(all[p] == sorted[p]);
        } else {
            assert(all[p] == check[p - sorted.len()]);
        }
    }
    lemma_bounded_seq(all, n);
}

/// Facts about moving `x` from the waiting nodes to the end of the sorted ones.
proof fn lemma_push_facts(sorted: Seq<usize>, rest: Seq<usize>, x: usize, n: usize, ins: Seq<Seq<usize>>)
    requires
        sorted.no_duplicates(),
        rest.push(x).no_duplicates(),
        forall|a: int, b: int| 0 <= a < sorted.len() && 0 <= b < rest.push(x).len() ==> sorted[a] != rest.push(x)[b],
        forall|p: int| 0 <= p < sorted.len() ==> #[trigger] sorted[p] < n,
        forall|p: int| 0 <= p < rest.push(x).len() ==> #[trigger] rest.push(x)[p] < n,
    ensures
        sorted.push(x).no_duplicates(),
        rest.no_duplicates(),
        forall|a: int, b: int| 0 <= a < sorted.push(x).len() && 0 <= b < rest.len() ==> sorted.push(x)[a] != rest[b],
        forall|p: int| 0 <= p < sorted.push(x).len() ==> #[trigger] sorted.push(x)[p] < n,
        forall|p: int| 0 <= p < rest.len() ==> #[trigger] rest[p] < n,
{
    let c = rest.push(x);
    assert forall|p: int| 0 <= p < rest.len() implies #[trigger] rest[p] < n by {
        assert(c[p] == rest[p]);
    }
    assert forall|a: int, b: int| 0 <= a < rest.len() && 0 <= b < rest.len() && a != b implies rest[a] != rest[b] by {
        assert(c[a] == rest[a]);
        assert(c[b] == rest[b]);
    }
    assert forall|a: int, b: int| 0 <= a < sorted.push(x).len() && 0 <= b < rest.len() implies sorted.push(x)[a]
        != rest[b] by {
        assert(c[b] == rest[b]);
        assert(c[rest.len() as int] == x);
        if a < sorted.len() {
            assert(sorted.push(x)[a] == sorted[a]);
        }
    }
    assert forall|a: int, b: int| 0 <= a < sorted.push(x).len() && 0 <= b < sorted.push(x).len() && a != b implies sorted.push(x)[a]
        != sorted.push(x)[b] by {
        assert(c[rest.len() as int] == x);
    }
    assert forall|p: int| 0 <= p < sorted.push(x).len() implies #[trigger] sorted.push(x)[p] < n by {
        assert(c[rest.len() as int] == x);
    }
}

/// Nodes connected into a graph, with the order in which they run.
///
/// The graph holds at most `MAX_NODES` nodes. Its node list is a `Vec` whose length the
/// type invariant bounds, rather than a `heapless::Vec`: a `heapless` container is opaque
/// here and needs an uninterpreted name for its contents, and such a name cannot be generic
/// over the node payload `T` (nor over a capacity), so the generic list cannot be named.
pub struct RoutingGraph<T> {
    /// The nodes of the graph.
    nodes: Vec<Node<T>>,
    /// Order to execute the nodes in, stored as indices into the nodes.
    process_order: IndexList,
    /// Index of the buffer pool that holds the output for the left channel.
    left_output_buffer: usize,
    /// Index of the buffer pool that holds the output for the right channel.
    right_output_buffer: usize,
}

impl<T> RoutingGraph<T> {
    /// For each node, the indices of the nodes that feed it.
    pub closed spec fn inputs(&self) -> Seq<Seq<usize>> {
        Seq::new(self.nodes@.len(), |i: int| self.nodes@[i].inputs())
    }

    /// For each node, what it computes.
    pub closed spec fn kinds(&self) -> Seq<T> {
        Seq::new(self.nodes@.len(), |i: int| self.nodes@[i].kind())
    }

    /// The order in which the nodes run.
    pub closed spec fn order(&self) -> Seq<usize> {
        index_list_items(self.process_order)
    }

    /// The buffers that hold the left and the right output.
    pub closed spec fn output_buffers(&self) -> (usize, usize) {
        (self.left_output_buffer, self.right_output_buffer)
    }

    #[verifier::type_invariant]
    spec fn inv(self) -> bool {
        &&& self.nodes@.len() <= MAX_NODES
        &&& forall|i: int| 0 <= i < self.nodes@.len() ==> valid_inputs(#[trigger] self.nodes@[i].inputs())
    }

    /// An empty graph whose output goes to the given buffers.
    pub fn new(left_output_buffer: usize, right_output_buffer: usize) -> (r: RoutingGraph<T>)
        ensures
            r.inputs() == Seq::<Seq<usize>>::empty(),
            r.kinds() == Seq::<T>::empty(),
            r.order() == Seq::<usize>::empty(),
            r.output_buffers() == (left_output_buffer, right_output_buffer),
    {
        let process_order = IndexList::new();
        let r = RoutingGraph { nodes: Vec::new(), process_order, left_output_buffer, right_output_buffer };
        proof {
            assert(r.inputs() =~= Seq::<Seq<usize>>::empty());
            assert(r.kinds() =~= Seq::<T>::empty());
        }
        r
    }

    /// The number of nodes.
    pub fn len(&self) -> (r: usize)
        ensures
            r == self.inputs().len(),
            r <= MAX_NODES,
    {
        proof {
            use_type_invariant(self);
        }
        self.nodes.len()
    }

    /// Adds `node` as the last node and returns its index; hands it back when the graph holds
    /// `MAX_NODES` nodes already.
    pub fn add_node(&mut self, node: Node<T>) -> (r: Result<usize, Node<T>>)
        ensures
            old(self).inputs().len() < MAX_NODES ==> r == Ok::<usize, Node<T>>(old(self).inputs().len() as usize),
            old(self).inputs().len() < MAX_NODES ==> final(self).inputs() == old(self).inputs().push(node.inputs()),
            old(self).inputs().len() < MAX_NODES ==> final(self).kinds() == old(self).kinds().push(node.kind()),
            old(self).inputs().len() >= MAX_NODES ==> r == Err::<usize, Node<T>>(node),
            old(self).inputs().len() >= MAX_NODES ==> final(self).inputs() == old(self).inputs(),
            old(self).inputs().len() >= MAX_NODES ==> final(self).kinds() == old(self).kinds(),
            final(self).order() == old(self).order(),
            final(self).output_buffers() == old(self).output_buffers(),
    {
        proof {
            use_type_invariant(&*self);
            use_type_invariant(&node);
        }
        let len = self.nodes.len();
        if len >= MAX_NODES {
            return Err(node);
        }
        let ghost old_nodes = self.nodes@;
        let mut nodes = Vec::new();
        std::mem::swap(&mut nodes, &mut self.nodes);
        nodes.push(node);
        std::mem::swap(&mut nodes, &mut self.nodes);
        proof {
            assert(self.inputs() =~= old(self).inputs().push(node.inputs()));
            assert(self.kinds() =~= old(self).kinds().push(node.kind()));
        }
        Ok(len)
    }

    /// The node at index `i`.
    pub fn node(&self, i: usize) -> (r: &Node<T>)
        requires
            i < self.inputs().len(),
        ensures
            r.inputs() == self.inputs()[i as int],
            r.kind() == self.kinds()[i as int],
    {
        &self.nodes[i]
    }

    /// The number of entries of the process order.
    pub fn process_order_len(&self) -> (r: usize)
        ensures
            r == self.order().len(),
    {
        self.process_order.len()
    }

    /// Entry `k` of the process order: the index of the `k`-th node to run.
    pub fn process_order_at(&self, k: usize) -> (r: usize)
        requires
            k < self.order().len(),
        ensures
            r == self.order()[k as int],
    {
        self.process_order.get(k)
    }

    /// Orders the nodes so that each runs after the nodes that feed it, and stores that
    /// order as the process order. Returns `Err(())`, and leaves the process order as it
    /// was, when no such order exists: when the graph holds a cycle, or a node takes an input
    /// from an index that names no node of the graph.
    pub fn topological_sort(&mut self) -> (r: Result<(), ()>)
        ensures
            r is Ok <==> has_topological_order(old(self).inputs()),
            r is Ok ==> is_topological_order(old(self).inputs(), final(self).order()),
            r is Err ==> has_missing_input(old(self).inputs()) || exists|cycle: Seq<usize>| is_cycle(old(self).inputs(), cycle),
            r is Err ==> final(self).order() == old(self).order(),
            final(self).inputs() == old(self).inputs(),
            final(self).kinds() == old(self).kinds(),
            final(self).output_buffers() == old(self).output_buffers(),
    {
        proof {
            use_type_invariant(&*self);
        }
        let ghost ins = self.inputs();
        let n = self.nodes.len();
        // Stores indices of the nodes in a sorted order
        let mut sorted = IndexList::new();
        // The nodes that are not sorted yet and no longer wait for an input
        let mut to_check = IndexList::new();
        for i in 0..n
            invariant
                n == ins.len(),
                ins == self.inputs(),
                n <= MAX_NODES,
                index_list_items(to_check).no_duplicates(),
                forall|p: int| 0 <= p < index_list_items(to_check).len() ==> #[trigger] index_list_items(to_check)[p] < i,
                forall|c: usize| c < i ==> (index_list_items(to_check).contains(c) <==> ins[c as int].len() == 0),
                index_list_items(to_check).len() <= i,
        {
            if self.nodes[i].num_inputs() == 0 {
                let ghost before = index_list_items(to_check);
                let _ = to_check.push(i);
                proof {
                    let after = index_list_items(to_check);
                    assert forall|c: usize| c < i + 1 implies (after.contains(c) <==> ins[c as int].len() == 0) by {
                        if c < i {
                            if before.contains(c) {
                                let k = choose|k: int| 0 <= k < before.len() && before[k] == c;
                                assert(after[k] == c);
                            }
                            if after.contains(c) {
                                let k = choose|k: int| 0 <= k < after.len() && after[k] == c;
                                assert(k < before.len());
                                assert(before[k] == c);
                            }
                        } else {
                            assert(after[before.len() as int] == c);
                        }
                    }
                }
            } else {
                proof {
                    let l = index_list_items(to_check);
                    if l.contains(i) {
                        let k = choose|k: int| 0 <= k < l.len() && l[k] == i;
                    }
                }
            }
        }
        // Track how many inputs of each node are not sorted yet.
        let mut in_degree = IndexList::new();
        for i in 0..n
            invariant
                n == ins.len(),
                ins == self.inputs(),
                n <= MAX_NODES,
                index_list_items(in_degree).len() == i,
                forall|c: int| 0 <= c < i ==> #[trigger] index_list_items(in_degree)[c] == ins[c].len(),
        {
            let len = self.nodes[i].num_inputs();
            let _ = in_degree.push(len);
        }
        // For each node, the set of nodes that it feeds.
        let mut edges = self.build_edges();
        proof {
            assert forall|c: int| 0 <= c < n implies #[trigger] index_list_items(in_degree)[c] == count_missing(
                ins[c],
                index_list_items(sorted),
            ) by {
                lemma_count_missing_none(ins[c]);
            }
            assert(index_list_items(sorted) =~= Seq::<usize>::empty());
            assert forall|j: usize|
                #[trigger] edge_map_entries(edges).dom().contains(j) <==> (!index_list_items(sorted).contains(j)
                    && consumers(ins, j) != Set::<usize>::empty()) by {
                if edge_map_entries(edges).dom().contains(j) {
                    let c = choose|c: usize| c < ins.len() && #[trigger] ins[c as int].contains(j);
                    assert(consumers(ins, j).contains(c));
                }
                if consumers(ins, j) != Set::<usize>::empty() {
                    let c = consumers(ins, j).choose();
                    assert(consumers(ins, j).contains(c)) by {
                        if !consumers(ins, j).contains(c) {
                            assert(consumers(ins, j) =~= Set::<usize>::empty());
                        }
                    }
                    assert(c < ins.len() && ins[c as int].contains(j));
                }
            }
        }
        loop
            invariant
                n == ins.len(),
                ins == self.inputs(),
                n <= MAX_NODES,
                forall|c: int| 0 <= c < n ==> valid_inputs(#[trigger] ins[c]),
                index_list_items(in_degree).len() == n,
                forall|c: int| 0 <= c < n ==> #[trigger] index_list_items(in_degree)[c] == count_missing(
                    ins[c],
                    index_list_items(sorted),
                ),
                index_list_items(sorted).no_duplicates(),
                index_list_items(to_check).no_duplicates(),
                forall|a: int, b: int|
                    0 <= a < index_list_items(sorted).len() && 0 <= b < index_list_items(to_check).len() ==> index_list_items(sorted)[a]
                        != index_list_items(to_check)[b],
                forall|p: int| 0 <= p < index_list_items(sorted).len() ==> #[trigger] index_list_items(sorted)[p] < n,
                forall|p: int| 0 <= p < index_list_items(to_check).len() ==> #[trigger] index_list_items(to_check)[p] < n,
                forall|c: usize|
                    c < n ==> (#[trigger] index_list_items(in_degree)[c as int] == 0 <==> (index_list_items(sorted).contains(c)
                        || index_list_items(to_check).contains(c))),
                forall|p: int, q: int|
                    0 <= p < index_list_items(sorted).len() && 0 <= q < ins[index_list_items(sorted)[p] as int].len()
                        ==> index_list_items(sorted).take(p).contains(#[trigger] ins[index_list_items(sorted)[p] as int][q]),
                edge_map_entries(edges).dom().finite(),
                forall|j: usize|
                    #[trigger] edge_map_entries(edges).dom().contains(j) <==> (!index_list_items(sorted).contains(j)
                        && consumers(ins, j) != Set::<usize>::empty()),
                forall|j: usize|
                    #[trigger] edge_map_entries(edges).dom().contains(j) ==> edge_map_entries(edges)[j] == consumers(ins, j),
            ensures
                index_list_items(to_check).len() == 0,
            decreases n - index_list_items(sorted).len(),
        {
            let ghost old_sorted = index_list_items(sorted);
            let ghost old_check = index_list_items(to_check);
            proof {
                lemma_sorted_bound(old_sorted, old_check, n);
            }
            let next = to_check.pop();
            let from = match next {
                None => break,
                Some(from) => from,
            };
            let ghost rest = index_list_items(to_check);
            proof {
                assert(old_check =~= rest.push(from));
                assert(old_check[old_check.len() - 1] == from);
                assert(old_check.contains(from));
                assert(!old_sorted.contains(from)) by {
                    if old_sorted.contains(from) {
                        let k = choose|k: int| 0 <= k < old_sorted.len() && old_sorted[k] == from;
                        assert(old_sorted[k] != old_check[old_check.len() - 1]);
                    }
                }
                // every input of `from` is sorted already
                assert(index_list_items(in_degree)[from as int] == 0);
                lemma_count_missing_zero(ins[from as int], old_sorted);
            }
            let _ = sorted.push(from);
            let ghost new_sorted = index_list_items(sorted);
            proof {
                assert(new_sorted == old_sorted.push(from));
                lemma_push_facts(old_sorted, rest, from, n, ins);
                assert forall|c: usize| c < n implies #[trigger] new_sorted.contains(c) <==> (old_sorted.contains(c) || c == from) by {
                    lemma_push_contains(old_sorted, from, c);
                }
                assert forall|c: usize| c < n implies #[trigger] old_check.contains(c) <==> (rest.contains(c) || c == from) by {
                    lemma_push_contains(rest, from, c);
                }
            }
            let removed = edges.remove(from);
            match removed {
                None => {
                    proof {
                        // nobody takes `from` as an input
                        assert(consumers(ins, from) == Set::<usize>::empty());
                        assert forall|c: int| 0 <= c < n implies #[trigger] index_list_items(in_degree)[c]
                            == count_missing(ins[c], new_sorted) by {
                            lemma_count_missing_push(ins[c], old_sorted, from);
                            lemma_occurrences_contains(ins[c], from);
                            if ins[c].contains(from) {
                                assert(consumers(ins, from).contains(c as usize));
                            }
                        }
                    }
                },
                Some(out) => {
                    let outgoing = out.to_list();
                    let m = outgoing.len();
                    let ghost outs = index_list_items(outgoing);
                    proof {
                        assert(outs.to_set() == consumers(ins, from));
                        assert forall|k: int| 0 <= k < outs.len() implies #[trigger] outs[k] < n by {
                            assert(outs.to_set().contains(outs[k]));
                        }
                    }
                    for k in 0..m
                        invariant
                            n == ins.len(),
                            ins == self.inputs(),
                            n <= MAX_NODES,
                            m == outs.len(),
                            outs == index_list_items(outgoing),
                            outs.no_duplicates(),
                            outs.to_set() == consumers(ins, from),
                            forall|k2: int| 0 <= k2 < outs.len() ==> #[trigger] outs[k2] < n,
                            forall|c: int| 0 <= c < n ==> valid_inputs(#[trigger] ins[c]),
                            new_sorted == index_list_items(sorted),
                            new_sorted == old_sorted.push(from),
                            !old_sorted.contains(from),
                            new_sorted.no_duplicates(),
                            forall|p: int| 0 <= p < new_sorted.len() ==> #[trigger] new_sorted[p] < n,
                            index_list_items(to_check).no_duplicates(),
                            forall|a: int, b: int|
                                0 <= a < new_sorted.len() && 0 <= b < index_list_items(to_check).len() ==> new_sorted[a]
                                    != index_list_items(to_check)[b],
                            forall|p: int| 0 <= p < index_list_items(to_check).len() ==> #[trigger] index_list_items(to_check)[p] < n,
                            index_list_items(in_degree).len() == n,
                            forall|c: int|
                                0 <= c < n ==> #[trigger] index_list_items(in_degree)[c] + (if outs.take(k as int).contains(c as usize) {
                                    occurrences(ins[c], from)
                                } else {
                                    0nat
                                }) == count_missing(ins[c], old_sorted),
                            forall|c: usize|
                                c < n ==> (#[trigger] index_list_items(in_degree)[c as int] == 0 <==> (new_sorted.contains(c)
                                    || index_list_items(to_check).contains(c))),
                    {
                        let to = outgoing.get(k);
                        let ghost tc = index_list_items(to_check);
                        proof {
                            assert(consumers(ins, from).contains(to)) by {
                                assert(outs.to_set().contains(outs[k as int]));
                            }
                            assert(ins[to as int].contains(from));
                            assert(!outs.take(k as int).contains(to)) by {
                                if outs.take(k as int).contains(to) {
                                    let k2 = choose|k2: int| 0 <= k2 < k && outs.take(k as int)[k2] == to;
                                    assert(outs[k2] == outs[k as int]);
                                }
                            }
                            lemma_count_missing_push(ins[to as int], old_sorted, from);
                            lemma_occurrences_contains(ins[to as int], from);
                            assert(index_list_items(in_degree)[to as int] >= occurrences(ins[to as int], from));
                            assert(index_list_items(in_degree)[to as int] > 0);
                            assert(outs.take(k as int + 1) =~= outs.take(k as int).push(to));
                            assert(self.nodes@[to as int].inputs() == ins[to as int]);
                        }
                        // every input of `to` that `from` feeds is satisfied now
                        let fed = self.nodes[to].count_input(from);
                        let d = in_degree.get(to) - fed;
                        in_degree.set(to, d);
                        if d == 0 {
                            proof {
                                assert(!new_sorted.contains(to));
                                assert(!tc.contains(to));
                                lemma_sorted_bound(new_sorted, tc.push(to), n);
                            }
                            let _ = to_check.push(to);
                            proof {
                                assert(index_list_items(to_check) == tc.push(to));
                                assert forall|c: usize| c < n implies #[trigger] index_list_items(to_check).contains(c) <==> (tc.contains(c) || c == to) by {
                                    lemma_push_contains(tc, to, c);
                                }
                            }
                        }
                        proof {
                            assert forall|c: int|
                                0 <= c < n implies #[trigger] index_list_items(in_degree)[c] + (if outs.take(k as int + 1).contains(c as usize) {
                                    occurrences(ins[c], from)
                                } else {
                                    0nat
                                }) == count_missing(ins[c], old_sorted) by {
                                lemma_push_contains(outs.take(k as int), to, c as usize);
                            }
                        }
                    }
                    proof {
                        assert(outs.take(m as int) =~= outs);
                        assert forall|c: int| 0 <= c < n implies #[trigger] index_list_items(in_degree)[c]
                            == count_missing(ins[c], new_sorted) by {
                            lemma_count_missing_push(ins[c], old_sorted, from);
                            lemma_occurrences_contains(ins[c], from);
                            assert(ins[c].contains(from) <==> outs.contains(c as usize)) by {
                                assert(outs.to_set().contains(c as usize) <==> consumers(ins, from).contains(c as usize));
                            }
                        }
                    }
                },
            }
            proof {
                let s2 = index_list_items(sorted);
                assert forall|p: int, q: int|
                    0 <= p < s2.len() && 0 <= q < ins[s2[p] as int].len() implies s2.take(p).contains(
                        #[trigger] ins[s2[p] as int][q],
                    ) by {
                    if p < old_sorted.len() {
                        assert(s2.take(p) =~= old_sorted.take(p));
                        assert(s2[p] == old_sorted[p]);
                    } else {
                        assert(s2.take(p) =~= old_sorted);
                        assert(old_sorted.contains(ins[from as int][q]));
                    }
                }
                assert forall|j: usize|
                    #[trigger] edge_map_entries(edges).dom().contains(j) <==> (!s2.contains(j)
                        && consumers(ins, j) != Set::<usize>::empty()) by {
                    lemma_push_contains(old_sorted, from, j);
                }
            }
        }
        if !edges.is_empty() {
            proof {
                self.lemma_left_over(index_list_items(sorted), index_list_items(in_degree), edge_map_entries(edges));
            }
            return Err(());
        }
        proof {
            let s2 = index_list_items(sorted);
            let deg = index_list_items(in_degree);
            assert forall|c: usize| c < n implies s2.contains(c) by {
                assert forall|q: int| 0 <= q < ins[c as int].len() implies s2.contains(#[trigger] ins[c as int][q]) by {
                    let j = ins[c as int][q];
                    assert(consumers(ins, j).contains(c));
                    if !s2.contains(j) {
                        assert(edge_map_entries(edges).dom().contains(j));
                        assert(edge_map_entries(edges).dom() =~= Set::<usize>::empty());
                    }
                }
                lemma_count_missing_zero(ins[c as int], s2);
                assert(deg[c as int] == 0);
            }
            lemma_bounded_seq(s2, n);
            assert(is_topological_order(ins, s2));
        }
        self.process_order = sorted;
        Ok(())
    }

    /// When the sort stops with nodes left over, no topological order exists, and some
    /// input names no node or the graph holds a cycle.
    proof fn lemma_left_over(&self, sorted: Seq<usize>, deg: Seq<usize>, edges: Map<usize, Set<usize>>)
        requires
            self.inputs().len() <= MAX_NODES,
            deg.len() == self.inputs().len(),
            forall|c: int| 0 <= c < self.inputs().len() ==> #[trigger] deg[c] == count_missing(self.inputs()[c], sorted),
            forall|c: usize| c < self.inputs().len() ==> (#[trigger] deg[c as int] == 0 <==> sorted.contains(c)),
            forall|j: usize|
                #[trigger] edges.dom().contains(j) <==> (!sorted.contains(j) && consumers(self.inputs(), j) != Set::<usize>::empty()),
            edges.dom() != Set::<usize>::empty(),
        ensures
            !has_topological_order(self.inputs()),
            has_missing_input(self.inputs()) || exists|cycle: Seq<usize>| is_cycle(self.inputs(), cycle),
    {
        let ins = self.inputs();
        // a node `j` that is not sorted, and a node `c` that it feeds
        let j = edges.dom().choose();
        assert(edges.dom().contains(j)) by {
            if !edges.dom().contains(j) {
                assert(edges.dom() =~= Set::<usize>::empty());
            }
        }
        let c = consumers(ins, j).choose();
        assert(consumers(ins, j).contains(c)) by {
            if !consumers(ins, j).contains(c) {
                assert(consumers(ins, j) =~= Set::<usize>::empty());
            }
        }
        assert forall|c2: int| 0 <= c2 < ins.len() && #[trigger] deg[c2] == 0 implies sorted.contains(c2 as usize) by {
            assert(deg[(c2 as usize) as int] == 0);
        }
        if !has_missing_input(ins) {
            // `c` waits for `j`, which is not sorted, so `c` is not sorted either
            lemma_count_missing_zero(ins[c as int], sorted);
            let qj = choose|qj: int| 0 <= qj < ins[c as int].len() && ins[c as int][qj] == j;
            assert(!sorted.contains(ins[c as int][qj]));
            assert(deg[c as int] != 0);
            lemma_stuck_has_cycle(ins, sorted, deg, c);
        }
        assert forall|order: Seq<usize>| !is_topological_order(ins, order) by {
            if is_topological_order(ins, order) {
                let n = ins.len();
                assert forall|p: int| 0 <= p < order.len() implies #[trigger] order[p] < n as usize by {}
                lemma_bounded_seq(order, n as usize);
                assert(order.contains(c));
                let pc = choose|pc: int| 0 <= pc < order.len() && order[pc] == c;
                lemma_order_prefix_sorted(ins, sorted, deg, order, pc);
                let qj = choose|qj: int| 0 <= qj < ins[c as int].len() && ins[c as int][qj] == j;
                assert(order.take(pc).contains(ins[order[pc] as int][qj]));
                let pj = choose|pj: int| 0 <= pj < order.take(pc).len() && order.take(pc)[pj] == j;
                assert(order[pj] == j);
                assert(sorted.contains(order[pj]));
            }
        }
    }

    /// Maps each node that feeds some node to the set of the nodes that it feeds.
    fn build_edges(&self) -> (edges: EdgeMap)
        ensures
            edge_map_entries(edges).dom().finite(),
            forall|j: usize|
                #![trigger edge_map_entries(edges).dom().contains(j)]
                edge_map_entries(edges).dom().contains(j) <==> exists|c: usize|
                    c < self.inputs().len() && #[trigger] self.inputs()[c as int].contains(j),
            forall|j: usize|
                #[trigger] edge_map_entries(edges).dom().contains(j) ==> edge_map_entries(edges)[j]
                    == consumers(self.inputs(), j),
    {
        proof {
            use_type_invariant(self);
        }
        let ghost ins = self.inputs();
        let n = self.nodes.len();
        let mut edges = EdgeMap::new();
        proof {
            assert forall|j: usize| consumers_before(ins, j, 0, 0) =~= Set::<usize>::empty() by {}
        }
        for i in 0..n
            invariant
                n == ins.len(),
                ins == self.inputs(),
                n <= MAX_NODES,
                forall|c: int| 0 <= c < n ==> valid_inputs(#[trigger] ins[c]),
                edge_map_entries(edges).dom().finite(),
                forall|j: usize|
                    #[trigger] edge_map_entries(edges).dom().contains(j) <==> consumers_before(ins, j, i as int, 0)
                        != Set::<usize>::empty(),
                forall|j: usize|
                    #[trigger] edge_map_entries(edges).dom().contains(j) ==> edge_map_entries(edges)[j]
                        == consumers_before(ins, j, i as int, 0),
                forall|j: usize| #[trigger] edge_map_entries(edges).dom().contains(j) ==> j < MAX_NODES,
        {
            let node = &self.nodes[i];
            let m = node.num_inputs();
            assert(node.inputs() == ins[i as int]);
            for q in 0..m
                invariant
                    n == ins.len(),
                    ins == self.inputs(),
                    n <= MAX_NODES,
                    i < n,
                    m == ins[i as int].len(),
                    node.inputs() == ins[i as int],
                    forall|c: int| 0 <= c < n ==> valid_inputs(#[trigger] ins[c]),
                    edge_map_entries(edges).dom().finite(),
                    forall|j: usize|
                        #[trigger] edge_map_entries(edges).dom().contains(j) <==> consumers_before(ins, j, i as int, q as int)
                            != Set::<usize>::empty(),
                    forall|j: usize|
                        #[trigger] edge_map_entries(edges).dom().contains(j) ==> edge_map_entries(edges)[j]
                            == consumers_before(ins, j, i as int, q as int),
                    forall|j: usize| #[trigger] edge_map_entries(edges).dom().contains(j) ==> j < MAX_NODES,
            {
                let j = node.input(q);
                let ghost before = edge_map_entries(edges);
                proof {
                    assert(j < MAX_NODES);
                }
                let mut conns = match edges.remove(j) {
                    Some(c) => c,
                    None => NodeSet::new(),
                };
                proof {
                    if before.dom().contains(j) {
                        assert(node_set_items(conns) == consumers_before(ins, j, i as int, q as int));
                    } else {
                        assert(consumers_before(ins, j, i as int, q as int) == Set::<usize>::empty());
                    }
                    let cs = node_set_items(conns);
                    assert forall|c: usize| cs.insert(i).contains(c) implies c < MAX_NODES by {}
                    lemma_bounded_set(cs.insert(i), MAX_NODES as usize);
                    lemma_bounded_set(cs, MAX_NODES as usize);
                    let d = edge_map_entries(edges).dom();
                    assert forall|k: usize| d.insert(j).contains(k) implies k < MAX_NODES by {
                        if k != j {
                            assert(before.dom().contains(k));
                        }
                    }
                    lemma_bounded_set(d.insert(j), MAX_NODES as usize);
                }
                let ghost cs = node_set_items(conns);
                let _ = conns.insert(i);
                proof {
                    assert(node_set_items(conns) =~= cs.insert(i));
                }
                let _ = edges.insert(j, conns);
                proof {
                    let qn = q as int + 1;
                    assert(ins[i as int].take(qn) =~= ins[i as int].take(q as int).push(j));
                    assert forall|k: usize|
                        consumers_before(ins, k, i as int, qn) =~= if k == j {
                            consumers_before(ins, k, i as int, q as int).insert(i)
                        } else {
                            consumers_before(ins, k, i as int, q as int)
                        } by {
                        assert forall|x: usize| ins[i as int].take(qn).contains(x) <==> (
                            ins[i as int].take(q as int).contains(x) || x == j) by {
                            if ins[i as int].take(qn).contains(x) {
                                let k2 = choose|k2: int| 0 <= k2 < qn && ins[i as int].take(qn)[k2] == x;
                                if k2 < q {
                                    assert(ins[i as int].take(q as int)[k2] == x);
                                }
                            }
                            if ins[i as int].take(q as int).contains(x) {
                                let k2 = choose|k2: int| 0 <= k2 < q && ins[i as int].take(q as int)[k2] == x;
                                assert(ins[i as int].take(qn)[k2] == x);
                            }
                            if x == j {
                                assert(ins[i as int].take(qn)[q as int] == x);
                            }
                        }
                    }
                    assert forall|k: usize|
                        #[trigger] edge_map_entries(edges).dom().contains(k) <==> consumers_before(ins, k, i as int, qn)
                            != Set::<usize>::empty() by {
                        if k == j {
                            assert(consumers_before(ins, k, i as int, qn).contains(i));
                        } else {
                            assert(consumers_before(ins, k, i as int, qn) == consumers_before(ins, k, i as int, q as int));
                        }
                    }
                    assert forall|k: usize|
                        #[trigger] edge_map_entries(edges).dom().contains(k) implies edge_map_entries(edges)[k]
                            == consumers_before(ins, k, i as int, qn) by {
                        if k != j {
                            assert(consumers_before(ins, k, i as int, qn) == consumers_before(ins, k, i as int, q as int));
                        }
                    }
                }
            }
            proof {
                assert(ins[i as int].take(m as int) =~= ins[i as int]);
                assert forall|k: usize| consumers_before(ins, k, i as int, m as int) =~= consumers_before(ins, k, i as int + 1, 0) by {
                    assert(ins[i as int + 1 - 1].take(0) =~= Seq::<usize>::empty());
                }
            }
        }
        proof {
            assert forall|k: usize| consumers_before(ins, k, n as int, 0) =~= consumers(ins, k) by {}
            assert forall|j: usize|
                #![trigger edge_map_entries(edges).dom().contains(j)]
                edge_map_entries(edges).dom().contains(j) <==> exists|c: usize|
                    c < ins.len() && #[trigger] ins[c as int].contains(j) by {
                if edge_map_entries(edges).dom().contains(j) {
                    assert(consumers_before(ins, j, n as int, 0) != Set::<usize>::empty());
                    let c = consumers_before(ins, j, n as int, 0).choose();
                    assert(consumers_before(ins, j, n as int, 0).contains(c)) by {
                        if !consumers_before(ins, j, n as int, 0).contains(c) {
                            assert(consumers_before(ins, j, n as int, 0) =~= Set::<usize>::empty());
                        }
                    }
                    assert(consumers(ins, j).contains(c));
                }
                if exists|c: usize| c < ins.len() && #[trigger] ins[c as int].contains(j) {
                    let c = choose|c: usize| c < ins.len() && #[trigger] ins[c as int].contains(j);
                    assert(consumers_before(ins, j, n as int, 0).contains(c));
                }
            }
        }
        edges
    }
}

} // verus!

//! The undirected weighted graph.
//!
//! Adjacency is an association vector from node id to that node's edge set;
//! a second association vector holds the node records.  The well-formedness
//! predicate [`Graph::wf`] captures the container's invariants: unique keys,
//! destination-keyed edge sets, symmetry of the adjacency, weights at least
//! one, every destination backed by a node record, and degree counters equal
//! to the number of distinct incident edges.

use vstd::prelude::*;

use crate::edge::Edge;
use crate::node::Node;

verus! {

/// The errors a graph operation can report.
#[derive(Clone, Copy, Debug, PartialEq, Eq, Structural)]
pub enum GraphError {
    /// An edge weight below one was supplied: a contract violation.
    InvalidWeight,
    /// An edge was offered whose two endpoints are the same node.
    SelfLoop,
    /// An edge or node record that the operation needs does not exist.
    NotFound,
    /// The complement of a complete graph was requested.
    AlreadyComplete,
}

/// One adjacency row: a node id and the edge set incident to it.
pub struct AdjRow {
    pub node: usize,
    pub edges: Vec<Edge>,
}

/// An undirected weighted graph.
///
/// `order` is the declared node count, set by the input source; it caps how
/// many node records `add_node` registers, independently of which ids they
/// carry.
pub struct Graph {
    pub adj_list: Vec<AdjRow>,
    pub node_list: Vec<Node>,
    pub order: usize,
}

// ---------------------------------------------------------------------------
// Specification functions over edge lists (one node's edge set).
// ---------------------------------------------------------------------------

/// The list holds a descriptor whose destination is `d`.
pub open spec fn list_has(s: Seq<Edge>, d: int) -> bool {
    exists|k: int| 0 <= k < s.len() && s[k].dest as int == d
}

/// The position of the descriptor for destination `d`.
pub open spec fn list_idx(s: Seq<Edge>, d: int) -> int {
    choose|k: int| 0 <= k < s.len() && s[k].dest as int == d
}

/// The weight carried by the descriptor for destination `d`.
pub open spec fn list_weight(s: Seq<Edge>, d: int) -> int {
    s[list_idx(s, d)].weight as int
}

/// No two descriptors in the list share a destination: the list behaves as a
/// set keyed by neighbour id.
pub open spec fn list_unique(s: Seq<Edge>) -> bool {
    forall|k1: int, k2: int| 0 <= k1 < k2 < s.len() ==> s[k1].dest != s[k2].dest
}

// ---------------------------------------------------------------------------
// Specification functions over adjacency rows.
// ---------------------------------------------------------------------------

/// Some row carries key `a`.
pub open spec fn rows_has(s: Seq<AdjRow>, a: int) -> bool {
    exists|i: int| 0 <= i < s.len() && s[i].node as int == a
}

/// The position of the row keyed `a`.
pub open spec fn rows_idx(s: Seq<AdjRow>, a: int) -> int {
    choose|i: int| 0 <= i < s.len() && s[i].node as int == a
}

/// The edge set recorded for node `a`; absent rows read as the empty set.
pub open spec fn rows_edges(s: Seq<AdjRow>, a: int) -> Seq<Edge> {
    if rows_has(s, a) {
        s[rows_idx(s, a)].edges@
    } else {
        Seq::<Edge>::empty()
    }
}

/// No two rows share a key.
pub open spec fn rows_keys_unique(s: Seq<AdjRow>) -> bool {
    forall|i: int, j: int| 0 <= i < j < s.len() ==> s[i].node != s[j].node
}

/// The total number of edge descriptors over all rows.
pub open spec fn rows_ends(s: Seq<AdjRow>) -> nat
    decreases s.len(),
{
    if s.len() == 0 {
        0
    } else {
        rows_ends(s.drop_last()) + s.last().edges@.len()
    }
}

// ---------------------------------------------------------------------------
// Specification functions over node record lists.
// ---------------------------------------------------------------------------

/// Some record carries id `a`.
pub open spec fn recs_has(s: Seq<Node>, a: int) -> bool {
    exists|i: int| 0 <= i < s.len() && s[i].id as int == a
}

/// The position of the record with id `a`.
pub open spec fn recs_idx(s: Seq<Node>, a: int) -> int {
    choose|i: int| 0 <= i < s.len() && s[i].id as int == a
}

/// The record with id `a`.
pub open spec fn recs_at(s: Seq<Node>, a: int) -> Node {
    s[recs_idx(s, a)]
}

/// No two records share an id.
pub open spec fn recs_ids_unique(s: Seq<Node>) -> bool {
    forall|i: int, j: int| 0 <= i < j < s.len() ==> s[i].id != s[j].id
}

// ---------------------------------------------------------------------------
// Lemmas about row lookup under unique keys.
// ---------------------------------------------------------------------------

/// Under unique keys the row lookup is determined: `rows_idx` names the one
/// row keyed `a`.
pub proof fn lemma_rows_idx(s: Seq<AdjRow>, a: int)
    requires
        rows_keys_unique(s),
        rows_has(s, a),
    ensures
        0 <= rows_idx(s, a) < s.len(),
        s[rows_idx(s, a)].node as int == a,
        forall|j: int| 0 <= j < s.len() && s[j].node as int == a ==> j == rows_idx(s, a),
        rows_edges(s, a) == s[rows_idx(s, a)].edges@,
{
    let i = rows_idx(s, a);
    assert(0 <= i < s.len() && s[i].node as int == a);
}

/// Replacing the edge set of one row changes only that key's edge set.
pub proof fn lemma_rows_update(s: Seq<AdjRow>, i: int, r: AdjRow)
    requires
        rows_keys_unique(s),
        0 <= i < s.len(),
        r.node == s[i].node,
    ensures
        rows_keys_unique(s.update(i, r)),
        forall|b: int| rows_has(s.update(i, r), b) == rows_has(s, b),
        rows_edges(s.update(i, r), s[i].node as int) == r.edges@,
        forall|b: int| b != s[i].node as int ==> rows_edges(s.update(i, r), b) == rows_edges(s, b),
{
    let s2 = s.update(i, r);
    let key = s[i].node as int;
    assert forall|b: int| rows_has(s2, b) == rows_has(s, b) by {
        if rows_has(s2, b) {
            let j = rows_idx(s2, b);
            assert(s[j].node as int == b);
        }
        if rows_has(s, b) {
            let j = rows_idx(s, b);
            assert(s2[j].node as int == b);
        }
    }
    assert(rows_has(s2, key)) by {
        assert(s2[i].node as int == key);
    }
    lemma_rows_idx(s2, key);
    assert(rows_idx(s2, key) == i);
    assert forall|b: int| b != key implies rows_edges(s2, b) == rows_edges(s, b) by {
        if rows_has(s, b) {
            lemma_rows_idx(s, b);
            let j = rows_idx(s, b);
            assert(j != i);
            assert(s2[j].node as int == b);
            lemma_rows_idx(s2, b);
            assert(rows_idx(s2, b) == j);
        }
    }
}

/// Appending a row with a fresh key adds that key and changes nothing else.
pub proof fn lemma_rows_push(s: Seq<AdjRow>, r: AdjRow)
    requires
        rows_keys_unique(s),
        !rows_has(s, r.node as int),
    ensures
        rows_keys_unique(s.push(r)),
        forall|b: int| rows_has(s.push(r), b) == (rows_has(s, b) || b == r.node as int),
        rows_edges(s.push(r), r.node as int) == r.edges@,
        forall|b: int| b != r.node as int ==> rows_edges(s.push(r), b) == rows_edges(s, b),
{
    let s2 = s.push(r);
    let key = r.node as int;
    assert forall|i: int, j: int| 0 <= i < j < s2.len() implies s2[i].node != s2[j].node by {
        if j == s.len() {
            assert(s2[i] == s[i]);
            assert(s[i].node as int != key) by {
                if s[i].node as int == key {
                    assert(rows_has(s, key));
                }
            }
        }
    }
    assert forall|b: int| rows_has(s2, b) == (rows_has(s, b) || b == key) by {
        if rows_has(s2, b) {
            let j = rows_idx(s2, b);
            if j < s.len() {
                assert(s[j].node as int == b);
            }
        }
        if rows_has(s, b) {
            let j = rows_idx(s, b);
            assert(s2[j].node as int == b);
        }
        assert(s2[s.len() as int].node as int == key);
    }
    lemma_rows_idx(s2, key);
    assert(rows_idx(s2, key) == s.len());
    assert forall|b: int| b != key implies rows_edges(s2, b) == rows_edges(s, b) by {
        if rows_has(s, b) {
            lemma_rows_idx(s, b);
            let j = rows_idx(s, b);
            assert(s2[j].node as int == b);
            lemma_rows_idx(s2, b);
            assert(rows_idx(s2, b) == j);
        }
    }
}

/// Removing a row deletes its key and changes nothing else.
pub proof fn lemma_rows_remove(s: Seq<AdjRow>, i: int)
    requires
        rows_keys_unique(s),
        0 <= i < s.len(),
    ensures
        rows_keys_unique(s.remove(i)),
        !rows_has(s.remove(i), s[i].node as int),
        forall|b: int|
            b != s[i].node as int ==> rows_has(s.remove(i), b) == rows_has(s, b) && rows_edges(
                s.remove(i),
                b,
            ) == rows_edges(s, b),
{
    let s2 = s.remove(i);
    let key = s[i].node as int;
    assert forall|i2: int, j2: int| 0 <= i2 < j2 < s2.len() implies s2[i2].node != s2[j2].node by {
        let oi = if i2 < i { i2 } else { i2 + 1 };
        let oj = if j2 < i { j2 } else { j2 + 1 };
        assert(s2[i2] == s[oi]);
        assert(s2[j2] == s[oj]);
    }
    assert forall|j: int| 0 <= j < s2.len() implies s2[j].node as int != key by {
        let oj = if j < i { j } else { j + 1 };
        assert(s2[j] == s[oj]);
        assert(oj != i);
    }
    assert forall|b: int| b != key implies rows_has(s2, b) == rows_has(s, b) && rows_edges(s2, b)
        == rows_edges(s, b) by {
        if rows_has(s, b) {
            lemma_rows_idx(s, b);
            let j = rows_idx(s, b);
            assert(j != i);
            let j2 = if j < i { j } else { j - 1 };
            assert(s2[j2] == s[j]);
            assert(rows_has(s2, b));
            lemma_rows_idx(s2, b);
            assert(rows_idx(s2, b) == j2);
        }
        if rows_has(s2, b) {
            let j2 = rows_idx(s2, b);
            let oj = if j2 < i { j2 } else { j2 + 1 };
            assert(s2[j2] == s[oj]);
        }
    }
}

// ---------------------------------------------------------------------------
// Lemmas about the descriptor total.
// ---------------------------------------------------------------------------

pub proof fn lemma_ends_push(s: Seq<AdjRow>, r: AdjRow)
    ensures
        rows_ends(s.push(r)) == rows_ends(s) + r.edges@.len(),
{
    assert(s.push(r).drop_last() =~= s);
    assert(s.push(r).last() == r);
}

pub proof fn lemma_ends_update(s: Seq<AdjRow>, i: int, r: AdjRow)
    requires
        0 <= i < s.len(),
    ensures
        rows_ends(s.update(i, r)) + s[i].edges@.len() == rows_ends(s) + r.edges@.len(),
    decreases s.len(),
{
    let s2 = s.update(i, r);
    if i == s.len() - 1 {
        assert(s2.drop_last() =~= s.drop_last());
        assert(s2.last() == r);
    } else {
        assert(s2.drop_last() =~= s.drop_last().update(i, r));
        lemma_ends_update(s.drop_last(), i, r);
        assert(s2.last() == s.last());
    }
}

pub proof fn lemma_ends_remove(s: Seq<AdjRow>, i: int)
    requires
        0 <= i < s.len(),
    ensures
        rows_ends(s.remove(i)) + s[i].edges@.len() == rows_ends(s),
    decreases s.len(),
{
    let s2 = s.remove(i);
    if i == s.len() - 1 {
        assert(s2 =~= s.drop_last());
    } else {
        assert(s2.drop_last() =~= s.drop_last().remove(i));
        lemma_ends_remove(s.drop_last(), i);
        assert(s2.last() == s.last());
    }
}

pub proof fn lemma_ends_prefix(s: Seq<AdjRow>, i: int)
    requires
        0 <= i < s.len(),
    ensures
        rows_ends(s.subrange(0, i + 1)) == rows_ends(s.subrange(0, i)) + s[i].edges@.len(),
{
    assert(s.subrange(0, i + 1).drop_last() =~= s.subrange(0, i));
    assert(s.subrange(0, i + 1).last() == s[i]);
}

pub proof fn lemma_ends_prefix_bound(s: Seq<AdjRow>, i: int)
    requires
        0 <= i <= s.len(),
    ensures
        rows_ends(s.subrange(0, i)) <= rows_ends(s),
    decreases s.len() - i,
{
    if i == s.len() {
        assert(s.subrange(0, i) =~= s);
    } else {
        lemma_ends_prefix(s, i);
        lemma_ends_prefix_bound(s, i + 1);
    }
}

/// One row's edge set is no larger than the descriptor total.
pub proof fn lemma_row_le_ends(s: Seq<AdjRow>, i: int)
    requires
        0 <= i < s.len(),
    ensures
        s[i].edges@.len() <= rows_ends(s),
    decreases s.len(),
{
    if i < s.len() - 1 {
        lemma_row_le_ends(s.drop_last(), i);
    }
}

// ---------------------------------------------------------------------------
// Lemmas about record lookup under unique ids.
// ---------------------------------------------------------------------------

/// Under unique ids the record lookup is determined.
pub proof fn lemma_recs_idx(s: Seq<Node>, a: int)
    requires
        recs_ids_unique(s),
        recs_has(s, a),
    ensures
        0 <= recs_idx(s, a) < s.len(),
        s[recs_idx(s, a)].id as int == a,
        forall|j: int| 0 <= j < s.len() && s[j].id as int == a ==> j == recs_idx(s, a),
        recs_at(s, a) == s[recs_idx(s, a)],
{
    let i = recs_idx(s, a);
    assert(0 <= i < s.len() && s[i].id as int == a);
}

/// Replacing one record (keeping its id) changes only that id's record.
pub proof fn lemma_recs_update(s: Seq<Node>, j: int, n: Node)
    requires
        recs_ids_unique(s),
        0 <= j < s.len(),
        n.id == s[j].id,
    ensures
        recs_ids_unique(s.update(j, n)),
        forall|b: int| recs_has(s.update(j, n), b) == recs_has(s, b),
        recs_at(s.update(j, n), s[j].id as int) == n,
        forall|b: int|
            b != s[j].id as int && recs_has(s, b) ==> recs_at(s.update(j, n), b) == recs_at(s, b),
{
    let s2 = s.update(j, n);
    let key = s[j].id as int;
    assert forall|b: int| recs_has(s2, b) == recs_has(s, b) by {
        if recs_has(s2, b) {
            let k = recs_idx(s2, b);
            assert(s[k].id as int == b);
        }
        if recs_has(s, b) {
            let k = recs_idx(s, b);
            assert(s2[k].id as int == b);
        }
    }
    assert(recs_has(s2, key)) by {
        assert(s2[j].id as int == key);
    }
    lemma_recs_idx(s2, key);
    assert(recs_idx(s2, key) == j);
    assert forall|b: int| b != key && recs_has(s, b) implies recs_at(s2, b) == recs_at(s, b) by {
        if recs_has(s, b) {
            lemma_recs_idx(s, b);
            let k = recs_idx(s, b);
            assert(s2[k].id as int == b);
            lemma_recs_idx(s2, b);
            assert(recs_idx(s2, b) == k);
        }
    }
}

/// Appending a record with a fresh id adds that id and changes nothing else.
pub proof fn lemma_recs_push(s: Seq<Node>, n: Node)
    requires
        recs_ids_unique(s),
        !recs_has(s, n.id as int),
    ensures
        recs_ids_unique(s.push(n)),
        forall|b: int| recs_has(s.push(n), b) == (recs_has(s, b) || b == n.id as int),
        recs_at(s.push(n), n.id as int) == n,
        forall|b: int| b != n.id as int && recs_has(s, b) ==> recs_at(s.push(n), b) == recs_at(s, b),
{
    let s2 = s.push(n);
    let key = n.id as int;
    assert forall|i: int, j: int| 0 <= i < j < s2.len() implies s2[i].id != s2[j].id by {
        if j == s.len() {
            assert(s2[i] == s[i]);
            assert(s[i].id as int != key) by {
                if s[i].id as int == key {
                    assert(recs_has(s, key));
                }
            }
        }
    }
    assert forall|b: int| recs_has(s2, b) == (recs_has(s, b) || b == key) by {
        if recs_has(s2, b) {
            let j = recs_idx(s2, b);
            if j < s.len() {
                assert(s[j].id as int == b);
            }
        }
        if recs_has(s, b) {
            let j = recs_idx(s, b);
            assert(s2[j].id as int == b);
        }
        assert(s2[s.len() as int].id as int == key);
    }
    lemma_recs_idx(s2, key);
    assert(recs_idx(s2, key) == s.len());
    assert forall|b: int| b != key && recs_has(s, b) implies recs_at(s2, b) == recs_at(s, b) by {
        if recs_has(s, b) {
            lemma_recs_idx(s, b);
            let j = recs_idx(s, b);
            assert(s2[j].id as int == b);
            lemma_recs_idx(s2, b);
            assert(recs_idx(s2, b) == j);
        }
    }
}

/// Removing a record deletes its id and changes nothing else.
pub proof fn lemma_recs_remove(s: Seq<Node>, j: int)
    requires
        recs_ids_unique(s),
        0 <= j < s.len(),
    ensures
        recs_ids_unique(s.remove(j)),
        !recs_has(s.remove(j), s[j].id as int),
        forall|b: int| b != s[j].id as int ==> recs_has(s.remove(j), b) == recs_has(s, b),
        forall|b: int|
            b != s[j].id as int && recs_has(s, b) ==> recs_at(s.remove(j), b) == recs_at(s, b),
{
    let s2 = s.remove(j);
    let key = s[j].id as int;
    assert forall|i2: int, j2: int| 0 <= i2 < j2 < s2.len() implies s2[i2].id != s2[j2].id by {
        let oi = if i2 < j { i2 } else { i2 + 1 };
        let oj = if j2 < j { j2 } else { j2 + 1 };
        assert(s2[i2] == s[oi]);
        assert(s2[j2] == s[oj]);
    }
    assert forall|k: int| 0 <= k < s2.len() implies s2[k].id as int != key by {
        let ok = if k < j { k } else { k + 1 };
        assert(s2[k] == s[ok]);
        assert(ok != j);
    }
    assert forall|b: int| b != key implies recs_has(s2, b) == recs_has(s, b) && (recs_has(s, b)
        ==> recs_at(s2, b) == recs_at(s, b)) by {
        if recs_has(s, b) {
            lemma_recs_idx(s, b);
            let k = recs_idx(s, b);
            assert(k != j);
            let k2 = if k < j { k } else { k - 1 };
            assert(s2[k2] == s[k]);
            assert(recs_has(s2, b));
            lemma_recs_idx(s2, b);
            assert(recs_idx(s2, b) == k2);
        }
        if recs_has(s2, b) {
            let k2 = recs_idx(s2, b);
            let ok = if k2 < j { k2 } else { k2 + 1 };
            assert(s2[k2] == s[ok]);
        }
    }
}

/// The adjacency-only parts of well-formedness carry over to a graph with
/// the same adjacency rows, whatever happened to the records.
pub proof fn lemma_adj_parts_pointwise(g0: Graph, g1: Graph)
    requires
        g0.keys_unique(),
        g0.lists_ok(),
        g0.symmetric(),
        g1.adj_list@ == g0.adj_list@,
    ensures
        g1.keys_unique(),
        g1.lists_ok(),
        g1.symmetric(),
        forall|b: int| g1.edges_at(b) == g0.edges_at(b),
        forall|a: int, b: int| g1.adjacent(a, b) == g0.adjacent(a, b),
        forall|a: int, b: int| g1.adjacent(a, b) ==> g1.edge_weight(a, b) == g0.edge_weight(a, b),
        forall|b: int| g1.has_adj(b) == g0.has_adj(b),
        forall|b: int| g1.deg(b) == g0.deg(b),
        g1.ends() == g0.ends(),
{
    assert forall|b: int| g1.edges_at(b) == g0.edges_at(b) by {
        assert(rows_edges(g1.adj_list@, b) == rows_edges(g0.adj_list@, b));
    }
    assert forall|x: int, y: int| #[trigger] g1.adjacent(x, y) == g0.adjacent(x, y) by {
        assert(g1.edges_at(x) == g0.edges_at(x));
    }
    assert forall|x: int, y: int| g1.adjacent(x, y) implies g1.edge_weight(x, y)
        == g0.edge_weight(x, y) by {
        assert(g1.edges_at(x) == g0.edges_at(x));
    }
    assert(g1.lists_ok()) by {
        assert forall|a: int|
            list_unique(#[trigger] g1.edges_at(a)) && (forall|k: int|
                0 <= k < g1.edges_at(a).len() ==> (#[trigger] g1.edges_at(a)[k]).dest as int != a
                    && g1.edges_at(a)[k].weight >= 1) by {
            assert(g1.edges_at(a) == g0.edges_at(a));
            assert(list_unique(g0.edges_at(a)));
            assert(forall|k: int|
                0 <= k < g0.edges_at(a).len() ==> (#[trigger] g0.edges_at(a)[k]).dest as int != a
                    && g0.edges_at(a)[k].weight >= 1);
        }
    }
    assert(g1.symmetric()) by {
        assert forall|a: int, b: int| #[trigger] g1.adjacent(a, b) implies g1.adjacent(b, a)
            && g1.edge_weight(b, a) == g1.edge_weight(a, b) by {
            assert(g0.adjacent(a, b));
        }
    }
}

/// Well-formedness carries over to a graph with the same records and, node
/// for node, the same edge sets.
pub proof fn lemma_wf_pointwise(g0: Graph, g1: Graph)
    requires
        g0.wf(),
        g1.keys_unique(),
        g1.node_list@ == g0.node_list@,
        forall|b: int| g1.edges_at(b) == g0.edges_at(b),
        g1.ends() <= usize::MAX,
    ensures
        g1.wf(),
{
    assert forall|x: int, y: int| #[trigger] g1.adjacent(x, y) == g0.adjacent(x, y) by {
        assert(g1.edges_at(x) == g0.edges_at(x));
    }
    assert forall|x: int, y: int| g1.adjacent(x, y) implies g1.edge_weight(x, y)
        == g0.edge_weight(x, y) by {
        assert(g1.edges_at(x) == g0.edges_at(x));
    }
    assert(g1.lists_ok()) by {
        assert forall|a: int|
            list_unique(#[trigger] g1.edges_at(a)) && (forall|k: int|
                0 <= k < g1.edges_at(a).len() ==> (#[trigger] g1.edges_at(a)[k]).dest as int != a
                    && g1.edges_at(a)[k].weight >= 1) by {
            assert(g1.edges_at(a) == g0.edges_at(a));
            assert(list_unique(g0.edges_at(a)));
            assert(forall|k: int|
                0 <= k < g0.edges_at(a).len() ==> (#[trigger] g0.edges_at(a)[k]).dest as int != a
                    && g0.edges_at(a)[k].weight >= 1);
        }
    }
    assert(g1.symmetric()) by {
        assert forall|a: int, b: int| #[trigger] g1.adjacent(a, b) implies g1.adjacent(b, a)
            && g1.edge_weight(b, a) == g1.edge_weight(a, b) by {
            assert(g0.adjacent(a, b));
        }
    }
    assert(g1.dests_have_records()) by {
        assert forall|a: int, b: int| #[trigger] g1.adjacent(a, b) implies g1.has_record(b) by {
            assert(g0.adjacent(a, b));
        }
    }
    assert(g1.degrees_ok()) by {
        assert forall|j: int| 0 <= j < g1.node_list@.len() implies (
        #[trigger] g1.node_list@[j]).degree == g1.deg(g1.node_list@[j].id as int) by {
            assert(g1.node_list@[j] == g0.node_list@[j]);
            assert(g1.edges_at(g0.node_list@[j].id as int) == g0.edges_at(
                g0.node_list@[j].id as int,
            ));
        }
    }
}

// ---------------------------------------------------------------------------
// Executable helpers on one edge set.
// ---------------------------------------------------------------------------

/// The index of the descriptor for destination `dest`, if there is one.
fn find_edge_index(edges: &Vec<Edge>, dest: usize) -> (r: Option<usize>)
    requires
        list_unique(edges@),
    ensures
        match r {
            Some(k) => k < edges@.len() && edges@[k as int].dest == dest && list_has(
                edges@,
                dest as int,
            ) && list_idx(edges@, dest as int) == k as int,
            None => !list_has(edges@, dest as int),
        },
{
    let n = edges.len();
    let mut k: usize = 0;
    while k < n
        invariant
            n == edges@.len(),
            k <= n,
            list_unique(edges@),
            forall|j: int| 0 <= j < k ==> edges@[j].dest != dest,
        decreases n - k,
    {
        if edges[k].dest == dest {
            proof {
                assert(list_has(edges@, dest as int));
                let k2 = list_idx(edges@, dest as int);
                assert(0 <= k2 < edges@.len() && edges@[k2].dest as int == dest as int);
                assert(k2 == k as int);
            }
            return Some(k);
        }
        k = k + 1;
    }
    proof {
        if list_has(edges@, dest as int) {
            let j = list_idx(edges@, dest as int);
            assert(edges@[j].dest == dest);
        }
    }
    None
}

/// Puts the descriptor `(dest, weight)` into the set, overwriting the weight
/// if a descriptor for `dest` is already there.  Returns whether the
/// destination was new to the set.
fn set_edge(edges: &mut Vec<Edge>, dest: usize, weight: i32) -> (was_new: bool)
    requires
        list_unique(old(edges)@),
        old(edges)@.len() < usize::MAX,
    ensures
        list_unique(final(edges)@),
        list_has(final(edges)@, dest as int),
        list_weight(final(edges)@, dest as int) == weight as int,
        was_new == !list_has(old(edges)@, dest as int),
        final(edges)@.len() == old(edges)@.len() + (if was_new { 1int } else { 0int }),
        forall|d: int| d != dest as int ==> list_has(final(edges)@, d) == list_has(old(edges)@, d),
        forall|d: int|
            d != dest as int && list_has(old(edges)@, d) ==> list_weight(final(edges)@, d)
                == list_weight(old(edges)@, d),
        forall|k: int|
            0 <= k < final(edges)@.len() ==> old(edges)@.contains(final(edges)@[k])
                || final(edges)@[k] == (Edge { dest, weight }),
{
    let ghost s0 = edges@;
    match find_edge_index(edges, dest) {
        Some(k) => {
            edges.set(k, Edge::new(dest, weight));
            proof {
                let s2 = edges@;
                assert forall|k1: int, k2: int| 0 <= k1 < k2 < s2.len() implies s2[k1].dest
                    != s2[k2].dest by {
                    assert(s0[k1].dest == s2[k1].dest);
                    assert(s0[k2].dest == s2[k2].dest);
                }
                assert(s2[k as int].dest as int == dest as int);
                assert(list_has(s2, dest as int));
                let k2 = list_idx(s2, dest as int);
                assert(0 <= k2 < s2.len() && s2[k2].dest as int == dest as int);
                assert(k2 == k as int);
                assert forall|d: int| d != dest as int implies list_has(s2, d) == list_has(s0, d)
                    && (list_has(s0, d) ==> list_weight(s2, d) == list_weight(s0, d)) by {
                    if list_has(s0, d) {
                        let j = list_idx(s0, d);
                        assert(j != k as int);
                        assert(s2[j] == s0[j]);
                        assert(list_has(s2, d));
                        let j2 = list_idx(s2, d);
                        assert(s2[j2].dest as int == d);
                        assert(s0[j2].dest as int == d);
                        assert(j2 == j);
                    }
                    if list_has(s2, d) {
                        let j2 = list_idx(s2, d);
                        assert(j2 != k as int);
                        assert(s0[j2] == s2[j2]);
                        assert(list_has(s0, d));
                    }
                }
                assert forall|k3: int| 0 <= k3 < s2.len() implies s0.contains(s2[k3]) || s2[k3]
                    == (Edge { dest, weight }) by {
                    if k3 != k as int {
                        assert(s2[k3] == s0[k3]);
                    }
                }
            }
            false
        },
        None => {
            edges.push(Edge::new(dest, weight));
            proof {
                let s2 = edges@;
                let n = s0.len() as int;
                assert(s2[n] == (Edge { dest, weight }));
                assert forall|k1: int, k2: int| 0 <= k1 < k2 < s2.len() implies s2[k1].dest
                    != s2[k2].dest by {
                    if k2 < n {
                    } else {
                        assert(s2[k1] == s0[k1]);
                        if s0[k1].dest == dest {
                            assert(list_has(s0, dest as int));
                        }
                    }
                }
                assert(list_has(s2, dest as int));
                let k2 = list_idx(s2, dest as int);
                assert(0 <= k2 < s2.len() && s2[k2].dest as int == dest as int);
                assert forall|j: int| 0 <= j < s2.len() && s2[j].dest as int == dest as int
                    implies j == n by {
                    if j < n {
                        assert(s0[j].dest == dest);
                        assert(list_has(s0, dest as int));
                    }
                }
                assert(k2 == n);
                assert forall|d: int| d != dest as int implies list_has(s2, d) == list_has(s0, d)
                    && (list_has(s0, d) ==> list_weight(s2, d) == list_weight(s0, d)) by {
                    if list_has(s0, d) {
                        let j = list_idx(s0, d);
                        assert(s2[j] == s0[j]);
                        assert(list_has(s2, d));
                        let j2 = list_idx(s2, d);
                        assert(s2[j2].dest as int == d);
                        assert(j2 < n);
                        assert(s0[j2].dest as int == d);
                        assert(j2 == j);
                    }
                    if list_has(s2, d) {
                        let j2 = list_idx(s2, d);
                        assert(j2 < n);
                        assert(s0[j2] == s2[j2]);
                        assert(list_has(s0, d));
                    }
                }
                assert forall|k3: int| 0 <= k3 < s2.len() implies s0.contains(s2[k3]) || s2[k3]
                    == (Edge { dest, weight }) by {
                    if k3 < n {
                        assert(s2[k3] == s0[k3]);
                    }
                }
            }
            true
        },
    }
}

/// Removes the descriptor for destination `dest` from the set, if there is
/// one.  Returns whether something was removed.
fn unset_edge(edges: &mut Vec<Edge>, dest: usize) -> (removed: bool)
    requires
        list_unique(old(edges)@),
    ensures
        list_unique(final(edges)@),
        removed == list_has(old(edges)@, dest as int),
        !list_has(final(edges)@, dest as int),
        final(edges)@.len() + (if removed { 1int } else { 0int }) == old(edges)@.len(),
        forall|d: int| d != dest as int ==> list_has(final(edges)@, d) == list_has(old(edges)@, d),
        forall|d: int|
            d != dest as int && list_has(old(edges)@, d) ==> list_weight(final(edges)@, d)
                == list_weight(old(edges)@, d),
        forall|k: int| 0 <= k < final(edges)@.len() ==> old(edges)@.contains(final(edges)@[k]),
        !removed ==> final(edges)@ == old(edges)@,
    {
    let ghost s0 = edges@;
    match find_edge_index(edges, dest) {
        Some(k) => {
            edges.remove(k);
            proof {
                let s2 = edges@;
                let ki = k as int;
                assert forall|k1: int, k2: int| 0 <= k1 < k2 < s2.len() implies s2[k1].dest
                    != s2[k2].dest by {
                    let o1 = if k1 < ki { k1 } else { k1 + 1 };
                    let o2 = if k2 < ki { k2 } else { k2 + 1 };
                    assert(s2[k1] == s0[o1]);
                    assert(s2[k2] == s0[o2]);
                }
                assert forall|j: int| 0 <= j < s2.len() implies s2[j].dest != dest by {
                    let oj = if j < ki { j } else { j + 1 };
                    assert(s2[j] == s0[oj]);
                    assert(oj != ki);
                }
                assert forall|d: int| d != dest as int implies list_has(s2, d) == list_has(s0, d)
                    && (list_has(s0, d) ==> list_weight(s2, d) == list_weight(s0, d)) by {
                    if list_has(s0, d) {
                        let j = list_idx(s0, d);
                        assert(j != ki);
                        let j2 = if j < ki { j } else { j - 1 };
                        assert(s2[j2] == s0[j]);
                        assert(list_has(s2, d));
                        let jj = list_idx(s2, d);
                        assert(s2[jj].dest as int == d);
                        let oj = if jj < ki { jj } else { jj + 1 };
                        assert(s2[jj] == s0[oj]);
                        assert(oj == j);
                        assert(jj == j2);
                    }
                    if list_has(s2, d) {
                        let j2 = list_idx(s2, d);
                        let oj = if j2 < ki { j2 } else { j2 + 1 };
                        assert(s2[j2] == s0[oj]);
                        assert(list_has(s0, d));
                    }
                }
                assert forall|k3: int| 0 <= k3 < s2.len() implies s0.contains(s2[k3]) by {
                    let o3 = if k3 < ki { k3 } else { k3 + 1 };
                    assert(s2[k3] == s0[o3]);
                }
            }
            true
        },
        None => false,
    }
}

impl Graph {
    // -----------------------------------------------------------------------
    // The mathematical reading of a graph value.
    // -----------------------------------------------------------------------

    /// Node `a` has an adjacency row (possibly an empty one).
    pub open spec fn has_adj(self, a: int) -> bool {
        rows_has(self.adj_list@, a)
    }

    /// The edge set of node `a`; the empty set if `a` has no row.
    pub open spec fn edges_at(self, a: int) -> Seq<Edge> {
        rows_edges(self.adj_list@, a)
    }

    /// There is an edge between `a` and `b` as seen from `a`'s edge set.
    pub open spec fn adjacent(self, a: int, b: int) -> bool {
        list_has(self.edges_at(a), b)
    }

    /// The weight of the edge between `a` and `b` as seen from `a`'s edge set.
    pub open spec fn edge_weight(self, a: int, b: int) -> int {
        list_weight(self.edges_at(a), b)
    }

    /// The number of distinct edges incident to `a`.
    pub open spec fn deg(self, a: int) -> nat {
        self.edges_at(a).len()
    }

    /// The total number of edge descriptors; twice the number of edges.
    pub open spec fn ends(self) -> nat {
        rows_ends(self.adj_list@)
    }

    /// The number of undirected edges: half the descriptor total.
    pub open spec fn spec_num_edges(self) -> nat {
        self.ends() / 2
    }

    /// Node `a` has a node record.
    pub open spec fn has_record(self, a: int) -> bool {
        recs_has(self.node_list@, a)
    }

    /// The node record of `a`.
    pub open spec fn record_at(self, a: int) -> Node {
        recs_at(self.node_list@, a)
    }

    // -----------------------------------------------------------------------
    // Well-formedness.
    // -----------------------------------------------------------------------

    /// Each adjacency row has a distinct key.
    pub open spec fn keys_unique(self) -> bool {
        rows_keys_unique(self.adj_list@)
    }

    /// Every edge set is destination-keyed, free of self-references, and all
    /// weights are at least one.
    pub open spec fn lists_ok(self) -> bool {
        forall|a: int|
            {
                &&& list_unique(#[trigger] self.edges_at(a))
                &&& forall|k: int|
                    0 <= k < self.edges_at(a).len() ==> {
                        &&& (#[trigger] self.edges_at(a)[k]).dest as int != a
                        &&& self.edges_at(a)[k].weight >= 1
                    }
            }
    }

    /// The adjacency is symmetric: an edge recorded at one endpoint is
    /// recorded at the other with the same weight.
    pub open spec fn symmetric(self) -> bool {
        forall|a: int, b: int|
            #[trigger] self.adjacent(a, b) ==> self.adjacent(b, a) && self.edge_weight(b, a)
                == self.edge_weight(a, b)
    }

    /// Every destination named by a descriptor has a node record.
    pub open spec fn dests_have_records(self) -> bool {
        forall|a: int, b: int| #[trigger] self.adjacent(a, b) ==> self.has_record(b)
    }

    /// Each node record has a distinct id.
    pub open spec fn ids_unique(self) -> bool {
        recs_ids_unique(self.node_list@)
    }

    /// Every degree counter equals the number of distinct incident edges.
    pub open spec fn degrees_ok(self) -> bool {
        forall|j: int|
            0 <= j < self.node_list@.len() ==> (#[trigger] self.node_list@[j]).degree
                == self.deg(self.node_list@[j].id as int)
    }

    /// The container's invariants.
    pub open spec fn wf(self) -> bool {
        &&& self.keys_unique()
        &&& self.lists_ok()
        &&& self.symmetric()
        &&& self.dests_have_records()
        &&& self.ids_unique()
        &&& self.degrees_ok()
        &&& self.ends() <= usize::MAX
    }

    // -----------------------------------------------------------------------
    // Internal helpers.
    // -----------------------------------------------------------------------

    /// The index of the adjacency row keyed `a`, if there is one.
    fn find_row_index(&self, a: usize) -> (r: Option<usize>)
        requires
            self.keys_unique(),
        ensures
            match r {
                Some(i) => i < self.adj_list@.len() && self.adj_list@[i as int].node == a
                    && self.has_adj(a as int) && rows_idx(self.adj_list@, a as int) == i as int,
                None => !self.has_adj(a as int),
            },
    {
        let n = self.adj_list.len();
        let mut i: usize = 0;
        while i < n
            invariant
                n == self.adj_list@.len(),
                i <= n,
                self.keys_unique(),
                forall|j: int| 0 <= j < i ==> self.adj_list@[j].node != a,
            decreases n - i,
        {
            if self.adj_list[i].node == a {
                proof {
                    assert(rows_has(self.adj_list@, a as int));
                    lemma_rows_idx(self.adj_list@, a as int);
                }
                return Some(i);
            }
            i = i + 1;
        }
        proof {
            if rows_has(self.adj_list@, a as int) {
                let j = rows_idx(self.adj_list@, a as int);
                assert(self.adj_list@[j].node == a);
            }
        }
        None
    }

    /// The index of the node record with id `a`, if there is one.
    fn find_rec_index(&self, a: usize) -> (r: Option<usize>)
        requires
            self.ids_unique(),
        ensures
            match r {
                Some(j) => j < self.node_list@.len() && self.node_list@[j as int].id == a
                    && self.has_record(a as int) && recs_idx(self.node_list@, a as int) == j as int,
                None => !self.has_record(a as int),
            },
    {
        let n = self.node_list.len();
        let mut j: usize = 0;
        while j < n
            invariant
                n == self.node_list@.len(),
                j <= n,
                self.ids_unique(),
                forall|k: int| 0 <= k < j ==> self.node_list@[k].id != a,
            decreases n - j,
        {
            if self.node_list[j].id == a {
                proof {
                    assert(recs_has(self.node_list@, a as int));
                    lemma_recs_idx(self.node_list@, a as int);
                }
                return Some(j);
            }
            j = j + 1;
        }
        proof {
            if recs_has(self.node_list@, a as int) {
                let k = recs_idx(self.node_list@, a as int);
                assert(self.node_list@[k].id == a);
            }
        }
        None
    }

    /// Materialises the adjacency row for `a` (an empty edge set if the node
    /// had none) and returns its index.  No edge set changes.
    fn ensure_row(&mut self, a: usize) -> (i: usize)
        requires
            old(self).keys_unique(),
        ensures
            final(self).order == old(self).order,
            final(self).node_list@ == old(self).node_list@,
            final(self).keys_unique(),
            i < final(self).adj_list@.len(),
            final(self).adj_list@[i as int].node == a,
            rows_idx(final(self).adj_list@, a as int) == i as int,
            final(self).has_adj(a as int),
            final(self).ends() == old(self).ends(),
            forall|b: int| final(self).edges_at(b) == old(self).edges_at(b),
            forall|b: int|
                final(self).has_adj(b) == (old(self).has_adj(b) || b == a as int),
            old(self).has_adj(a as int) ==> final(self).adj_list@ == old(self).adj_list@,
            old(self).wf() ==> final(self).wf(),
    {
        match self.find_row_index(a) {
            Some(i) => i,
            None => {
                let ghost s0 = self.adj_list@;
                let row = AdjRow { node: a, edges: Vec::new() };
                proof {
                    lemma_rows_push(s0, row);
                    lemma_ends_push(s0, row);
                    assert(row.edges@ =~= Seq::<Edge>::empty());
                    assert(rows_edges(s0, a as int) =~= Seq::<Edge>::empty());
                }
                self.adj_list.push(row);
                let i = self.adj_list.len() - 1;
                proof {
                    lemma_rows_idx(self.adj_list@, a as int);
                    assert(self.adj_list@[i as int].node == a);
                    assert forall|b: int| self.edges_at(b) == old(self).edges_at(b) by {
                        if b != a as int {
                            assert(rows_edges(self.adj_list@, b) == rows_edges(s0, b));
                        }
                    }
                    if old(self).wf() {
                        lemma_wf_pointwise(*old(self), *self);
                    }
                }
                i
            },
        }
    }

    // -----------------------------------------------------------------------
    // Construction.
    // -----------------------------------------------------------------------

    /// An empty graph: no rows, no records, order zero.
    pub fn new() -> (g: Graph)
        ensures
            g.wf(),
            g.order == 0,
            g.adj_list@ =~= Seq::<AdjRow>::empty(),
            g.node_list@ =~= Seq::<Node>::empty(),
            forall|a: int, b: int| !g.adjacent(a, b),
            forall|a: int| !g.has_record(a),
            forall|a: int| !g.has_adj(a),
            g.ends() == 0,
    {
        let g = Graph { adj_list: Vec::new(), node_list: Vec::new(), order: 0 };
        g
    }

    // -----------------------------------------------------------------------
    // Mutation.
    // -----------------------------------------------------------------------

    /// Registers a node record for `id` with the weight derived from the id.
    /// A no-op once the record count has reached the declared order, and for
    /// an id that already has a record.
    pub fn add_node(&mut self, id: usize)
        requires
            old(self).wf(),
        ensures
            final(self).wf(),
            final(self).order == old(self).order,
            final(self).adj_list@ == old(self).adj_list@,
            old(self).node_list@.len() >= old(self).order ==> final(self).node_list@ == old(
                self,
            ).node_list@,
            old(self).node_list@.len() < old(self).order && old(self).has_record(id as int)
                ==> final(self).node_list@ == old(self).node_list@,
            old(self).node_list@.len() < old(self).order && !old(self).has_record(id as int)
                ==> final(self).node_list@ == old(self).node_list@.push(
                (Node { id, weight: ((id % 200) + 1) as u32, degree: 0 }),
            ),
            forall|b: int|
                final(self).has_record(b) == (old(self).has_record(b) || (old(
                    self,
                ).node_list@.len() < old(self).order && b == id as int)),
            forall|b: int|
                old(self).has_record(b) ==> final(self).record_at(b) == old(self).record_at(b),
    {
        if self.node_list.len() >= self.order {
            return ;
        }
        let ghost recs0 = self.node_list@;
        match self.find_rec_index(id) {
            Some(_) => {},
            None => {
                let w: u32 = ((id % 200) as u32) + 1;
                let n = Node::new(id, w);
                proof {
                    lemma_recs_push(recs0, n);
                }
                self.node_list.push(n);
                proof {
                    lemma_adj_parts_pointwise(*old(self), *self);
                    assert(self.deg(id as int) == 0) by {
                        if self.edges_at(id as int).len() > 0 {
                            let e = self.edges_at(id as int)[0];
                            assert(old(self).adjacent(id as int, e.dest as int));
                            assert(old(self).adjacent(e.dest as int, id as int));
                            assert(old(self).has_record(id as int));
                        }
                    }
                    assert forall|j: int| 0 <= j < self.node_list@.len() implies (
                    #[trigger] self.node_list@[j]).degree == self.deg(
                        self.node_list@[j].id as int,
                    ) by {
                        if j < recs0.len() {
                            assert(self.node_list@[j] == recs0[j]);
                        }
                    }
                    assert(self.dests_have_records()) by {
                        assert forall|a: int, b: int| #[trigger] self.adjacent(a, b)
                            implies self.has_record(b) by {
                            assert(old(self).adjacent(a, b));
                            assert(old(self).has_record(b));
                        }
                    }
                }
            },
        }
    }

    /// From the local shape of the two updated edge sets and records,
    /// concludes well-formedness and the full `add_edge` postcondition.
    proof fn lemma_add_edge_shape(g0: Graph, gf: Graph, src: usize, dest: usize, w: i32, was_new: bool)
        requires
            g0.wf(),
            g0.ends() + 2 <= usize::MAX,
            src != dest,
            w >= 1,
            g0.has_record(src as int),
            g0.has_record(dest as int),
            was_new == !g0.adjacent(src as int, dest as int),
            gf.order == g0.order,
            gf.keys_unique(),
            forall|b: int|
                b != src as int && b != dest as int ==> gf.edges_at(b) == g0.edges_at(b),
            forall|b: int|
                gf.has_adj(b) == (g0.has_adj(b) || b == src as int || b == dest as int),
            list_unique(gf.edges_at(src as int)),
            list_has(gf.edges_at(src as int), dest as int),
            list_weight(gf.edges_at(src as int), dest as int) == w as int,
            forall|d: int|
                d != dest as int ==> list_has(gf.edges_at(src as int), d) == list_has(
                    g0.edges_at(src as int),
                    d,
                ),
            forall|d: int|
                d != dest as int && list_has(g0.edges_at(src as int), d) ==> list_weight(
                    gf.edges_at(src as int),
                    d,
                ) == list_weight(g0.edges_at(src as int), d),
            gf.edges_at(src as int).len() == g0.edges_at(src as int).len() + (if was_new {
                1int
            } else {
                0int
            }),
            forall|k: int|
                0 <= k < gf.edges_at(src as int).len() ==> g0.edges_at(src as int).contains(
                    gf.edges_at(src as int)[k],
                ) || gf.edges_at(src as int)[k] == (Edge { dest, weight: w }),
            list_unique(gf.edges_at(dest as int)),
            list_has(gf.edges_at(dest as int), src as int),
            list_weight(gf.edges_at(dest as int), src as int) == w as int,
            forall|d: int|
                d != src as int ==> list_has(gf.edges_at(dest as int), d) == list_has(
                    g0.edges_at(dest as int),
                    d,
                ),
            forall|d: int|
                d != src as int && list_has(g0.edges_at(dest as int), d) ==> list_weight(
                    gf.edges_at(dest as int),
                    d,
                ) == list_weight(g0.edges_at(dest as int), d),
            gf.edges_at(dest as int).len() == g0.edges_at(dest as int).len() + (if was_new {
                1int
            } else {
                0int
            }),
            forall|k: int|
                0 <= k < gf.edges_at(dest as int).len() ==> g0.edges_at(dest as int).contains(
                    gf.edges_at(dest as int)[k],
                ) || gf.edges_at(dest as int)[k] == (Edge { dest: src, weight: w }),
            gf.ids_unique(),
            forall|b: int| gf.has_record(b) == g0.has_record(b),
            forall|b: int|
                g0.has_record(b) && b != src as int && b != dest as int ==> gf.record_at(b)
                    == g0.record_at(b),
            gf.record_at(src as int).id == g0.record_at(src as int).id,
            gf.record_at(src as int).weight == g0.record_at(src as int).weight,
            gf.record_at(src as int).degree == g0.record_at(src as int).degree + (if was_new {
                1int
            } else {
                0int
            }),
            gf.record_at(dest as int).id == g0.record_at(dest as int).id,
            gf.record_at(dest as int).weight == g0.record_at(dest as int).weight,
            gf.record_at(dest as int).degree == g0.record_at(dest as int).degree + (if was_new {
                1int
            } else {
                0int
            }),
            gf.ends() == g0.ends() + (if was_new {
                2int
            } else {
                0int
            }),
        ensures
            gf.wf(),
            add_edge_post(g0, gf, src as int, dest as int, w as int),
    {
        let srci = src as int;
        let desti = dest as int;

        // The adjacency relation, pointwise.
        assert forall|a: int, b: int|
            gf.adjacent(a, b) == (g0.adjacent(a, b) || (a == srci && b == desti) || (a == desti
                && b == srci)) by {
            if a == srci {
                if b != desti {
                    assert(list_has(gf.edges_at(srci), b) == list_has(g0.edges_at(srci), b));
                }
            } else if a == desti {
                if b != srci {
                    assert(list_has(gf.edges_at(desti), b) == list_has(g0.edges_at(desti), b));
                }
            } else {
                assert(gf.edges_at(a) == g0.edges_at(a));
            }
        }
        assert(gf.adjacent(srci, desti) && gf.adjacent(desti, srci));

        // Edge weights, pointwise.
        assert forall|a: int, b: int|
            g0.adjacent(a, b) && !((a == srci && b == desti) || (a == desti && b == srci))
                implies gf.edge_weight(a, b) == g0.edge_weight(a, b) by {
            if a == srci {
                assert(b != desti);
            } else if a == desti {
                assert(b != srci);
            } else {
                assert(gf.edges_at(a) == g0.edges_at(a));
            }
        }

        // Degrees, pointwise.
        assert forall|a: int| a != srci && a != desti implies gf.deg(a) == g0.deg(a) by {
            assert(gf.edges_at(a) == g0.edges_at(a));
        }
        assert(gf.deg(srci) == g0.deg(srci) + (if was_new { 1int } else { 0int }));
        assert(gf.deg(desti) == g0.deg(desti) + (if was_new { 1int } else { 0int }));

        // Descriptor totals.
        assert(gf.spec_num_edges() == g0.spec_num_edges() + (if was_new { 1int } else { 0int }));

        // Well-formedness of the result.
        assert(gf.lists_ok()) by {
            assert forall|a: int|
                list_unique(#[trigger] gf.edges_at(a)) && (forall|k: int|
                    0 <= k < gf.edges_at(a).len() ==> (#[trigger] gf.edges_at(a)[k]).dest as int
                        != a && gf.edges_at(a)[k].weight >= 1) by {
                if a == srci {
                    assert forall|k: int| 0 <= k < gf.edges_at(a).len() implies (
                    #[trigger] gf.edges_at(a)[k]).dest as int != a && gf.edges_at(a)[k].weight
                        >= 1 by {
                        if g0.edges_at(srci).contains(gf.edges_at(srci)[k]) {
                            let k0 = choose|k0: int|
                                0 <= k0 < g0.edges_at(srci).len() && g0.edges_at(srci)[k0]
                                    == gf.edges_at(srci)[k];
                            assert(g0.edges_at(srci)[k0].dest as int != srci);
                        } else {
                            assert(gf.edges_at(srci)[k] == (Edge { dest, weight: w }));
                        }
                    }
                } else if a == desti {
                    assert forall|k: int| 0 <= k < gf.edges_at(a).len() implies (
                    #[trigger] gf.edges_at(a)[k]).dest as int != a && gf.edges_at(a)[k].weight
                        >= 1 by {
                        if g0.edges_at(desti).contains(gf.edges_at(desti)[k]) {
                            let k0 = choose|k0: int|
                                0 <= k0 < g0.edges_at(desti).len() && g0.edges_at(desti)[k0]
                                    == gf.edges_at(desti)[k];
                            assert(g0.edges_at(desti)[k0].dest as int != desti);
                        } else {
                            assert(gf.edges_at(desti)[k] == (Edge { dest: src, weight: w }));
                        }
                    }
                } else {
                    assert(gf.edges_at(a) == g0.edges_at(a));
                    assert(list_unique(g0.edges_at(a)));
                    assert(forall|k: int|
                        0 <= k < g0.edges_at(a).len() ==> (#[trigger] g0.edges_at(a)[k]).dest
                            as int != a && g0.edges_at(a)[k].weight >= 1);
                }
            }
        }
        assert(gf.symmetric()) by {
            assert forall|a: int, b: int| #[trigger] gf.adjacent(a, b) implies gf.adjacent(b, a)
                && gf.edge_weight(b, a) == gf.edge_weight(a, b) by {
                if (a == srci && b == desti) || (a == desti && b == srci) {
                } else {
                    assert(g0.adjacent(a, b));
                    assert(g0.adjacent(b, a));
                    assert(gf.edge_weight(a, b) == g0.edge_weight(a, b));
                    assert(gf.edge_weight(b, a) == g0.edge_weight(b, a));
                }
            }
        }
        assert(gf.dests_have_records()) by {
            assert forall|a: int, b: int| #[trigger] gf.adjacent(a, b) implies gf.has_record(
                b,
            ) by {
                if (a == srci && b == desti) || (a == desti && b == srci) {
                    assert(g0.has_record(b));
                } else {
                    assert(g0.adjacent(a, b));
                    assert(g0.has_record(b));
                }
            }
        }
        assert(gf.degrees_ok()) by {
            assert forall|j: int| 0 <= j < gf.node_list@.len() implies (
            #[trigger] gf.node_list@[j]).degree == gf.deg(gf.node_list@[j].id as int) by {
                let a = gf.node_list@[j].id as int;
                assert(gf.has_record(a)) by {
                    assert(recs_has(gf.node_list@, a));
                }
                lemma_recs_idx(gf.node_list@, a);
                assert(recs_idx(gf.node_list@, a) == j);
                assert(gf.record_at(a) == gf.node_list@[j]);
                lemma_recs_idx(g0.node_list@, a);
                if a == srci {
                    assert(g0.record_at(a).degree == g0.deg(a));
                } else if a == desti {
                    assert(g0.record_at(a).degree == g0.deg(a));
                } else {
                    assert(gf.record_at(a) == g0.record_at(a));
                    assert(g0.record_at(a).degree == g0.deg(a));
                    assert(gf.deg(a) == g0.deg(a));
                }
            }
        }
    }

    /// Inserts the undirected edge `(src, dest)` with the given weight into
    /// both endpoints' edge sets, overwriting the weight if the pair was
    /// already adjacent, and keeps both endpoints' degree counters current.
    /// Reports [`GraphError::InvalidWeight`] for a weight below one,
    /// [`GraphError::SelfLoop`] when the endpoints coincide and
    /// [`GraphError::NotFound`] when either endpoint has no node record; on
    /// any error the graph is untouched.  The caller brings room for two
    /// more descriptors, a bound the address space forces anyway.
    #[verifier::rlimit(100)]
    pub fn add_edge(&mut self, src: usize, dest: usize, weight: i32) -> (r: Result<
        (),
        GraphError,
    >)
        requires
            old(self).wf(),
            old(self).ends() + 2 <= usize::MAX,
        ensures
            final(self).wf(),
            final(self).order == old(self).order,
            weight < 1 ==> r == Err::<(), GraphError>(GraphError::InvalidWeight) && *final(self)
                == *old(self),
            weight >= 1 && src == dest ==> r == Err::<(), GraphError>(GraphError::SelfLoop)
                && *final(self) == *old(self),
            weight >= 1 && src != dest && !(old(self).has_record(src as int) && old(
                self,
            ).has_record(dest as int)) ==> r == Err::<(), GraphError>(GraphError::NotFound)
                && *final(self) == *old(self),
            weight >= 1 && src != dest && old(self).has_record(src as int) && old(
                self,
            ).has_record(dest as int) ==> r == Ok::<(), GraphError>(()) && add_edge_post(
                *old(self),
                *final(self),
                src as int,
                dest as int,
                weight as int,
            ),
    {
        if weight < 1 {
            return Err(GraphError::InvalidWeight);
        }
        if src == dest {
            return Err(GraphError::SelfLoop);
        }
        let js = match self.find_rec_index(src) {
            Some(j) => j,
            None => { return Err(GraphError::NotFound); },
        };
        let jd = match self.find_rec_index(dest) {
            Some(j) => j,
            None => { return Err(GraphError::NotFound); },
        };
        let ghost g0 = *self;

        // First endpoint: put the descriptor for `dest` into `src`'s set.
        let i_src = self.ensure_row(src);
        let ghost g1 = *self;
        proof {
            lemma_rows_idx(g1.adj_list@, src as int);
            assert(g1.adj_list@[i_src as int].edges@ == g1.edges_at(src as int));
            assert(g1.edges_at(src as int) == g0.edges_at(src as int));
            assert(list_unique(g1.edges_at(src as int)));
            lemma_row_le_ends(g1.adj_list@, i_src as int);
        }
        let mut row = self.adj_list.remove(i_src);
        let was_new = set_edge(&mut row.edges, dest, weight);
        let ghost rown = row;
        self.adj_list.insert(i_src, row);
        let ghost g2 = *self;
        proof {
            assert(g2.adj_list@ =~= g1.adj_list@.update(i_src as int, rown));
            lemma_rows_update(g1.adj_list@, i_src as int, rown);
            lemma_ends_update(g1.adj_list@, i_src as int, rown);
            assert(g2.edges_at(src as int) == rown.edges@);
            assert(forall|b: int| b != src as int ==> g2.edges_at(b) == g0.edges_at(b));
            assert(g2.ends() == g0.ends() + (if was_new { 1int } else { 0int }));
        }

        // Second endpoint: put the descriptor for `src` into `dest`'s set.
        let i_dest = self.ensure_row(dest);
        let ghost g3 = *self;
        proof {
            lemma_rows_idx(g3.adj_list@, dest as int);
            assert(g3.adj_list@[i_dest as int].edges@ == g3.edges_at(dest as int));
            assert(g3.edges_at(dest as int) == g0.edges_at(dest as int));
            assert(list_unique(g3.edges_at(dest as int)));
            lemma_row_le_ends(g3.adj_list@, i_dest as int);
        }
        let mut row2 = self.adj_list.remove(i_dest);
        let was_new2 = set_edge(&mut row2.edges, src, weight);
        let ghost rown2 = row2;
        self.adj_list.insert(i_dest, row2);
        let ghost g4 = *self;
        proof {
            assert(g4.adj_list@ =~= g3.adj_list@.update(i_dest as int, rown2));
            lemma_rows_update(g3.adj_list@, i_dest as int, rown2);
            lemma_ends_update(g3.adj_list@, i_dest as int, rown2);
            assert(g4.edges_at(dest as int) == rown2.edges@);
            assert(g4.edges_at(src as int) == rown.edges@);
            assert(forall|b: int|
                b != src as int && b != dest as int ==> g4.edges_at(b) == g0.edges_at(b));
            assert(was_new == !g0.adjacent(src as int, dest as int));
            assert(was_new2 == was_new) by {
                if g0.adjacent(src as int, dest as int) {
                    assert(g0.adjacent(dest as int, src as int));
                }
                if g0.adjacent(dest as int, src as int) {
                    assert(g0.adjacent(src as int, dest as int));
                }
            }
            assert(g4.ends() == g0.ends() + (if was_new { 2int } else { 0int }));
        }

        // Degree counters: both endpoints gained one distinct incident edge
        // exactly when the pair was not adjacent before.
        if was_new {
            proof {
                assert(self.node_list@ == g0.node_list@);
                assert(g0.node_list@[js as int].id == src);
                assert(g0.node_list@[jd as int].id == dest);
                assert(js != jd);
                assert(g0.node_list@[js as int].degree == g0.deg(src as int));
                assert(g0.deg(src as int) < usize::MAX) by {
                    if g0.has_adj(src as int) {
                        lemma_rows_idx(g0.adj_list@, src as int);
                        lemma_row_le_ends(g0.adj_list@, rows_idx(g0.adj_list@, src as int));
                    }
                }
                assert(g0.node_list@[jd as int].degree == g0.deg(dest as int));
                assert(g0.deg(dest as int) < usize::MAX) by {
                    if g0.has_adj(dest as int) {
                        lemma_rows_idx(g0.adj_list@, dest as int);
                        lemma_row_le_ends(g0.adj_list@, rows_idx(g0.adj_list@, dest as int));
                    }
                }
            }
            let mut ns = self.node_list[js];
            ns.increment_degree();
            self.node_list.set(js, ns);
            proof {
                lemma_recs_idx(g0.node_list@, src as int);
                lemma_recs_update(g0.node_list@, js as int, ns);
            }
            let ghost recs1 = self.node_list@;
            let mut nd = self.node_list[jd];
            nd.increment_degree();
            self.node_list.set(jd, nd);
            proof {
                lemma_recs_idx(recs1, dest as int);
                assert(recs1[jd as int].id == dest);
                lemma_recs_update(recs1, jd as int, nd);
            }
        }
        let ghost gf = *self;
        let ghost srci = src as int;
        let ghost desti = dest as int;
        proof {
            assert(gf.adj_list@ == g4.adj_list@);
            assert(gf.edges_at(srci) == rown.edges@);
            assert(gf.edges_at(desti) == rown2.edges@);
            assert forall|b: int| b != srci && b != desti implies gf.edges_at(b) == g0.edges_at(
                b,
            ) by {
                assert(g4.edges_at(b) == g0.edges_at(b));
            }
            assert forall|b: int|
                gf.has_adj(b) == (g0.has_adj(b) || b == srci || b == desti) by {
                assert(rows_has(g4.adj_list@, b) == rows_has(g3.adj_list@, b));
                assert(g3.has_adj(b) == (g2.has_adj(b) || b == desti));
                assert(rows_has(g2.adj_list@, b) == rows_has(g1.adj_list@, b));
                assert(g1.has_adj(b) == (g0.has_adj(b) || b == srci));
            }
            // Record bookkeeping, both for a fresh pair and for an overwrite.
            lemma_recs_idx(g0.node_list@, srci);
            lemma_recs_idx(g0.node_list@, desti);
            assert(recs_idx(g0.node_list@, srci) == js as int);
            assert(recs_idx(g0.node_list@, desti) == jd as int);
            if was_new {
                assert(gf.record_at(srci).degree == g0.record_at(srci).degree + 1);
                assert(gf.record_at(desti).degree == g0.record_at(desti).degree + 1);
            } else {
                assert(gf.node_list@ == g0.node_list@);
            }
            Self::lemma_add_edge_shape(g0, gf, src, dest, weight, was_new);
        }
        Ok(())
    }

    /// From the local shape of the two scrubbed edge sets and records,
    /// concludes well-formedness and the full `remove_edge` postcondition.
    proof fn lemma_remove_edge_shape(g0: Graph, gf: Graph, src: usize, dest: usize)
        requires
            g0.wf(),
            g0.adjacent(src as int, dest as int),
            gf.order == g0.order,
            gf.keys_unique(),
            forall|b: int|
                b != src as int && b != dest as int ==> gf.edges_at(b) == g0.edges_at(b),
            forall|b: int|
                gf.has_adj(b) == (g0.has_adj(b) || b == src as int || b == dest as int),
            list_unique(gf.edges_at(src as int)),
            !list_has(gf.edges_at(src as int), dest as int),
            forall|d: int|
                d != dest as int ==> list_has(gf.edges_at(src as int), d) == list_has(
                    g0.edges_at(src as int),
                    d,
                ),
            forall|d: int|
                d != dest as int && list_has(g0.edges_at(src as int), d) ==> list_weight(
                    gf.edges_at(src as int),
                    d,
                ) == list_weight(g0.edges_at(src as int), d),
            gf.edges_at(src as int).len() + 1 == g0.edges_at(src as int).len(),
            forall|k: int|
                0 <= k < gf.edges_at(src as int).len() ==> g0.edges_at(src as int).contains(
                    gf.edges_at(src as int)[k],
                ),
            list_unique(gf.edges_at(dest as int)),
            !list_has(gf.edges_at(dest as int), src as int),
            forall|d: int|
                d != src as int ==> list_has(gf.edges_at(dest as int), d) == list_has(
                    g0.edges_at(dest as int),
                    d,
                ),
            forall|d: int|
                d != src as int && list_has(g0.edges_at(dest as int), d) ==> list_weight(
                    gf.edges_at(dest as int),
                    d,
                ) == list_weight(g0.edges_at(dest as int), d),
            gf.edges_at(dest as int).len() + 1 == g0.edges_at(dest as int).len(),
            forall|k: int|
                0 <= k < gf.edges_at(dest as int).len() ==> g0.edges_at(dest as int).contains(
                    gf.edges_at(dest as int)[k],
                ),
            gf.ids_unique(),
            forall|b: int| gf.has_record(b) == g0.has_record(b),
            forall|b: int|
                g0.has_record(b) && b != src as int && b != dest as int ==> gf.record_at(b)
                    == g0.record_at(b),
            gf.record_at(src as int).id == g0.record_at(src as int).id,
            gf.record_at(src as int).weight == g0.record_at(src as int).weight,
            gf.record_at(src as int).degree + 1 == g0.record_at(src as int).degree,
            gf.record_at(dest as int).id == g0.record_at(dest as int).id,
            gf.record_at(dest as int).weight == g0.record_at(dest as int).weight,
            gf.record_at(dest as int).degree + 1 == g0.record_at(dest as int).degree,
            gf.ends() + 2 == g0.ends(),
        ensures
            gf.wf(),
            remove_edge_post(g0, gf, src as int, dest as int),
    {
        let srci = src as int;
        let desti = dest as int;
        assert(srci != desti) by {
            assert(g0.edges_at(srci)[list_idx(g0.edges_at(srci), desti)].dest as int != srci);
        }

        // The adjacency relation, pointwise.
        assert forall|a: int, b: int|
            gf.adjacent(a, b) == (g0.adjacent(a, b) && !((a == srci && b == desti) || (a == desti
                && b == srci))) by {
            if a == srci {
                if b != desti {
                    assert(list_has(gf.edges_at(srci), b) == list_has(g0.edges_at(srci), b));
                }
            } else if a == desti {
                if b != srci {
                    assert(list_has(gf.edges_at(desti), b) == list_has(g0.edges_at(desti), b));
                }
            } else {
                assert(gf.edges_at(a) == g0.edges_at(a));
            }
        }

        // Edge weights, pointwise.
        assert forall|a: int, b: int| gf.adjacent(a, b) implies gf.edge_weight(a, b)
            == g0.edge_weight(a, b) by {
            if a == srci {
                assert(b != desti);
            } else if a == desti {
                assert(b != srci);
            } else {
                assert(gf.edges_at(a) == g0.edges_at(a));
            }
        }

        // Degrees, pointwise.
        assert forall|a: int| a != srci && a != desti implies gf.deg(a) == g0.deg(a) by {
            assert(gf.edges_at(a) == g0.edges_at(a));
        }
        assert(gf.deg(srci) + 1 == g0.deg(srci));
        assert(gf.deg(desti) + 1 == g0.deg(desti));
        assert(gf.spec_num_edges() + 1 == g0.spec_num_edges());

        // Well-formedness of the result.
        assert(gf.lists_ok()) by {
            assert forall|a: int|
                list_unique(#[trigger] gf.edges_at(a)) && (forall|k: int|
                    0 <= k < gf.edges_at(a).len() ==> (#[trigger] gf.edges_at(a)[k]).dest as int
                        != a && gf.edges_at(a)[k].weight >= 1) by {
                if a == srci || a == desti {
                    assert forall|k: int| 0 <= k < gf.edges_at(a).len() implies (
                    #[trigger] gf.edges_at(a)[k]).dest as int != a && gf.edges_at(a)[k].weight
                        >= 1 by {
                        assert(g0.edges_at(a).contains(gf.edges_at(a)[k]));
                        let k0 = choose|k0: int|
                            0 <= k0 < g0.edges_at(a).len() && g0.edges_at(a)[k0] == gf.edges_at(
                                a,
                            )[k];
                        assert(g0.edges_at(a)[k0].dest as int != a);
                    }
                } else {
                    assert(gf.edges_at(a) == g0.edges_at(a));
                    assert(list_unique(g0.edges_at(a)));
                    assert(forall|k: int|
                        0 <= k < g0.edges_at(a).len() ==> (#[trigger] g0.edges_at(a)[k]).dest
                            as int != a && g0.edges_at(a)[k].weight >= 1);
                }
            }
        }
        assert(gf.symmetric()) by {
            assert forall|a: int, b: int| #[trigger] gf.adjacent(a, b) implies gf.adjacent(b, a)
                && gf.edge_weight(b, a) == gf.edge_weight(a, b) by {
                assert(g0.adjacent(a, b));
                assert(g0.adjacent(b, a));
            }
        }
        assert(gf.dests_have_records()) by {
            assert forall|a: int, b: int| #[trigger] gf.adjacent(a, b) implies gf.has_record(
                b,
            ) by {
                assert(g0.adjacent(a, b));
                assert(g0.has_record(b));
            }
        }
        assert(gf.degrees_ok()) by {
            assert forall|j: int| 0 <= j < gf.node_list@.len() implies (
            #[trigger] gf.node_list@[j]).degree == gf.deg(gf.node_list@[j].id as int) by {
                let a = gf.node_list@[j].id as int;
                assert(gf.has_record(a)) by {
                    assert(recs_has(gf.node_list@, a));
                }
                lemma_recs_idx(gf.node_list@, a);
                assert(recs_idx(gf.node_list@, a) == j);
                assert(gf.record_at(a) == gf.node_list@[j]);
                lemma_recs_idx(g0.node_list@, a);
                if a == srci {
                    assert(g0.record_at(a).degree == g0.deg(a));
                } else if a == desti {
                    assert(g0.record_at(a).degree == g0.deg(a));
                } else {
                    assert(gf.record_at(a) == g0.record_at(a));
                    assert(g0.record_at(a).degree == g0.deg(a));
                    assert(gf.deg(a) == g0.deg(a));
                }
            }
        }
    }

    /// Removes the undirected edge `(src, dest)` from both endpoints' edge
    /// sets and lowers both degree counters; reports
    /// [`GraphError::NotFound`], touching no edge set, when the pair is not
    /// adjacent.  Either way an empty edge set is materialised for an
    /// endpoint that had none, as in the underlying adjacency container.
    #[verifier::rlimit(100)]
    pub fn remove_edge(&mut self, src: usize, dest: usize) -> (r: Result<(), GraphError>)
        requires
            old(self).wf(),
        ensures
            final(self).wf(),
            final(self).order == old(self).order,
            forall|b: int|
                final(self).has_adj(b) == (old(self).has_adj(b) || b == src as int || b
                    == dest as int),
            old(self).adjacent(src as int, dest as int) ==> r == Ok::<(), GraphError>(())
                && remove_edge_post(*old(self), *final(self), src as int, dest as int),
            !old(self).adjacent(src as int, dest as int) ==> {
                &&& r == Err::<(), GraphError>(GraphError::NotFound)
                &&& final(self).node_list@ == old(self).node_list@
                &&& final(self).ends() == old(self).ends()
                &&& forall|a: int, b: int| final(self).adjacent(a, b) == old(self).adjacent(a, b)
                &&& forall|a: int, b: int|
                    old(self).adjacent(a, b) ==> final(self).edge_weight(a, b) == old(
                        self,
                    ).edge_weight(a, b)
            },
    {
        let ghost g0 = *self;

        // First endpoint: take the descriptor for `dest` out of `src`'s set.
        let i_src = self.ensure_row(src);
        let ghost g1 = *self;
        proof {
            lemma_rows_idx(g1.adj_list@, src as int);
            assert(g1.adj_list@[i_src as int].edges@ == g1.edges_at(src as int));
            assert(g1.edges_at(src as int) == g0.edges_at(src as int));
            assert(list_unique(g1.edges_at(src as int)));
        }
        let mut row = self.adj_list.remove(i_src);
        let removed_src = unset_edge(&mut row.edges, dest);
        let ghost rown = row;
        self.adj_list.insert(i_src, row);
        let ghost g2 = *self;
        proof {
            assert(g2.adj_list@ =~= g1.adj_list@.update(i_src as int, rown));
            lemma_rows_update(g1.adj_list@, i_src as int, rown);
            lemma_ends_update(g1.adj_list@, i_src as int, rown);
            assert(g2.edges_at(src as int) == rown.edges@);
            assert(forall|b: int| b != src as int ==> g2.edges_at(b) == g0.edges_at(b));
            assert(removed_src == g0.adjacent(src as int, dest as int));
            assert(g2.ends() + (if removed_src { 1int } else { 0int }) == g0.ends());
        }

        // Second endpoint: take the descriptor for `src` out of `dest`'s set.
        let i_dest = self.ensure_row(dest);
        let ghost g3 = *self;
        proof {
            lemma_rows_idx(g3.adj_list@, dest as int);
            assert(g3.adj_list@[i_dest as int].edges@ == g3.edges_at(dest as int));
            if src != dest {
                assert(g3.edges_at(dest as int) == g0.edges_at(dest as int));
            }
            assert(list_unique(g3.edges_at(dest as int)));
        }
        let mut row2 = self.adj_list.remove(i_dest);
        let removed_dest = unset_edge(&mut row2.edges, src);
        let ghost rown2 = row2;
        self.adj_list.insert(i_dest, row2);
        let ghost g4 = *self;
        proof {
            assert(g4.adj_list@ =~= g3.adj_list@.update(i_dest as int, rown2));
            lemma_rows_update(g3.adj_list@, i_dest as int, rown2);
            lemma_ends_update(g3.adj_list@, i_dest as int, rown2);
            assert(g4.edges_at(dest as int) == rown2.edges@);
            if src != dest {
                assert(g4.edges_at(src as int) == rown.edges@);
                assert(removed_dest == g0.adjacent(dest as int, src as int));
                assert(removed_dest == removed_src) by {
                    if g0.adjacent(src as int, dest as int) {
                        assert(g0.adjacent(dest as int, src as int));
                    }
                    if g0.adjacent(dest as int, src as int) {
                        assert(g0.adjacent(src as int, dest as int));
                    }
                }
            } else {
                assert(!removed_src) by {
                    if list_has(g0.edges_at(src as int), dest as int) {
                        let k = list_idx(g0.edges_at(src as int), dest as int);
                        assert(g0.edges_at(src as int)[k].dest as int != src as int);
                    }
                }
            }
            assert(forall|b: int|
                b != src as int && b != dest as int ==> g4.edges_at(b) == g0.edges_at(b));
            assert forall|b: int|
                g4.has_adj(b) == (g0.has_adj(b) || b == src as int || b == dest as int) by {
                assert(rows_has(g4.adj_list@, b) == rows_has(g3.adj_list@, b));
                assert(g3.has_adj(b) == (g2.has_adj(b) || b == dest as int));
                assert(rows_has(g2.adj_list@, b) == rows_has(g1.adj_list@, b));
                assert(g1.has_adj(b) == (g0.has_adj(b) || b == src as int));
            }
        }

        if removed_src && removed_dest {
            proof {
                assert(self.node_list@ == g0.node_list@);
                assert(g0.has_record(src as int)) by {
                    assert(g0.adjacent(dest as int, src as int));
                }
                assert(g0.has_record(dest as int));
            }
            let js = match self.find_rec_index(src) {
                Some(j) => j,
                None => { proof { assert(false); } 0 },
            };
            let jd = match self.find_rec_index(dest) {
                Some(j) => j,
                None => { proof { assert(false); } 0 },
            };
            proof {
                lemma_recs_idx(g0.node_list@, src as int);
                lemma_recs_idx(g0.node_list@, dest as int);
                assert(js != jd);
                assert(g0.node_list@[js as int].degree == g0.deg(src as int));
                assert(g0.deg(src as int) > 0) by {
                    assert(list_has(g0.edges_at(src as int), dest as int));
                    let k = list_idx(g0.edges_at(src as int), dest as int);
                    assert(0 <= k < g0.edges_at(src as int).len());
                }
                assert(g0.node_list@[jd as int].degree == g0.deg(dest as int));
                assert(g0.deg(dest as int) > 0) by {
                    assert(list_has(g0.edges_at(dest as int), src as int));
                    let k = list_idx(g0.edges_at(dest as int), src as int);
                    assert(0 <= k < g0.edges_at(dest as int).len());
                }
            }
            let mut ns = self.node_list[js];
            ns.decrement_degree();
            self.node_list.set(js, ns);
            proof {
                lemma_recs_update(g0.node_list@, js as int, ns);
            }
            let ghost recs1 = self.node_list@;
            let mut nd = self.node_list[jd];
            nd.decrement_degree();
            self.node_list.set(jd, nd);
            let ghost gf = *self;
            proof {
                lemma_recs_idx(recs1, dest as int);
                assert(recs1[jd as int].id == dest);
                lemma_recs_update(recs1, jd as int, nd);
                assert(gf.edges_at(src as int) == rown.edges@);
                assert(gf.edges_at(dest as int) == rown2.edges@);
                assert forall|b: int|
                    b != src as int && b != dest as int implies gf.edges_at(b) == g0.edges_at(
                    b,
                ) by {
                    assert(g4.edges_at(b) == g0.edges_at(b));
                }
                assert(gf.record_at(src as int).degree + 1 == g0.record_at(src as int).degree);
                assert(gf.record_at(dest as int).degree + 1 == g0.record_at(dest as int).degree);
                assert(gf.ends() + 2 == g0.ends());
                Self::lemma_remove_edge_shape(g0, gf, src, dest);
            }
            Ok(())
        } else {
            let ghost gf = *self;
            proof {
                assert(!g0.adjacent(src as int, dest as int));
                assert(!removed_src && !removed_dest);
                assert(rown.edges@ == g0.edges_at(src as int));
                assert(rown2.edges@ == g3.edges_at(dest as int));
                assert forall|b: int| gf.edges_at(b) == g0.edges_at(b) by {
                    if b == dest as int {
                        assert(gf.edges_at(b) == rown2.edges@);
                        if src != dest {
                            assert(g3.edges_at(dest as int) == g0.edges_at(dest as int));
                        } else {
                            assert(g3.edges_at(dest as int) == rown.edges@);
                        }
                    } else if b == src as int {
                        assert(gf.edges_at(b) == rown.edges@);
                    } else {
                        assert(g4.edges_at(b) == g0.edges_at(b));
                    }
                }
                assert(gf.ends() == g0.ends());
                lemma_wf_pointwise(g0, gf);
                assert forall|a: int, b: int| gf.adjacent(a, b) == g0.adjacent(a, b) by {
                    assert(gf.edges_at(a) == g0.edges_at(a));
                }
                assert forall|a: int, b: int| g0.adjacent(a, b) implies gf.edge_weight(a, b)
                    == g0.edge_weight(a, b) by {
                    assert(gf.edges_at(a) == g0.edges_at(a));
                }
            }
            Err(GraphError::NotFound)
        }
    }

    // -----------------------------------------------------------------------
    // Queries.
    // -----------------------------------------------------------------------

    /// The weight of the edge between `src` and `dest`, read from `src`'s
    /// edge set; reports [`GraphError::NotFound`] when there is no such edge.
    /// As in the underlying adjacency container, an empty edge set is
    /// materialised for `src` if it had none.
    pub fn get_edge_weight(&mut self, src: usize, dest: usize) -> (r: Result<i32, GraphError>)
        requires
            old(self).wf(),
        ensures
            final(self).wf(),
            final(self).order == old(self).order,
            final(self).node_list@ == old(self).node_list@,
            final(self).ends() == old(self).ends(),
            forall|a: int, b: int| final(self).adjacent(a, b) == old(self).adjacent(a, b),
            forall|a: int, b: int|
                old(self).adjacent(a, b) ==> final(self).edge_weight(a, b) == old(
                    self,
                ).edge_weight(a, b),
            forall|b: int| final(self).has_adj(b) == (old(self).has_adj(b) || b == src as int),
            (match r {
                Ok(w) => old(self).adjacent(src as int, dest as int) && w as int == old(
                    self,
                ).edge_weight(src as int, dest as int),
                Err(e) => !old(self).adjacent(src as int, dest as int) && e
                    == GraphError::NotFound,
            }),
    {
        let i = self.ensure_row(src);
        proof {
            lemma_rows_idx(self.adj_list@, src as int);
            assert(self.adj_list@[i as int].edges@ == self.edges_at(src as int));
            assert(list_unique(self.edges_at(src as int)));
            assert forall|a: int, b: int| self.adjacent(a, b) == old(self).adjacent(a, b) by {
                assert(self.edges_at(a) == old(self).edges_at(a));
            }
            assert forall|a: int, b: int| old(self).adjacent(a, b) implies self.edge_weight(a, b)
                == old(self).edge_weight(a, b) by {
                assert(self.edges_at(a) == old(self).edges_at(a));
            }
        }
        match find_edge_index(&self.adj_list[i].edges, dest) {
            Some(k) => {
                proof {
                    assert(self.edge_weight(src as int, dest as int) == self.adj_list@[i as int].edges@[k as int].weight as int);
                }
                Ok(self.adj_list[i].edges[k].get_weight())
            },
            None => Err(GraphError::NotFound),
        }
    }

    /// The number of undirected edges: half the sum of all edge-set sizes,
    /// which is exact because the adjacency is symmetric.
    pub fn get_num_edges(&self) -> (n: usize)
        requires
            self.wf(),
        ensures
            n == self.spec_num_edges(),
    {
        let len = self.adj_list.len();
        let mut total: usize = 0;
        let mut i: usize = 0;
        while i < len
            invariant
                len == self.adj_list@.len(),
                i <= len,
                self.wf(),
                total == rows_ends(self.adj_list@.subrange(0, i as int)),
            decreases len - i,
        {
            proof {
                lemma_ends_prefix(self.adj_list@, i as int);
                lemma_ends_prefix_bound(self.adj_list@, i as int + 1);
            }
            total = total + self.adj_list[i].edges.len();
            i = i + 1;
        }
        proof {
            assert(self.adj_list@.subrange(0, len as int) =~= self.adj_list@);
        }
        total / 2
    }

    /// All degree counters equal the declared order less one.
    pub open spec fn degrees_complete(self) -> bool {
        forall|j: int|
            0 <= j < self.node_list@.len() ==> (#[trigger] self.node_list@[j]).degree as int
                == self.order as int - 1
    }

    /// The graph is complete: the edge count matches `order * (order - 1) / 2`
    /// and every node record's degree is `order - 1`.
    pub open spec fn is_complete_spec(self) -> bool {
        &&& self.spec_num_edges() as int == (self.order as int * (self.order as int - 1)) / 2
        &&& self.degrees_complete()
    }

    /// Whether the graph is complete.  The edge count and the degree
    /// counters are checked independently of each other, as the two are kept
    /// by separate bookkeeping.
    pub fn is_complete(&self) -> (r: bool)
        requires
            self.wf(),
        ensures
            r == self.is_complete_spec(),
    {
        let num = self.get_num_edges();
        let edge_condition: bool = if self.order == 0 {
            num == 0
        } else {
            proof {
                assert((self.order as u128) * ((self.order - 1) as u128) <= u128::MAX)
                    by (nonlinear_arith)
                    requires
                        self.order as u128 <= 0xffff_ffff_ffff_ffffu128,
                ;
            }
            (num as u128) == (self.order as u128) * ((self.order - 1) as u128) / 2
        };
        let mut deg_ok: bool = true;
        let recs = self.node_list.len();
        let mut j: usize = 0;
        while j < recs
            invariant
                recs == self.node_list@.len(),
                j <= recs,
                deg_ok == (forall|k: int|
                    0 <= k < j ==> (#[trigger] self.node_list@[k]).degree as int == self.order
                        as int - 1),
            decreases recs - j,
        {
            let d = self.node_list[j].degree;
            let here: bool = if self.order == 0 {
                false
            } else {
                d == self.order - 1
            };
            deg_ok = deg_ok && here;
            j = j + 1;
        }
        edge_condition && deg_ok
    }

    /// The edge set at `node`, materialising an empty one if the node had no
    /// adjacency row.  Destinations are the node's open neighbourhood.
    pub fn get_open_neighborhood(&mut self, node: usize) -> (r: &Vec<Edge>)
        requires
            old(self).wf(),
        ensures
            final(self).wf(),
            final(self).order == old(self).order,
            final(self).node_list@ == old(self).node_list@,
            final(self).ends() == old(self).ends(),
            forall|a: int, b: int| final(self).adjacent(a, b) == old(self).adjacent(a, b),
            forall|a: int, b: int|
                old(self).adjacent(a, b) ==> final(self).edge_weight(a, b) == old(
                    self,
                ).edge_weight(a, b),
            forall|b: int| final(self).has_adj(b) == (old(self).has_adj(b) || b == node as int),
            r@ == old(self).edges_at(node as int),
    {
        let i = self.ensure_row(node);
        proof {
            lemma_rows_idx(self.adj_list@, node as int);
        }
        &self.adj_list[i].edges
    }
}

/// The descriptor `(a, b)` stands in `g`'s rows strictly before the position
/// `(i, k)` of a row-by-row, descriptor-by-descriptor walk.
spec fn listed_before(g: Graph, i: int, k: int, a: int, b: int) -> bool {
    exists|ii: int, kk: int|
        #![trigger g.adj_list@[ii].edges@[kk]]
        0 <= ii < g.adj_list@.len() && 0 <= kk < g.adj_list@[ii].edges@.len() && (ii < i || (ii == i
            && kk < k)) && g.adj_list@[ii].node as int == a && g.adj_list@[ii].edges@[kk].dest
            as int == b
}

impl Graph {
    /// Every destination named by an edge lies in `1 ..= n`.
    pub open spec fn dests_within(self, n: int) -> bool {
        forall|a: int, b: int| #[trigger] self.adjacent(a, b) ==> 1 <= b <= n
    }

    /// Adds every edge of `self` to `u`, row by row.  Edges already in `u`
    /// have their weight overwritten by `self`'s.
    #[verifier::rlimit(100)]
    fn add_edges_into(&self, u: &mut Graph)
        requires
            self.wf(),
            old(u).wf(),
            forall|a: int, b: int|
                #[trigger] self.adjacent(a, b) ==> old(u).has_record(a) && old(u).has_record(b),
            old(u).ends() + 2 * self.ends() <= usize::MAX,
        ensures
            final(u).wf(),
            final(u).order == old(u).order,
            forall|b: int| final(u).has_record(b) == old(u).has_record(b),
            forall|b: int|
                old(u).has_record(b) ==> final(u).record_at(b).id == old(u).record_at(b).id
                    && final(u).record_at(b).weight == old(u).record_at(b).weight,
            forall|a: int, b: int|
                final(u).adjacent(a, b) == (old(u).adjacent(a, b) || self.adjacent(a, b)),
            forall|a: int, b: int|
                final(u).adjacent(a, b) ==> final(u).edge_weight(a, b) == (if self.adjacent(
                    a,
                    b,
                ) {
                    self.edge_weight(a, b)
                } else {
                    old(u).edge_weight(a, b)
                }),
            final(u).ends() <= old(u).ends() + 2 * self.ends(),
    {
        let ghost u0 = *u;
        let rows = self.adj_list.len();
        let mut i: usize = 0;
        while i < rows
            invariant
                self.wf(),
                u.wf(),
                rows == self.adj_list@.len(),
                i <= rows,
                forall|a: int, b: int|
                    #[trigger] self.adjacent(a, b) ==> u0.has_record(a) && u0.has_record(b),
                u0.ends() + 2 * self.ends() <= usize::MAX,
                u.order == u0.order,
                forall|b: int| u.has_record(b) == u0.has_record(b),
                forall|b: int|
                    u0.has_record(b) ==> u.record_at(b).id == u0.record_at(b).id && u.record_at(
                        b,
                    ).weight == u0.record_at(b).weight,
                forall|a: int, b: int| u0.adjacent(a, b) ==> u.adjacent(a, b),
                forall|a: int, b: int|
                    u.adjacent(a, b) ==> u0.adjacent(a, b) || self.adjacent(a, b),
                forall|a: int, b: int|
                    listed_before(*self, i as int, 0, a, b) ==> u.adjacent(a, b),
                forall|a: int, b: int|
                    u.adjacent(a, b) && !self.adjacent(a, b) ==> u.edge_weight(a, b)
                        == u0.edge_weight(a, b),
                forall|a: int, b: int|
                    listed_before(*self, i as int, 0, a, b) ==> u.edge_weight(a, b)
                        == self.edge_weight(a, b) && u.edge_weight(b, a) == self.edge_weight(a, b),
                u.ends() <= u0.ends() + 2 * rows_ends(self.adj_list@.subrange(0, i as int)),
            decreases rows - i,
        {
            let ghost selfg = *self;
            proof {
                lemma_rows_idx(self.adj_list@, self.adj_list@[i as int].node as int);
            }
            let cols = self.adj_list[i].edges.len();
            let mut k: usize = 0;
            while k < cols
                invariant
                    selfg == *self,
                    self.wf(),
                    u.wf(),
                    rows == self.adj_list@.len(),
                    i < rows,
                    cols == self.adj_list@[i as int].edges@.len(),
                    k <= cols,
                    rows_idx(self.adj_list@, self.adj_list@[i as int].node as int) == i as int,
                    forall|a: int, b: int|
                        #[trigger] self.adjacent(a, b) ==> u0.has_record(a) && u0.has_record(b),
                    u0.ends() + 2 * self.ends() <= usize::MAX,
                    u.order == u0.order,
                    forall|b: int| u.has_record(b) == u0.has_record(b),
                    forall|b: int|
                        u0.has_record(b) ==> u.record_at(b).id == u0.record_at(b).id
                            && u.record_at(b).weight == u0.record_at(b).weight,
                    forall|a: int, b: int| u0.adjacent(a, b) ==> u.adjacent(a, b),
                    forall|a: int, b: int|
                        u.adjacent(a, b) ==> u0.adjacent(a, b) || self.adjacent(a, b),
                    forall|a: int, b: int|
                        listed_before(*self, i as int, k as int, a, b) ==> u.adjacent(a, b),
                    forall|a: int, b: int|
                        u.adjacent(a, b) && !self.adjacent(a, b) ==> u.edge_weight(a, b)
                            == u0.edge_weight(a, b),
                    forall|a: int, b: int|
                        listed_before(*self, i as int, k as int, a, b) ==> u.edge_weight(a, b)
                            == self.edge_weight(a, b) && u.edge_weight(b, a) == self.edge_weight(
                            a,
                            b,
                        ),
                    u.ends() <= u0.ends() + 2 * (rows_ends(
                        self.adj_list@.subrange(0, i as int),
                    ) + k as int),
                decreases cols - k,
            {
                let a = self.adj_list[i].node;
                let e = self.adj_list[i].edges[k];
                let ghost upre = *u;
                proof {
                    assert(self.edges_at(a as int) == self.adj_list@[i as int].edges@);
                    assert(self.adjacent(a as int, e.dest as int));
                    assert(self.edge_weight(a as int, e.dest as int) == e.weight as int) by {
                        let kk = list_idx(self.edges_at(a as int), e.dest as int);
                        assert(self.edges_at(a as int)[kk].dest == e.dest);
                        assert(kk == k as int);
                    }
                    assert(e.weight >= 1);
                    assert(u.has_record(a as int) && u.has_record(e.dest as int));
                    assert(e.dest != a);
                    assert(u.ends() + 2 <= usize::MAX) by {
                        lemma_ends_prefix(self.adj_list@, i as int);
                        lemma_ends_prefix_bound(self.adj_list@, i as int + 1);
                    }
                }
                let res = u.add_edge(a, e.dest, e.weight);
                proof {
                    assert(res == Ok::<(), GraphError>(()));
                    assert(add_edge_post(upre, *u, a as int, e.dest as int, e.weight as int));
                    assert forall|x: int, y: int|
                        listed_before(*self, i as int, k as int + 1, x, y) implies u.adjacent(
                        x,
                        y,
                    ) && u.edge_weight(x, y) == self.edge_weight(x, y) && u.edge_weight(y, x)
                        == self.edge_weight(x, y) by {
                        let (ii, kk): (int, int) = choose|ii: int, kk: int|
                            #![trigger selfg.adj_list@[ii].edges@[kk]]
                            0 <= ii < selfg.adj_list@.len() && 0 <= kk
                                < selfg.adj_list@[ii].edges@.len() && (ii < i as int || (ii
                                == i as int && kk < k as int + 1)) && selfg.adj_list@[ii].node
                                as int == x && selfg.adj_list@[ii].edges@[kk].dest as int == y;
                        if ii == i as int && kk == k as int {
                            assert(x == a as int && y == e.dest as int);
                        } else {
                            assert(listed_before(*self, i as int, k as int, x, y));
                            assert(upre.adjacent(x, y));
                            assert(upre.edge_weight(x, y) == self.edge_weight(x, y));
                            assert(upre.edge_weight(y, x) == self.edge_weight(x, y));
                            if (x == a as int && y == e.dest as int) || (x == e.dest as int && y
                                == a as int) {
                                assert(self.adjacent(a as int, e.dest as int));
                                assert(self.adjacent(e.dest as int, a as int));
                                assert(self.edge_weight(e.dest as int, a as int)
                                    == self.edge_weight(a as int, e.dest as int));
                            }
                        }
                    }
                    assert forall|x: int, y: int|
                        u.adjacent(x, y) && !self.adjacent(x, y) implies u.edge_weight(x, y)
                        == u0.edge_weight(x, y) by {
                        assert(!(x == a as int && y == e.dest as int) && !(x == e.dest as int && y
                            == a as int)) by {
                            assert(self.adjacent(a as int, e.dest as int));
                            assert(self.adjacent(e.dest as int, a as int));
                        }
                        assert(upre.adjacent(x, y));
                    }
                }
                k = k + 1;
            }
            proof {
                lemma_ends_prefix(self.adj_list@, i as int);
                assert forall|x: int, y: int|
                    listed_before(*self, i as int + 1, 0, x, y) implies listed_before(
                    *self,
                    i as int,
                    cols as int,
                    x,
                    y,
                ) by {
                    let (ii, kk): (int, int) = choose|ii: int, kk: int|
                        #![trigger selfg.adj_list@[ii].edges@[kk]]
                        0 <= ii < selfg.adj_list@.len() && 0 <= kk
                            < selfg.adj_list@[ii].edges@.len() && (ii < i as int + 1 || (ii
                            == i as int + 1 && kk < 0)) && selfg.adj_list@[ii].node as int == x
                            && selfg.adj_list@[ii].edges@[kk].dest as int == y;
                    assert(ii < i as int || (ii == i as int && kk < cols as int));
                    assert(selfg.adj_list@[ii].edges@[kk].dest as int == y);
                }
            }
            i = i + 1;
        }
        proof {
            assert(self.adj_list@.subrange(0, rows as int) =~= self.adj_list@);
            assert forall|a: int, b: int| self.adjacent(a, b) implies u.adjacent(a, b)
                && u.edge_weight(a, b) == self.edge_weight(a, b) by {
                lemma_rows_idx(self.adj_list@, a);
                let ii = rows_idx(self.adj_list@, a);
                let kk = list_idx(self.edges_at(a), b);
                assert(self.adj_list@[ii].edges@ == self.edges_at(a));
                assert(0 <= kk < self.adj_list@[ii].edges@.len());
                assert(self.adj_list@[ii].edges@[kk].dest as int == b);
                assert(listed_before(*self, rows as int, 0, a, b));
            }
        }
    }

    /// A new graph whose order is the larger of the two orders, with node
    /// records for ids `1 ..= order`, holding every edge of either graph;
    /// where both graphs carry the same edge, `other`'s weight wins.  Both
    /// inputs must keep their endpoints within `1 ..= order`: the union
    /// registers records for those ids alone, and an edge to any other id
    /// would find no record for its degree counter.  The size bound leaves
    /// room to re-add every descriptor of both graphs.
    pub fn get_union(&self, other: Graph) -> (u: Graph)
        requires
            self.wf(),
            other.wf(),
            self.dests_within(
                if self.order >= other.order {
                    self.order as int
                } else {
                    other.order as int
                },
            ),
            other.dests_within(
                if self.order >= other.order {
                    self.order as int
                } else {
                    other.order as int
                },
            ),
            self.ends() + other.ends() <= usize::MAX / 2,
        ensures
            u.wf(),
            u.order == (if self.order >= other.order {
                self.order
            } else {
                other.order
            }),
            forall|id: int| u.has_record(id) == (1 <= id <= u.order as int),
            forall|id: int|
                1 <= id <= u.order as int ==> (#[trigger] u.record_at(id)).id as int == id
                    && u.record_at(id).weight as int == id % 200 + 1,
            forall|a: int, b: int|
                u.adjacent(a, b) == (self.adjacent(a, b) || other.adjacent(a, b)),
            forall|a: int, b: int|
                u.adjacent(a, b) ==> u.edge_weight(a, b) == (if other.adjacent(a, b) {
                    other.edge_weight(a, b)
                } else {
                    self.edge_weight(a, b)
                }),
    {
        let mut u = Graph::new();
        if self.order > other.order {
            u.order = self.order;
        } else {
            u.order = other.order;
        }
        let m = u.order;
        let mut i: usize = 0;
        while i < m
            invariant
                u.wf(),
                u.order == m,
                m == (if self.order >= other.order {
                    self.order
                } else {
                    other.order
                }),
                i <= m,
                u.node_list@.len() == i,
                u.adj_list@.len() == 0,
                u.ends() == 0,
                forall|a: int, b: int| !u.adjacent(a, b),
                forall|id: int| u.has_record(id) == (1 <= id <= i as int),
                forall|id: int|
                    1 <= id <= i as int ==> (#[trigger] u.record_at(id)).id as int == id
                        && u.record_at(id).weight as int == id % 200 + 1,
            decreases m - i,
        {
            i = i + 1;
            let ghost upre = u;
            u.add_node(i);
            proof {
                assert(u.node_list@ == upre.node_list@.push(
                    (Node { id: i, weight: ((i % 200) + 1) as u32, degree: 0 }),
                ));
                lemma_recs_push(
                    upre.node_list@,
                    (Node { id: i, weight: ((i % 200) + 1) as u32, degree: 0 }),
                );
                assert(u.adj_list@ == upre.adj_list@);
                assert forall|a: int, b: int| !u.adjacent(a, b) by {
                    assert(u.edges_at(a) == upre.edges_at(a));
                }
            }
        }
        let ghost unodes = u;
        self.add_edges_into(&mut u);
        let ghost u1 = u;
        other.add_edges_into(&mut u);
        proof {
            assert forall|id: int| 1 <= id <= u.order as int implies (
            #[trigger] u.record_at(id)).id as int == id && u.record_at(id).weight as int == id
                % 200 + 1 by {
                assert(unodes.has_record(id));
                assert(unodes.record_at(id).id as int == id);
                assert(unodes.record_at(id).weight as int == id % 200 + 1);
                assert(u1.record_at(id).id == unodes.record_at(id).id && u1.record_at(id).weight
                    == unodes.record_at(id).weight);
                assert(u.record_at(id).id == u1.record_at(id).id && u.record_at(id).weight
                    == u1.record_at(id).weight);
            }
            assert forall|a: int, b: int|
                u.adjacent(a, b) == (self.adjacent(a, b) || other.adjacent(a, b)) by {
                assert(u1.adjacent(a, b) == self.adjacent(a, b));
            }
            assert forall|a: int, b: int| u.adjacent(a, b) implies u.edge_weight(a, b) == (
            if other.adjacent(a, b) {
                other.edge_weight(a, b)
            } else {
                self.edge_weight(a, b)
            }) by {
                assert(u1.adjacent(a, b) == self.adjacent(a, b));
                if !other.adjacent(a, b) {
                    assert(self.adjacent(a, b));
                    assert(u.edge_weight(a, b) == u1.edge_weight(a, b));
                }
            }
        }
        u
    }
}

impl Graph {
    /// The reference node for the complement construction: the key of the
    /// first adjacency row.  Meaningful only when some row exists.
    pub open spec fn anchor(self) -> int {
        self.adj_list@[0].node as int
    }

    /// Node `i` is one the complement construction must connect to the
    /// anchor: in range, distinct from the anchor and not its neighbour.
    pub open spec fn complement_target(self, i: int) -> bool {
        &&& self.adj_list@.len() > 0
        &&& 1 <= i <= self.order as int
        &&& i != self.anchor()
        &&& !self.adjacent(self.anchor(), i)
    }

    /// Some complement target, or the anchor itself, lacks a node record,
    /// so the construction cannot keep the degree counters and fails.
    pub open spec fn complement_blocked(self) -> bool {
        exists|i: int|
            #[trigger] self.complement_target(i) && !(self.has_record(self.anchor())
                && self.has_record(i))
    }

    /// What the complement construction yields: a graph of the same order,
    /// with the same node records (degrees recounted), whose edges are
    /// exactly the anchor joined to each target, all with weight one.
    pub open spec fn complement_post(g: Graph, c: Graph) -> bool {
        &&& c.wf()
        &&& c.order == g.order
        &&& forall|b: int| c.has_record(b) == g.has_record(b)
        &&& forall|b: int|
            g.has_record(b) ==> c.record_at(b).id == g.record_at(b).id && c.record_at(b).weight
                == g.record_at(b).weight
        &&& forall|a: int, b: int|
            c.adjacent(a, b) == ((a == g.anchor() && g.complement_target(b)) || (b == g.anchor()
                && g.complement_target(a)))
        &&& forall|a: int, b: int| c.adjacent(a, b) ==> c.edge_weight(a, b) == 1
    }

    /// The partial complement anchored at the first adjacency row: reports
    /// [`GraphError::AlreadyComplete`] on a complete graph; otherwise joins
    /// the anchor with weight-one edges to every id in `1 ..= order` that is
    /// neither the anchor nor already its neighbour.  Reports
    /// [`GraphError::NotFound`] when a node record needed for the degree
    /// bookkeeping is missing.  The order bound leaves room for the anchor's
    /// new descriptors.
    #[verifier::rlimit(100)]
    pub fn get_complement(&self) -> (r: Result<Graph, GraphError>)
        requires
            self.wf(),
            self.order <= usize::MAX / 2,
        ensures
            self.is_complete_spec() ==> r == Err::<Graph, GraphError>(
                GraphError::AlreadyComplete,
            ),
            !self.is_complete_spec() ==> match r {
                Ok(c) => Self::complement_post(*self, c) && !self.complement_blocked(),
                Err(e) => e == GraphError::NotFound && self.complement_blocked(),
            },
    {
        if self.is_complete() {
            return Err(GraphError::AlreadyComplete);
        }
        let mut c = Graph::new();
        c.order = self.order;

        // Clone the node records; the degree counters restart at zero and
        // are recounted as the complement's own edges are added.
        let recs = self.node_list.len();
        let mut j: usize = 0;
        while j < recs
            invariant
                self.wf(),
                recs == self.node_list@.len(),
                j <= recs,
                c.order == self.order,
                c.adj_list@.len() == 0,
                c.ends() == 0,
                forall|a: int, b: int| !c.adjacent(a, b),
                c.node_list@.len() == j,
                forall|jj: int|
                    0 <= jj < j ==> (#[trigger] c.node_list@[jj]).id == self.node_list@[jj].id
                        && c.node_list@[jj].weight == self.node_list@[jj].weight
                        && c.node_list@[jj].degree == 0,
                c.wf(),
            decreases recs - j,
        {
            let n = self.node_list[j];
            let ghost cpre = c;
            c.node_list.push(Node::new(n.id, n.weight));
            proof {
                assert forall|i1: int, j1: int| 0 <= i1 < j1 < c.node_list@.len() implies
                    c.node_list@[i1].id != c.node_list@[j1].id by {
                    assert(self.node_list@[i1].id != self.node_list@[j1].id);
                }
                assert forall|a: int, b: int| !c.adjacent(a, b) by {
                    assert(c.edges_at(a) == cpre.edges_at(a));
                }
                assert(c.degrees_ok()) by {
                    assert forall|jj: int| 0 <= jj < c.node_list@.len() implies (
                    #[trigger] c.node_list@[jj]).degree == c.deg(c.node_list@[jj].id as int) by {
                        assert(c.node_list@[jj].degree == 0);
                        assert(!rows_has(c.adj_list@, c.node_list@[jj].id as int));
                    }
                }
                assert(c.symmetric() && c.dests_have_records() && c.lists_ok());
            }
            j = j + 1;
        }
        proof {
            assert forall|b: int| c.has_record(b) == self.has_record(b) by {
                if recs_has(c.node_list@, b) {
                    let k = recs_idx(c.node_list@, b);
                    assert(self.node_list@[k].id as int == b);
                }
                if recs_has(self.node_list@, b) {
                    let k = recs_idx(self.node_list@, b);
                    assert(c.node_list@[k].id as int == b);
                }
            }
            assert forall|b: int| self.has_record(b) implies c.record_at(b).id == self.record_at(
                b,
            ).id && c.record_at(b).weight == self.record_at(b).weight by {
                lemma_recs_idx(self.node_list@, b);
                let k = recs_idx(self.node_list@, b);
                assert(c.node_list@[k].id as int == b);
                lemma_recs_idx(c.node_list@, b);
                assert(recs_idx(c.node_list@, b) == k);
            }
        }

        if self.adj_list.len() == 0 {
            return Ok(c);
        }
        let anchor_node = self.adj_list[0].node;
        proof {
            assert(rows_has(self.adj_list@, anchor_node as int));
            lemma_rows_idx(self.adj_list@, anchor_node as int);
            assert(rows_idx(self.adj_list@, anchor_node as int) == 0);
            assert(self.edges_at(anchor_node as int) == self.adj_list@[0].edges@);
        }
        let mut i: usize = 0;
        while i < self.order
            invariant
                self.wf(),
                c.wf(),
                !self.is_complete_spec(),
                self.order <= usize::MAX / 2,
                i <= self.order,
                c.order == self.order,
                self.adj_list@.len() > 0,
                anchor_node as int == self.anchor(),
                self.edges_at(anchor_node as int) == self.adj_list@[0].edges@,
                forall|b: int| c.has_record(b) == self.has_record(b),
                forall|b: int|
                    self.has_record(b) ==> c.record_at(b).id == self.record_at(b).id
                        && c.record_at(b).weight == self.record_at(b).weight,
                forall|a: int, b: int|
                    c.adjacent(a, b) == ((a == self.anchor() && self.complement_target(b) && b
                        <= i as int) || (b == self.anchor() && self.complement_target(a) && a
                        <= i as int)),
                forall|a: int, b: int| c.adjacent(a, b) ==> c.edge_weight(a, b) == 1,
                forall|t: int|
                    #[trigger] self.complement_target(t) && t <= i as int ==> self.has_record(
                        self.anchor(),
                    ) && self.has_record(t),
                c.ends() <= 2 * i,
            decreases self.order - i,
        {
            i = i + 1;
            if i != anchor_node {
                let present = match find_edge_index(&self.adj_list[0].edges, i) {
                    Some(_) => true,
                    None => false,
                };
                proof {
                    assert(present == self.adjacent(self.anchor(), i as int));
                }
                if !present {
                    let ghost cpre = c;
                    let res = c.add_edge(anchor_node, i, 1);
                    match res {
                        Ok(_) => {
                            proof {
                                assert(add_edge_post(cpre, c, self.anchor(), i as int, 1));
                                assert(self.has_record(self.anchor()) && self.has_record(
                                    i as int,
                                ));
                                assert forall|a: int, b: int|
                                    c.adjacent(a, b) == ((a == self.anchor()
                                        && self.complement_target(b) && b <= i as int) || (b
                                        == self.anchor() && self.complement_target(a) && a
                                        <= i as int)) by {
                                    assert(c.adjacent(a, b) == (cpre.adjacent(a, b) || (a
                                        == self.anchor() && b == i as int) || (a == i as int && b
                                        == self.anchor())));
                                }
                                assert forall|a: int, b: int| c.adjacent(a, b)
                                    implies c.edge_weight(a, b) == 1 by {
                                    if (a == self.anchor() && b == i as int) || (a == i as int
                                        && b == self.anchor()) {
                                    } else {
                                        assert(cpre.adjacent(a, b));
                                    }
                                }
                            }
                        },
                        Err(_) => {
                            proof {
                                assert(self.complement_target(i as int));
                                assert(!(self.has_record(self.anchor()) && self.has_record(
                                    i as int,
                                )));
                                assert(self.complement_blocked());
                            }
                            return Err(GraphError::NotFound);
                        },
                    }
                }
            }
        }
        proof {
            assert forall|a: int, b: int|
                c.adjacent(a, b) == ((a == self.anchor() && self.complement_target(b)) || (b
                    == self.anchor() && self.complement_target(a))) by {
                assert(self.complement_target(b) ==> b <= self.order as int);
                assert(self.complement_target(a) ==> a <= self.order as int);
            }
            assert(!self.complement_blocked()) by {
                if self.complement_blocked() {
                    let t = choose|t: int|
                        #[trigger] self.complement_target(t) && !(self.has_record(self.anchor())
                            && self.has_record(t));
                    assert(self.complement_target(t) && t <= self.order as int);
                }
            }
        }
        Ok(c)
    }
}

/// The edge set `now` is `orig` with the descriptor for `d` (if any) taken
/// out and nothing else changed.
pub open spec fn scrubbed_list(orig: Seq<Edge>, now: Seq<Edge>, d: int) -> bool {
    &&& list_unique(now)
    &&& !list_has(now, d)
    &&& forall|x: int| x != d ==> list_has(now, x) == list_has(orig, x)
    &&& forall|x: int| x != d && list_has(orig, x) ==> list_weight(now, x) == list_weight(orig, x)
    &&& now.len() + (if list_has(orig, d) {
        1int
    } else {
        0int
    }) == orig.len()
    &&& forall|k: int| 0 <= k < now.len() ==> orig.contains(now[k])
}

/// Destination `b` occurs among the first `k` descriptors of `s`.
pub open spec fn dest_before(s: Seq<Edge>, k: int, b: int) -> bool {
    exists|kk: int| 0 <= kk < k && kk < s.len() && (#[trigger] s[kk]).dest as int == b
}

impl Graph {
    /// Removes `node` entirely: its adjacency row, the descriptor pointing
    /// back at it in each neighbour's edge set (lowering that neighbour's
    /// degree counter), and its node record.  A no-op for a node that has no
    /// adjacency row, even if it has a record.
    #[verifier::rlimit(100)]
    pub fn remove_node(&mut self, node: usize)
        requires
            old(self).wf(),
        ensures
            final(self).wf(),
            final(self).order == old(self).order,
            !old(self).has_adj(node as int) ==> *final(self) == *old(self),
            old(self).has_adj(node as int) ==> {
                &&& forall|a: int, b: int|
                    final(self).adjacent(a, b) == (old(self).adjacent(a, b) && a != node as int
                        && b != node as int)
                &&& forall|a: int, b: int|
                    final(self).adjacent(a, b) ==> final(self).edge_weight(a, b) == old(
                        self,
                    ).edge_weight(a, b)
                &&& forall|b: int|
                    final(self).has_adj(b) == (old(self).has_adj(b) && b != node as int)
                &&& forall|b: int|
                    final(self).has_record(b) == (old(self).has_record(b) && b != node as int)
                &&& forall|b: int|
                    b != node as int && old(self).has_record(b) ==> final(self).record_at(b).id
                        == old(self).record_at(b).id && final(self).record_at(b).weight == old(
                        self,
                    ).record_at(b).weight
                &&& final(self).ends() + 2 * old(self).deg(node as int) == old(self).ends()
            },
    {
        let ghost g0 = *self;
        let ghost nodei = node as int;
        let i = match self.find_row_index(node) {
            Some(i) => i,
            None => { return ; },
        };
        proof {
            lemma_rows_idx(g0.adj_list@, nodei);
            assert(rows_idx(g0.adj_list@, nodei) == i as int);
            lemma_rows_remove(g0.adj_list@, i as int);
            lemma_ends_remove(g0.adj_list@, i as int);
        }
        let removed = self.adj_list.remove(i);
        proof {
            assert(removed.edges@ == g0.edges_at(nodei));
            assert(list_unique(removed.edges@));
            // No descriptor points back at the removed node from its own set.
            assert(!list_has(removed.edges@, nodei));
        }
        let len = removed.edges.len();
        let mut k: usize = 0;
        while k < len
            invariant
                g0.wf(),
                removed.edges@ == g0.edges_at(nodei),
                removed.node == node,
                nodei == node as int,
                len == removed.edges@.len(),
                k <= len,
                g0.has_adj(nodei),
                !list_has(removed.edges@, nodei),
                self.order == g0.order,
                self.adj_list@.len() + 1 == g0.adj_list@.len(),
                self.keys_unique(),
                forall|b: int| self.has_adj(b) == (g0.has_adj(b) && b != nodei),
                forall|b: int|
                    b != nodei && !dest_before(removed.edges@, k as int, b) ==> self.edges_at(b)
                        == g0.edges_at(b),
                forall|b: int|
                    dest_before(removed.edges@, k as int, b) ==> scrubbed_list(
                        g0.edges_at(b),
                        self.edges_at(b),
                        nodei,
                    ),
                self.ends() + k as int + removed.edges@.len() == g0.ends(),
                self.node_list@.len() == g0.node_list@.len(),
                self.ids_unique(),
                forall|b: int| self.has_record(b) == g0.has_record(b),
                forall|b: int|
                    g0.has_record(b) ==> self.record_at(b).id == g0.record_at(b).id
                        && self.record_at(b).weight == g0.record_at(b).weight,
                forall|b: int|
                    g0.has_record(b) ==> self.record_at(b).degree as int == g0.record_at(
                        b,
                    ).degree as int - (if dest_before(removed.edges@, k as int, b) {
                        1int
                    } else {
                        0int
                    }),
            decreases len - k,
        {
            let e = removed.edges[k];
            let ghost b = e.dest as int;
            proof {
                assert(g0.adjacent(nodei, b)) by {
                    assert(g0.edges_at(nodei)[k as int].dest as int == b);
                }
                assert(g0.adjacent(b, nodei));
                assert(g0.has_record(b));
                assert(b != nodei);
                assert(!dest_before(removed.edges@, k as int, b)) by {
                    if dest_before(removed.edges@, k as int, b) {
                        let kk = choose|kk: int|
                            0 <= kk < k as int && kk < removed.edges@.len() && (
                            #[trigger] removed.edges@[kk]).dest as int == b;
                        assert(removed.edges@[kk].dest == removed.edges@[k as int].dest);
                    }
                }
                assert(self.edges_at(b) == g0.edges_at(b));
                assert(self.has_adj(b)) by {
                    assert(g0.has_adj(b)) by {
                        if !g0.has_adj(b) {
                            assert(g0.edges_at(b) =~= Seq::<Edge>::empty());
                        }
                    }
                }
            }
            let jb = match self.find_row_index(e.dest) {
                Some(j) => j,
                None => { proof { assert(false); } 0 },
            };
            let ghost gpre = *self;
            proof {
                lemma_rows_idx(gpre.adj_list@, b);
                assert(gpre.adj_list@[jb as int].edges@ == gpre.edges_at(b));
                assert(list_unique(gpre.edges_at(b)));
            }
            let mut row = self.adj_list.remove(jb);
            let hit = unset_edge(&mut row.edges, node);
            let ghost rown = row;
            self.adj_list.insert(jb, row);
            proof {
                assert(self.adj_list@ =~= gpre.adj_list@.update(jb as int, rown));
                lemma_rows_update(gpre.adj_list@, jb as int, rown);
                lemma_ends_update(gpre.adj_list@, jb as int, rown);
                assert(hit) by {
                    assert(list_has(gpre.edges_at(b), nodei));
                }
                assert(self.edges_at(b) == rown.edges@);
                assert(scrubbed_list(g0.edges_at(b), self.edges_at(b), nodei));
                assert(self.ends() + 1 == gpre.ends());
            }
            let jr = match self.find_rec_index(e.dest) {
                Some(j) => j,
                None => { proof { assert(false); } 0 },
            };
            let ghost recs_pre = self.node_list@;
            proof {
                lemma_recs_idx(recs_pre, b);
                assert(recs_pre[jr as int] == self.record_at(b));
                assert(self.record_at(b).degree as int == g0.record_at(b).degree as int);
                assert(g0.record_at(b).degree == g0.deg(b));
                assert(g0.deg(b) >= 1) by {
                    let kk = list_idx(g0.edges_at(b), nodei);
                    assert(0 <= kk < g0.edges_at(b).len());
                }
            }
            let mut nb = self.node_list[jr];
            nb.decrement_degree();
            self.node_list.set(jr, nb);
            proof {
                lemma_recs_update(recs_pre, jr as int, nb);
                assert forall|x: int|
                    dest_before(removed.edges@, k as int + 1, x) implies scrubbed_list(
                    g0.edges_at(x),
                    self.edges_at(x),
                    nodei,
                ) by {
                    if x == b {
                    } else {
                        assert(dest_before(removed.edges@, k as int, x)) by {
                            let kk = choose|kk: int|
                                0 <= kk < k as int + 1 && kk < removed.edges@.len() && (
                                #[trigger] removed.edges@[kk]).dest as int == x;
                            assert(kk != k as int);
                        }
                        assert(self.edges_at(x) == gpre.edges_at(x));
                    }
                }
                assert forall|x: int|
                    x != nodei && !dest_before(removed.edges@, k as int + 1, x)
                    implies self.edges_at(x) == g0.edges_at(x) by {
                    assert(!dest_before(removed.edges@, k as int, x));
                    assert(x != b) by {
                        assert(removed.edges@[k as int].dest as int == b);
                    }
                    assert(self.edges_at(x) == gpre.edges_at(x));
                }
                assert forall|x: int|
                    g0.has_record(x) implies self.record_at(x).degree as int == g0.record_at(
                    x,
                ).degree as int - (if dest_before(removed.edges@, k as int + 1, x) {
                    1int
                } else {
                    0int
                }) by {
                    if x == b {
                        assert(dest_before(removed.edges@, k as int + 1, x)) by {
                            assert(removed.edges@[k as int].dest as int == b);
                        }
                    } else {
                        assert(dest_before(removed.edges@, k as int + 1, x) == dest_before(
                            removed.edges@,
                            k as int,
                            x,
                        )) by {
                            if dest_before(removed.edges@, k as int + 1, x) {
                                let kk = choose|kk: int|
                                    0 <= kk < k as int + 1 && kk < removed.edges@.len() && (
                                    #[trigger] removed.edges@[kk]).dest as int == x;
                                assert(kk != k as int);
                            }
                            if dest_before(removed.edges@, k as int, x) {
                            }
                        }
                        assert(recs_pre[jr as int].id as int == b);
                        lemma_recs_idx(recs_pre, x);
                    }
                }
            }
            k = k + 1;
        }
        // The node's own record, if any, goes too.
        let ghost gloop = *self;
        match self.find_rec_index(node) {
            Some(jr) => {
                proof {
                    lemma_recs_idx(gloop.node_list@, nodei);
                    lemma_recs_remove(gloop.node_list@, jr as int);
                }
                self.node_list.remove(jr);
            },
            None => {},
        }
        let ghost gf = *self;
        proof {
            assert(gf.adj_list@ == gloop.adj_list@);
            assert(forall|b: int| gf.edges_at(b) == gloop.edges_at(b));
            assert(forall|b: int| gf.has_record(b) == (g0.has_record(b) && b != nodei));
            assert(forall|b: int|
                b != nodei && g0.has_record(b) ==> gf.record_at(b) == gloop.record_at(b));

            // Which edge sets were scrubbed: exactly the neighbours of the
            // removed node.
            assert forall|x: int|
                dest_before(removed.edges@, len as int, x) == list_has(removed.edges@, x) by {
                if list_has(removed.edges@, x) {
                    let kk = list_idx(removed.edges@, x);
                    assert(0 <= kk < removed.edges@.len() && removed.edges@[kk].dest as int == x);
                }
            }

            // Adjacency of the result, pointwise.
            assert forall|a: int, b: int|
                gf.adjacent(a, b) == (g0.adjacent(a, b) && a != nodei && b != nodei) by {
                if a == nodei {
                    assert(!gf.has_adj(a));
                    assert(gf.edges_at(a) =~= Seq::<Edge>::empty());
                } else if list_has(removed.edges@, a) {
                    assert(scrubbed_list(g0.edges_at(a), gf.edges_at(a), nodei));
                    if b != nodei {
                        assert(list_has(gf.edges_at(a), b) == list_has(g0.edges_at(a), b));
                    }
                } else {
                    assert(gf.edges_at(a) == g0.edges_at(a));
                    if b == nodei && g0.adjacent(a, nodei) {
                        assert(g0.adjacent(nodei, a));
                        assert(list_has(removed.edges@, a));
                    }
                }
            }
            assert forall|a: int, b: int| gf.adjacent(a, b) implies gf.edge_weight(a, b)
                == g0.edge_weight(a, b) by {
                if list_has(removed.edges@, a) {
                    assert(scrubbed_list(g0.edges_at(a), gf.edges_at(a), nodei));
                } else {
                    assert(gf.edges_at(a) == g0.edges_at(a));
                }
            }
            assert(gf.ends() + 2 * g0.deg(nodei) == g0.ends());

            // Well-formedness of the result.
            assert(gf.lists_ok()) by {
                assert forall|a: int|
                    list_unique(#[trigger] gf.edges_at(a)) && (forall|kk: int|
                        0 <= kk < gf.edges_at(a).len() ==> (#[trigger] gf.edges_at(a)[kk]).dest
                            as int != a && gf.edges_at(a)[kk].weight >= 1) by {
                    if a == nodei {
                        assert(gf.edges_at(a) =~= Seq::<Edge>::empty());
                    } else if list_has(removed.edges@, a) {
                        assert(scrubbed_list(g0.edges_at(a), gf.edges_at(a), nodei));
                        assert forall|kk: int| 0 <= kk < gf.edges_at(a).len() implies (
                        #[trigger] gf.edges_at(a)[kk]).dest as int != a && gf.edges_at(
                            a,
                        )[kk].weight >= 1 by {
                            assert(g0.edges_at(a).contains(gf.edges_at(a)[kk]));
                            let k0 = choose|k0: int|
                                0 <= k0 < g0.edges_at(a).len() && g0.edges_at(a)[k0]
                                    == gf.edges_at(a)[kk];
                            assert(g0.edges_at(a)[k0].dest as int != a);
                        }
                    } else {
                        assert(gf.edges_at(a) == g0.edges_at(a));
                        assert(list_unique(g0.edges_at(a)));
                        assert(forall|kk: int|
                            0 <= kk < g0.edges_at(a).len() ==> (#[trigger] g0.edges_at(
                                a,
                            )[kk]).dest as int != a && g0.edges_at(a)[kk].weight >= 1);
                    }
                }
            }
            assert(gf.symmetric()) by {
                assert forall|a: int, b: int| #[trigger] gf.adjacent(a, b) implies gf.adjacent(
                    b,
                    a,
                ) && gf.edge_weight(b, a) == gf.edge_weight(a, b) by {
                    assert(g0.adjacent(a, b));
                    assert(g0.adjacent(b, a));
                }
            }
            assert(gf.dests_have_records()) by {
                assert forall|a: int, b: int| #[trigger] gf.adjacent(a, b) implies gf.has_record(
                    b,
                ) by {
                    assert(g0.adjacent(a, b));
                    assert(g0.has_record(b));
                }
            }
            assert(gf.degrees_ok()) by {
                assert forall|j: int| 0 <= j < gf.node_list@.len() implies (
                #[trigger] gf.node_list@[j]).degree == gf.deg(gf.node_list@[j].id as int) by {
                    let a = gf.node_list@[j].id as int;
                    assert(gf.has_record(a)) by {
                        assert(recs_has(gf.node_list@, a));
                    }
                    lemma_recs_idx(gf.node_list@, a);
                    assert(recs_idx(gf.node_list@, a) == j);
                    assert(gf.record_at(a) == gf.node_list@[j]);
                    assert(a != nodei);
                    assert(g0.has_record(a));
                    lemma_recs_idx(g0.node_list@, a);
                    assert(gf.record_at(a).degree as int == g0.record_at(a).degree as int - (
                    if list_has(removed.edges@, a) {
                        1int
                    } else {
                        0int
                    }));
                    assert(g0.record_at(a).degree == g0.deg(a));
                    if list_has(removed.edges@, a) {
                        assert(scrubbed_list(g0.edges_at(a), gf.edges_at(a), nodei));
                        assert(list_has(g0.edges_at(a), nodei)) by {
                            assert(g0.adjacent(nodei, a));
                            assert(g0.adjacent(a, nodei));
                        }
                    } else {
                        assert(gf.edges_at(a) == g0.edges_at(a));
                    }
                }
            }
        }
    }
}

/// The descriptors of `s` whose destination is `node`, in order.
pub open spec fn pointing_at(s: Seq<Edge>, node: int) -> Seq<Edge>
    decreases s.len(),
{
    if s.len() == 0 {
        Seq::<Edge>::empty()
    } else {
        pointing_at(s.drop_last(), node) + (if s.last().dest as int == node {
            seq![s.last()]
        } else {
            Seq::<Edge>::empty()
        })
    }
}

/// The descriptors across all rows of `s`, in row order, whose destination
/// is `node`.
pub open spec fn closed_rows(s: Seq<AdjRow>, node: int) -> Seq<Edge>
    decreases s.len(),
{
    if s.len() == 0 {
        Seq::<Edge>::empty()
    } else {
        closed_rows(s.drop_last(), node) + pointing_at(s.last().edges@, node)
    }
}

/// Every descriptor that `pointing_at` keeps has the destination it was
/// filtered for.
pub proof fn lemma_pointing_at_dests(s: Seq<Edge>, node: int)
    ensures
        forall|k: int|
            0 <= k < pointing_at(s, node).len() ==> (#[trigger] pointing_at(s, node)[k]).dest
                as int == node,
    decreases s.len(),
{
    if s.len() > 0 {
        lemma_pointing_at_dests(s.drop_last(), node);
        let p = pointing_at(s, node);
        let q = pointing_at(s.drop_last(), node);
        assert forall|k: int| 0 <= k < p.len() implies (#[trigger] p[k]).dest as int == node by {
            if k < q.len() {
                assert(p[k] == q[k]);
            } else {
                assert(p[k] == s.last());
            }
        }
    }
}

/// Every descriptor that `closed_rows` collects has the destination it was
/// collected for.
pub proof fn lemma_closed_rows_dests(s: Seq<AdjRow>, node: int)
    ensures
        forall|k: int|
            0 <= k < closed_rows(s, node).len() ==> (#[trigger] closed_rows(s, node)[k]).dest
                as int == node,
    decreases s.len(),
{
    if s.len() > 0 {
        lemma_closed_rows_dests(s.drop_last(), node);
        lemma_pointing_at_dests(s.last().edges@, node);
        let p = closed_rows(s, node);
        let q = closed_rows(s.drop_last(), node);
        let t = pointing_at(s.last().edges@, node);
        assert forall|k: int| 0 <= k < p.len() implies (#[trigger] p[k]).dest as int == node by {
            if k < q.len() {
                assert(p[k] == q[k]);
            } else {
                assert(p[k] == t[k - q.len()]);
            }
        }
    }
}

impl Graph {
    /// Collects, from every node's edge set, the descriptors whose
    /// destination is `node`: the edges incident to `node`, each seen from
    /// the other endpoint's side.
    pub fn get_closed_neighborhood(&mut self, node: usize) -> (r: Vec<Edge>)
        requires
            old(self).wf(),
        ensures
            *final(self) == *old(self),
            r@ == closed_rows(old(self).adj_list@, node as int),
            forall|k: int| 0 <= k < r@.len() ==> (#[trigger] r@[k]).dest == node,
    {
        proof {
            lemma_closed_rows_dests(self.adj_list@, node as int);
        }
        let mut r: Vec<Edge> = Vec::new();
        let rows = self.adj_list.len();
        let mut i: usize = 0;
        while i < rows
            invariant
                rows == self.adj_list@.len(),
                i <= rows,
                *self == *old(self),
                r@ == closed_rows(self.adj_list@.subrange(0, i as int), node as int),
            decreases rows - i,
        {
            let cols = self.adj_list[i].edges.len();
            let ghost rowseq = self.adj_list@[i as int].edges@;
            let mut k: usize = 0;
            while k < cols
                invariant
                    rows == self.adj_list@.len(),
                    i < rows,
                    *self == *old(self),
                    rowseq == self.adj_list@[i as int].edges@,
                    cols == rowseq.len(),
                    k <= cols,
                    r@ == closed_rows(self.adj_list@.subrange(0, i as int), node as int)
                        + pointing_at(rowseq.subrange(0, k as int), node as int),
                decreases cols - k,
            {
                let e = self.adj_list[i].edges[k];
                proof {
                    assert(rowseq.subrange(0, k as int + 1).drop_last() =~= rowseq.subrange(
                        0,
                        k as int,
                    ));
                    assert(rowseq.subrange(0, k as int + 1).last() == rowseq[k as int]);
                }
                if e.dest == node {
                    r.push(e);
                    proof {
                        assert(r@ =~= closed_rows(
                            self.adj_list@.subrange(0, i as int),
                            node as int,
                        ) + pointing_at(rowseq.subrange(0, k as int + 1), node as int));
                    }
                } else {
                    proof {
                        assert(pointing_at(rowseq.subrange(0, k as int + 1), node as int)
                            =~= pointing_at(rowseq.subrange(0, k as int), node as int));
                    }
                }
                k = k + 1;
            }
            proof {
                assert(rowseq.subrange(0, cols as int) =~= rowseq);
                assert(self.adj_list@.subrange(0, i as int + 1).drop_last()
                    =~= self.adj_list@.subrange(0, i as int));
                assert(self.adj_list@.subrange(0, i as int + 1).last()
                    == self.adj_list@[i as int]);
            }
            i = i + 1;
        }
        proof {
            assert(self.adj_list@.subrange(0, rows as int) =~= self.adj_list@);
        }
        r
    }

    /// The adjacency as plain values, row by row: each node id paired with
    /// the ids of its neighbours, in storage order.  This is the renderable
    /// form of the graph; a presentation layer formats it.
    pub fn get_adjacency_lists(&self) -> (r: Vec<(usize, Vec<usize>)>)
        ensures
            r@.len() == self.adj_list@.len(),
            forall|i: int|
                0 <= i < r@.len() ==> (#[trigger] r@[i]).0 == self.adj_list@[i].node
                    && r@[i].1@.len() == self.adj_list@[i].edges@.len(),
            forall|i: int, k: int|
                0 <= i < r@.len() && 0 <= k < r@[i].1@.len() ==> (#[trigger] r@[i].1@[k])
                    == self.adj_list@[i].edges@[k].dest,
    {
        let mut r: Vec<(usize, Vec<usize>)> = Vec::new();
        let rows = self.adj_list.len();
        let mut i: usize = 0;
        while i < rows
            invariant
                rows == self.adj_list@.len(),
                i <= rows,
                r@.len() == i,
                forall|ii: int|
                    0 <= ii < i ==> (#[trigger] r@[ii]).0 == self.adj_list@[ii].node
                        && r@[ii].1@.len() == self.adj_list@[ii].edges@.len(),
                forall|ii: int, k: int|
                    0 <= ii < i && 0 <= k < r@[ii].1@.len() ==> (#[trigger] r@[ii].1@[k])
                        == self.adj_list@[ii].edges@[k].dest,
            decreases rows - i,
        {
            let cols = self.adj_list[i].edges.len();
            let mut dests: Vec<usize> = Vec::new();
            let mut k: usize = 0;
            while k < cols
                invariant
                    rows == self.adj_list@.len(),
                    i < rows,
                    cols == self.adj_list@[i as int].edges@.len(),
                    k <= cols,
                    dests@.len() == k,
                    forall|kk: int|
                        0 <= kk < k ==> (#[trigger] dests@[kk]) == self.adj_list@[i as int].edges@[kk].dest,
                decreases cols - k,
            {
                dests.push(self.adj_list[i].edges[k].get_dest());
                k = k + 1;
            }
            r.push((self.adj_list[i].node, dests));
            i = i + 1;
        }
        r
    }
}

// ---------------------------------------------------------------------------
// Building a graph from parsed edge records, as the file reader does: for
// each record, register both endpoints and then add the edge.
// ---------------------------------------------------------------------------

/// What `add_node(id)` does, as a relation between the graph before and the
/// graph after.
pub open spec fn add_node_post(pre: Graph, post: Graph, id: usize) -> bool {
    &&& post.order == pre.order
    &&& post.adj_list@ == pre.adj_list@
    &&& post.node_list@ == (if pre.node_list@.len() >= pre.order as int || recs_has(
        pre.node_list@,
        id as int,
    ) {
        pre.node_list@
    } else {
        pre.node_list@.push((Node { id, weight: ((id % 200) + 1) as u32, degree: 0 }))
    })
}

/// One build step: register both endpoints of the record, then add the
/// edge; an edge rejection becomes the step's overall outcome.
pub open spec fn build_step(pre: Graph, e: (usize, usize, i32), r: Result<
    Graph,
    GraphError,
>) -> bool {
    exists|g1: Graph, g2: Graph|
        {
            &&& #[trigger] add_node_post(pre, g1, e.0)
            &&& #[trigger] add_node_post(g1, g2, e.1)
            &&& if e.2 < 1 {
                r == Err::<Graph, GraphError>(GraphError::InvalidWeight)
            } else if e.0 == e.1 {
                r == Err::<Graph, GraphError>(GraphError::SelfLoop)
            } else if !(g2.has_record(e.0 as int) && g2.has_record(e.1 as int)) {
                r == Err::<Graph, GraphError>(GraphError::NotFound)
            } else {
                match r {
                    Ok(g3) => add_edge_post(g2, g3, e.0 as int, e.1 as int, e.2 as int),
                    Err(_) => false,
                }
            }
        }
}

/// The graph holds the declared order and nothing else yet.
pub open spec fn graph_initial(order: usize, g: Graph) -> bool {
    &&& g.order == order
    &&& g.adj_list@ == Seq::<AdjRow>::empty()
    &&& g.node_list@ == Seq::<Node>::empty()
}

/// Applying the records in order, starting from `g`, ends in `r`; the first
/// rejected record stops the build with its rejection.
pub open spec fn build_from(g: Graph, edges: Seq<(usize, usize, i32)>, r: Result<
    Graph,
    GraphError,
>) -> bool
    decreases edges.len(),
{
    if edges.len() == 0 {
        r == Ok::<Graph, GraphError>(g)
    } else {
        exists|r1: Result<Graph, GraphError>|
            {
                &&& #[trigger] build_step(g, edges.first(), r1)
                &&& match r1 {
                    Ok(g1) => build_from(g1, edges.drop_first(), r),
                    Err(_) => r == r1,
                }
            }
    }
}

/// Builds the graph that a well-formed edge-list input describes: an empty
/// graph of the declared order, each record's endpoints registered, each
/// record's edge added.  The first record the graph rejects stops the build
/// with that rejection.
pub fn build_graph_from_edges(order: usize, edges: &Vec<(usize, usize, i32)>) -> (r: Result<
    Graph,
    GraphError,
>)
    requires
        2 * edges@.len() + 2 <= usize::MAX,
    ensures
        exists|g0: Graph| #[trigger] graph_initial(order, g0) && build_from(g0, edges@, r),
        match r {
            Ok(g) => g.wf() && g.order == order,
            Err(_) => true,
        },
{
    let mut g = Graph::new();
    g.order = order;
    let ghost gstart = g;
    let n = edges.len();
    proof {
        assert(edges@.subrange(0, n as int) =~= edges@);
    }
    let mut idx: usize = 0;
    while idx < n
        invariant
            n == edges@.len(),
            idx <= n,
            2 * n + 2 <= usize::MAX,
            g.wf(),
            g.order == order,
            g.ends() <= 2 * idx,
            graph_initial(order, gstart),
            forall|rf: Result<Graph, GraphError>|
                #[trigger] build_from(g, edges@.subrange(idx as int, n as int), rf)
                    ==> build_from(gstart, edges@, rf),
        decreases n - idx,
    {
        let e = edges[idx];
        let ghost gpre = g;
        let ghost suffix = edges@.subrange(idx as int, n as int);
        g.add_node(e.0);
        let ghost g1 = g;
        g.add_node(e.1);
        let ghost g2 = g;
        proof {
            assert(add_node_post(gpre, g1, e.0));
            assert(add_node_post(g1, g2, e.1));
            assert(g.ends() + 2 <= usize::MAX);
            assert(suffix.len() == n - idx);
            assert(suffix.first() == e);
            assert(suffix.drop_first() =~= edges@.subrange(idx as int + 1, n as int));
        }
        let res = g.add_edge(e.0, e.1, e.2);
        match res {
            Ok(_) => {
                proof {
                    assert(build_step(gpre, e, Ok::<Graph, GraphError>(g))) by {
                        assert(add_node_post(gpre, g1, e.0) && add_node_post(g1, g2, e.1)
                            && add_edge_post(g2, g, e.0 as int, e.1 as int, e.2 as int));
                    }
                    assert(build_step(gpre, suffix.first(), Ok::<Graph, GraphError>(g)));
                    assert forall|rf: Result<Graph, GraphError>|
                        #[trigger] build_from(g, edges@.subrange(idx as int + 1, n as int), rf)
                            implies build_from(gstart, edges@, rf) by {
                        assert(build_from(g, suffix.drop_first(), rf));
                        assert(build_from(gpre, suffix, rf));
                    }
                }
            },
            Err(err) => {
                proof {
                    assert(build_step(gpre, e, Err::<Graph, GraphError>(err))) by {
                        assert(add_node_post(gpre, g1, e.0) && add_node_post(g1, g2, e.1));
                    }
                    assert(build_step(gpre, suffix.first(), Err::<Graph, GraphError>(err)));
                    assert(build_from(gpre, suffix, Err::<Graph, GraphError>(err)));
                    assert(build_from(gstart, edges@, Err::<Graph, GraphError>(err)));
                }
                return Err(err);
            },
        }
        idx = idx + 1;
    }
    proof {
        assert(edges@.subrange(n as int, n as int).len() == 0);
        assert(build_from(g, edges@.subrange(n as int, n as int), Ok::<Graph, GraphError>(g)));
        assert(build_from(gstart, edges@, Ok::<Graph, GraphError>(g)));
    }
    Ok(g)
}

// ---------------------------------------------------------------------------
// Laws that hold across sequences of operations.
// ---------------------------------------------------------------------------

/// Law: an edge added with weight `w` can be read back from either
/// endpoint, and with that weight.
pub proof fn lemma_added_edge_readable(g0: Graph, g1: Graph, a: int, b: int, w: int)
    requires
        add_edge_post(g0, g1, a, b, w),
    ensures
        g1.adjacent(a, b) && g1.edge_weight(a, b) == w,
        g1.adjacent(b, a) && g1.edge_weight(b, a) == w,
{
}

/// Law: adding a fresh edge and then removing it leaves the edge count at
/// its prior value and the adjacency as it was, so removing it once more is
/// owed a not-found report.
pub proof fn lemma_add_remove_round_trip(
    g0: Graph,
    g1: Graph,
    g2: Graph,
    a: int,
    b: int,
    w: int,
)
    requires
        g0.wf(),
        !g0.adjacent(a, b),
        add_edge_post(g0, g1, a, b, w),
        remove_edge_post(g1, g2, a, b),
    ensures
        g1.adjacent(a, b),
        g2.spec_num_edges() == g0.spec_num_edges(),
        !g2.adjacent(a, b),
        forall|x: int, y: int| g2.adjacent(x, y) == g0.adjacent(x, y),
{
    assert(!g0.adjacent(b, a)) by {
        if g0.adjacent(b, a) {
            assert(g0.adjacent(a, b));
        }
    }
    assert forall|x: int, y: int| g2.adjacent(x, y) == g0.adjacent(x, y) by {
        assert(g2.adjacent(x, y) == (g1.adjacent(x, y) && !((x == a && y == b) || (x == b && y
            == a))));
        assert(g1.adjacent(x, y) == (g0.adjacent(x, y) || (x == a && y == b) || (x == b && y
            == a)));
    }
}

/// Law: each successful mutation moves the edge count exactly as an
/// outside tally would record it: up one for a fresh pair, unchanged for an
/// overwrite, down one for a removal.  Because of this, `get_num_edges`
/// agrees with bookkeeping kept independently alongside any sequence of
/// edge operations.
pub proof fn lemma_edge_count_bookkeeping(
    g0: Graph,
    g1: Graph,
    g2: Graph,
    a: int,
    b: int,
    w: int,
)
    requires
        add_edge_post(g0, g1, a, b, w),
        remove_edge_post(g1, g2, a, b),
    ensures
        g1.spec_num_edges() == g0.spec_num_edges() + (if g0.adjacent(a, b) {
            0int
        } else {
            1int
        }),
        g2.spec_num_edges() + 1 == g1.spec_num_edges(),
{
}

/// Law: the complement never joins the anchor to one of its neighbours in
/// the original graph.
pub proof fn lemma_complement_excludes_original(g: Graph, c: Graph, b: int)
    requires
        Graph::complement_post(g, c),
        g.adjacent(g.anchor(), b),
    ensures
        !c.adjacent(g.anchor(), b),
{
    if c.adjacent(g.anchor(), b) {
        if b == g.anchor() {
            assert(g.complement_target(g.anchor()));
        } else {
            assert(g.complement_target(b));
        }
    }
}

// ---------------------------------------------------------------------------
// What a successful mutation does, as a relation between the graph before
// and the graph after.  These are the postconditions of `add_edge` and
// `remove_edge` on their success paths, named so that laws about sequences
// of operations can be stated and proved over them.
// ---------------------------------------------------------------------------

/// After a successful `add_edge(src, dest, w)`: the edge is present in both
/// directions with weight `w`, nothing else changed, and the counters moved
/// by one edge exactly when the pair was not adjacent before.
pub open spec fn add_edge_post(pre: Graph, post: Graph, src: int, dest: int, w: int) -> bool {
    &&& post.order == pre.order
    &&& forall|a: int, b: int|
        post.adjacent(a, b) == (pre.adjacent(a, b) || (a == src && b == dest) || (a == dest && b
            == src))
    &&& post.adjacent(src, dest)
    &&& post.adjacent(dest, src)
    &&& post.edge_weight(src, dest) == w
    &&& post.edge_weight(dest, src) == w
    &&& forall|a: int, b: int|
        pre.adjacent(a, b) && !((a == src && b == dest) || (a == dest && b == src))
            ==> post.edge_weight(a, b) == pre.edge_weight(a, b)
    &&& forall|b: int| post.has_record(b) == pre.has_record(b)
    &&& forall|b: int|
        pre.has_record(b) ==> post.record_at(b).id == pre.record_at(b).id && post.record_at(
            b,
        ).weight == pre.record_at(b).weight
    &&& forall|b: int| post.has_adj(b) == (pre.has_adj(b) || b == src || b == dest)
    &&& post.ends() == pre.ends() + (if pre.adjacent(src, dest) {
        0int
    } else {
        2int
    })
    &&& post.spec_num_edges() == pre.spec_num_edges() + (if pre.adjacent(src, dest) {
        0int
    } else {
        1int
    })
    &&& forall|a: int| a != src && a != dest ==> post.deg(a) == pre.deg(a)
    &&& post.deg(src) == pre.deg(src) + (if pre.adjacent(src, dest) {
        0int
    } else {
        1int
    })
    &&& post.deg(dest) == pre.deg(dest) + (if pre.adjacent(src, dest) {
        0int
    } else {
        1int
    })
}

/// After a successful `remove_edge(src, dest)`: the edge is gone in both
/// directions, nothing else changed, and the counters moved by one edge.
pub open spec fn remove_edge_post(pre: Graph, post: Graph, src: int, dest: int) -> bool {
    &&& post.order == pre.order
    &&& forall|a: int, b: int|
        post.adjacent(a, b) == (pre.adjacent(a, b) && !((a == src && b == dest) || (a == dest && b
            == src)))
    &&& forall|a: int, b: int|
        post.adjacent(a, b) ==> post.edge_weight(a, b) == pre.edge_weight(a, b)
    &&& forall|b: int| post.has_record(b) == pre.has_record(b)
    &&& forall|b: int|
        pre.has_record(b) ==> post.record_at(b).id == pre.record_at(b).id && post.record_at(
            b,
        ).weight == pre.record_at(b).weight
    &&& forall|b: int| post.has_adj(b) == (pre.has_adj(b) || b == src || b == dest)
    &&& post.ends() + 2 == pre.ends()
    &&& post.spec_num_edges() + 1 == pre.spec_num_edges()
    &&& forall|a: int| a != src && a != dest ==> post.deg(a) == pre.deg(a)
    &&& post.deg(src) + 1 == pre.deg(src)
    &&& post.deg(dest) + 1 == pre.deg(dest)
}

} // verus!

//! Flame graph builder: turns a flat sequence of call records into a
//! forest of hierarchical nodes annotated with self time and percentage
//! of the total trace duration.
//!
//! Durations are fixed-point integers in [`crate::SCALE`] units.  Policy
//! decisions mirror the data model: duplicate call ids are resolved
//! last-write-wins; a record whose parent id resolves to nothing is an
//! orphan and is dropped from the output; the total duration sums the
//! root records only.  Cyclic parent references are rejected with an
//! explicit error instead of recursing unboundedly.

use vstd::prelude::*;
use vstd::hash_map::StringHashMap;
use vstd::string::StringExecFns;

use crate::SCALE;

verus! {

/// One captured invocation with timing and optional parent linkage.
#[derive(Debug)]
pub struct CallRecord {
    pub call_id: String,
    pub class_name: String,
    pub method_name: String,
    /// Duration in `SCALE` units.
    pub duration: u64,
    pub start_time: u64,
    pub end_time: u64,
    pub parent_call_id: Option<String>,
    pub file_path: Option<String>,
    pub line: Option<u32>,
}

/// One node of the flame graph forest.
#[derive(Debug)]
pub struct FlameNode {
    pub id: String,
    /// `class.method` of the record.
    pub name: String,
    /// The record's duration, in `SCALE` units.
    pub value: u64,
    /// Time not attributed to direct children, floored at zero.
    pub self_value: u64,
    pub children: Vec<FlameNode>,
    pub depth: usize,
    pub file_path: Option<String>,
    pub line: Option<u32>,
    /// Share of the total duration, in `SCALE` units of a percent,
    /// truncated.
    pub percentage: u128,
}

/// The builder's output: the root nodes and the total duration.
#[derive(Debug)]
pub struct FlameGraph {
    pub nodes: Vec<FlameNode>,
    pub total_duration: u128,
}

/// The one structural fault the builder rejects: parent references that
/// loop back on themselves.
#[derive(Clone, Copy, PartialEq, Eq, Structural, Debug)]
pub enum TraceError {
    MalformedTrace,
}

/// The record at `i` survives last-write-wins deduplication: no later
/// record carries the same call id.
pub open spec fn keep(rs: Seq<CallRecord>, i: int) -> bool {
    forall|j: int| i < j < rs.len() ==> (#[trigger] rs[j]).call_id@ != rs[i].call_id@
}

/// Index of the surviving record with the given call id.
pub open spec fn lookup(rs: Seq<CallRecord>, id: Seq<char>) -> Option<int>
    decreases rs.len(),
{
    if rs.len() == 0 {
        None
    } else if rs.last().call_id@ == id {
        Some(rs.len() - 1)
    } else {
        lookup(rs.drop_last(), id)
    }
}

/// Parent edge of the record at `i`: the surviving record its parent id
/// resolves to.  `None` both for a true root and for a dangling
/// reference (the orphan policy treats the latter as a parentless
/// record that is simply never reached from the roots).
pub open spec fn parent_of(rs: Seq<CallRecord>, i: int) -> Option<int> {
    match rs[i].parent_call_id {
        None => None,
        Some(p) => lookup(rs, p@),
    }
}

/// Number of parent hops from `i` to a parentless record, or -1 when
/// `fuel` steps do not reach one.
pub open spec fn hops(rs: Seq<CallRecord>, i: int, fuel: nat) -> int
    decreases fuel,
{
    if fuel == 0 {
        -1
    } else {
        match parent_of(rs, i) {
            None => 0,
            Some(p) => {
                let h = hops(rs, p, (fuel - 1) as nat);
                if h == -1 {
                    -1
                } else {
                    h + 1
                }
            },
        }
    }
}

/// Every surviving record reaches a parentless record in at most `len`
/// hops.  A longer chain must revisit a record, which is exactly a cycle
/// among the parent references.
pub open spec fn acyclic(rs: Seq<CallRecord>) -> bool {
    forall|i: int| 0 <= i < rs.len() && #[trigger] keep(rs, i)
        ==> hops(rs, i, rs.len() as nat) != -1
}

/// Indices, among the first `n` records, of surviving parentless
/// records, in input order.
pub open spec fn roots_upto(rs: Seq<CallRecord>, n: int) -> Seq<int>
    decreases n,
{
    if n <= 0 {
        Seq::empty()
    } else if keep(rs, n - 1) && rs[n - 1].parent_call_id is None {
        roots_upto(rs, n - 1).push(n - 1)
    } else {
        roots_upto(rs, n - 1)
    }
}

/// The roots of the forest, in input order.
pub open spec fn root_indices(rs: Seq<CallRecord>) -> Seq<int> {
    roots_upto(rs, rs.len() as int)
}

/// Indices, among the first `n` records, of surviving records whose
/// parent edge points at `p`, in input order.
pub open spec fn children_upto(rs: Seq<CallRecord>, p: int, n: int) -> Seq<int>
    decreases n,
{
    if n <= 0 {
        Seq::empty()
    } else if keep(rs, n - 1) && parent_of(rs, n - 1) == Some(p) {
        children_upto(rs, p, n - 1).push(n - 1)
    } else {
        children_upto(rs, p, n - 1)
    }
}

/// The children of the record at `p`, in input order.
pub open spec fn child_indices(rs: Seq<CallRecord>, p: int) -> Seq<int> {
    children_upto(rs, p, rs.len() as int)
}

/// Sum of the durations of the records at the given indices.
pub open spec fn sum_durations(rs: Seq<CallRecord>, idxs: Seq<int>) -> int
    decreases idxs.len(),
{
    if idxs.len() == 0 {
        0
    } else {
        sum_durations(rs, idxs.drop_last()) + rs[idxs.last()].duration
    }
}

/// The total duration of the trace: root durations only.
pub open spec fn total_duration_spec(rs: Seq<CallRecord>) -> int {
    sum_durations(rs, root_indices(rs))
}

/// Sum of the values of a node sequence.
pub open spec fn children_value_sum(ns: Seq<FlameNode>) -> int
    decreases ns.len(),
{
    if ns.len() == 0 {
        0
    } else {
        children_value_sum(ns.drop_last()) + ns.last().value
    }
}

/// Self time: the node's duration less its children's, floored at zero.
pub open spec fn self_value_spec(value: int, children_sum: int) -> int {
    if value >= children_sum {
        value - children_sum
    } else {
        0
    }
}

/// Percentage of the total, in `SCALE` units of a percent, truncated;
/// zero when the total is zero.
pub open spec fn percentage_spec(value: int, total: int) -> int {
    if total > 0 {
        (100 * (SCALE as int) * value) / total
    } else {
        0
    }
}

/// The node owed for record `i` at `depth`, pinned field by field:
/// the subtree below it mirrors the child relation of the records.
pub open spec fn node_matches(
    n: FlameNode,
    rs: Seq<CallRecord>,
    i: int,
    depth: int,
    total: int,
) -> bool
    decreases n,
{
    let cs = child_indices(rs, i);
    &&& n.id == rs[i].call_id
    &&& n.name@ == rs[i].class_name@ + "."@ + rs[i].method_name@
    &&& n.value == rs[i].duration
    &&& n.self_value as int == self_value_spec(
        rs[i].duration as int,
        children_value_sum(n.children@),
    )
    &&& n.depth == depth
    &&& n.file_path == rs[i].file_path
    &&& n.line == rs[i].line
    &&& n.percentage as int == percentage_spec(rs[i].duration as int, total)
    &&& n.children@.len() == cs.len()
    &&& forall|k: int| 0 <= k < cs.len()
        ==> node_matches(#[trigger] n.children@[k], rs, cs[k], depth + 1, total)
}

/// View of an index vector as mathematical integers.
pub open spec fn usizes(s: Seq<usize>) -> Seq<int> {
    Seq::new(s.len(), |k: int| s[k] as int)
}

/// The whole output owed for a trace: the total is the root durations'
/// sum and each root node mirrors its record subtree.
pub open spec fn graph_matches(fg: FlameGraph, rs: Seq<CallRecord>) -> bool {
    &&& fg.total_duration as int == total_duration_spec(rs)
    &&& fg.nodes@.len() == root_indices(rs).len()
    &&& forall|q: int| 0 <= q < fg.nodes@.len()
        ==> node_matches(
            #[trigger] fg.nodes@[q],
            rs,
            root_indices(rs)[q],
            0,
            total_duration_spec(rs),
        )
}

/// Self times are consistent throughout a subtree: each node's self
/// value is its value less its children's values, floored at zero (and
/// so never negative).
pub open spec fn self_values_consistent(n: FlameNode) -> bool
    decreases n,
{
    &&& n.self_value as int == self_value_spec(n.value as int, children_value_sum(n.children@))
    &&& n.self_value >= 0
    &&& forall|k: int| 0 <= k < n.children@.len()
        ==> self_values_consistent(#[trigger] n.children@[k])
}

/// Percentages are consistent throughout a subtree: each node carries
/// `100 * value / total` in `SCALE` units (truncated), or zero when the
/// total is zero.
pub open spec fn percentages_consistent(n: FlameNode, total: int) -> bool
    decreases n,
{
    &&& n.percentage as int == percentage_spec(n.value as int, total)
    &&& forall|k: int| 0 <= k < n.children@.len()
        ==> percentages_consistent(#[trigger] n.children@[k], total)
}

/// Two subtrees agree node for node: every field, and recursively the
/// children.
pub open spec fn nodes_equivalent(a: FlameNode, b: FlameNode) -> bool
    decreases a,
{
    &&& a.id == b.id
    &&& a.name@ == b.name@
    &&& a.value == b.value
    &&& a.self_value == b.self_value
    &&& a.depth == b.depth
    &&& a.file_path == b.file_path
    &&& a.line == b.line
    &&& a.percentage == b.percentage
    &&& a.children@.len() == b.children@.len()
    &&& forall|k: int| 0 <= k < a.children@.len()
        ==> nodes_equivalent(#[trigger] a.children@[k], b.children@[k])
}

proof fn lemma_children_value_sum_pointwise(xs: Seq<FlameNode>, ys: Seq<FlameNode>)
    requires
        xs.len() == ys.len(),
        forall|k: int| 0 <= k < xs.len() ==> (#[trigger] xs[k]).value == ys[k].value,
    ensures
        children_value_sum(xs) == children_value_sum(ys),
    decreases xs.len(),
{
    if xs.len() > 0 {
        assert forall|k: int| 0 <= k < xs.drop_last().len()
            implies (#[trigger] xs.drop_last()[k]).value == ys.drop_last()[k].value by {
            assert(xs.drop_last()[k] == xs[k]);
            assert(ys.drop_last()[k] == ys[k]);
        }
        lemma_children_value_sum_pointwise(xs.drop_last(), ys.drop_last());
    }
}

/// Law: in any subtree the builder owes, every node's self time is its
/// value minus its direct children's values, floored at zero.
pub proof fn lemma_self_value_invariant(
    n: FlameNode,
    rs: Seq<CallRecord>,
    i: int,
    depth: int,
    total: int,
)
    requires
        node_matches(n, rs, i, depth, total),
    ensures
        self_values_consistent(n),
    decreases n,
{
    let cs = child_indices(rs, i);
    assert forall|k: int| 0 <= k < n.children@.len()
        implies self_values_consistent(#[trigger] n.children@[k]) by {
        lemma_self_value_invariant(n.children@[k], rs, cs[k], depth + 1, total);
    }
}

/// Law: in any subtree the builder owes, every node's percentage is its
/// value's share of the one total, truncated to `SCALE` units.
pub proof fn lemma_percentage_invariant(
    n: FlameNode,
    rs: Seq<CallRecord>,
    i: int,
    depth: int,
    total: int,
)
    requires
        node_matches(n, rs, i, depth, total),
    ensures
        percentages_consistent(n, total),
    decreases n,
{
    let cs = child_indices(rs, i);
    assert forall|k: int| 0 <= k < n.children@.len()
        implies percentages_consistent(#[trigger] n.children@[k], total) by {
        lemma_percentage_invariant(n.children@[k], rs, cs[k], depth + 1, total);
    }
}

/// Law: the builder is deterministic.  Two subtrees owed for the same
/// record and depth agree node for node.
pub proof fn lemma_node_deterministic(
    a: FlameNode,
    b: FlameNode,
    rs: Seq<CallRecord>,
    i: int,
    depth: int,
    total: int,
)
    requires
        node_matches(a, rs, i, depth, total),
        node_matches(b, rs, i, depth, total),
    ensures
        nodes_equivalent(a, b),
    decreases a,
{
    let cs = child_indices(rs, i);
    assert forall|k: int| 0 <= k < a.children@.len()
        implies nodes_equivalent(#[trigger] a.children@[k], b.children@[k]) by {
        lemma_node_deterministic(a.children@[k], b.children@[k], rs, cs[k], depth + 1, total);
    }
    assert forall|k: int| 0 <= k < a.children@.len()
        implies (#[trigger] a.children@[k]).value == b.children@[k].value by {
        assert(nodes_equivalent(a.children@[k], b.children@[k]));
    }
    lemma_children_value_sum_pointwise(a.children@, b.children@);
}

/// Law: two outputs for the same input sequence are identical — the
/// same total, the same number of roots, and equivalent trees in the
/// same order.
pub proof fn lemma_flame_graph_deterministic(r1: FlameGraph, r2: FlameGraph, rs: Seq<CallRecord>)
    requires
        graph_matches(r1, rs),
        graph_matches(r2, rs),
    ensures
        r1.total_duration == r2.total_duration,
        r1.nodes@.len() == r2.nodes@.len(),
        forall|q: int| 0 <= q < r1.nodes@.len()
            ==> nodes_equivalent(#[trigger] r1.nodes@[q], r2.nodes@[q]),
{
    assert forall|q: int| 0 <= q < r1.nodes@.len()
        implies nodes_equivalent(#[trigger] r1.nodes@[q], r2.nodes@[q]) by {
        lemma_node_deterministic(
            r1.nodes@[q],
            r2.nodes@[q],
            rs,
            root_indices(rs)[q],
            0,
            total_duration_spec(rs),
        );
    }
}

/// Law: every node of a built graph satisfies the self-time and
/// percentage invariants, and the total is the sum of the root records'
/// durations.
pub proof fn lemma_flame_graph_invariants(fg: FlameGraph, rs: Seq<CallRecord>)
    requires
        graph_matches(fg, rs),
    ensures
        fg.total_duration as int == sum_durations(rs, root_indices(rs)),
        forall|q: int| 0 <= q < fg.nodes@.len()
            ==> self_values_consistent(#[trigger] fg.nodes@[q]),
        forall|q: int| 0 <= q < fg.nodes@.len()
            ==> percentages_consistent(#[trigger] fg.nodes@[q], total_duration_spec(rs)),
{
    assert forall|q: int| 0 <= q < fg.nodes@.len()
        implies self_values_consistent(#[trigger] fg.nodes@[q])
            && percentages_consistent(fg.nodes@[q], total_duration_spec(rs)) by {
        lemma_self_value_invariant(
            fg.nodes@[q], rs, root_indices(rs)[q], 0, total_duration_spec(rs));
        lemma_percentage_invariant(
            fg.nodes@[q], rs, root_indices(rs)[q], 0, total_duration_spec(rs));
    }
}

proof fn lemma_lookup_props(rs: Seq<CallRecord>, id: Seq<char>)
    ensures
        match lookup(rs, id) {
            Some(j) => 0 <= j < rs.len() && rs[j].call_id@ == id && keep(rs, j),
            None => forall|i: int| 0 <= i < rs.len() ==> (#[trigger] rs[i]).call_id@ != id,
        },
    decreases rs.len(),
{
    if rs.len() > 0 && rs.last().call_id@ != id {
        lemma_lookup_props(rs.drop_last(), id);
        let pre = rs.drop_last();
        match lookup(pre, id) {
            Some(j) => {
                assert(pre[j] == rs[j]);
                assert(keep(pre, j));
                assert forall|j2: int| j < j2 < rs.len()
                    implies (#[trigger] rs[j2]).call_id@ != rs[j].call_id@ by {
                    if j2 < rs.len() - 1 {
                        assert(pre[j2] == rs[j2]);
                    }
                }
            },
            None => {
                assert forall|i: int| 0 <= i < rs.len()
                    implies (#[trigger] rs[i]).call_id@ != id by {
                    if i < rs.len() - 1 {
                        assert(pre[i] == rs[i]);
                    }
                }
            },
        }
    }
}

proof fn lemma_keep_lookup(rs: Seq<CallRecord>, i: int)
    requires
        0 <= i < rs.len(),
    ensures
        keep(rs, i) <==> lookup(rs, rs[i].call_id@) == Some(i),
    decreases rs.len(),
{
    let id = rs[i].call_id@;
    if i == rs.len() - 1 {
        assert(lookup(rs, id) == Some(i));
    } else if rs.last().call_id@ == id {
        assert(!keep(rs, i));
        assert(lookup(rs, id) == Some(rs.len() - 1));
    } else {
        let pre = rs.drop_last();
        assert(pre[i] == rs[i]);
        lemma_keep_lookup(pre, i);
        assert(keep(pre, i) <==> keep(rs, i)) by {
            if keep(pre, i) {
                assert forall|j: int| i < j < rs.len()
                    implies (#[trigger] rs[j]).call_id@ != rs[i].call_id@ by {
                    if j < rs.len() - 1 {
                        assert(pre[j] == rs[j]);
                    }
                }
            } else {
                let w = choose|j: int| i < j < pre.len()
                    && (#[trigger] pre[j]).call_id@ == pre[i].call_id@;
                assert(rs[w] == pre[w]);
                assert(!keep(rs, i));
            }
        }
    }
}

proof fn lemma_children_upto_facts(rs: Seq<CallRecord>, p: int, n: int)
    requires
        0 <= n <= rs.len(),
    ensures
        forall|q: int| 0 <= q < children_upto(rs, p, n).len()
            ==> {
                let c = #[trigger] children_upto(rs, p, n)[q];
                &&& 0 <= c < n
                &&& keep(rs, c)
                &&& parent_of(rs, c) == Some(p)
            },
    decreases n,
{
    if n > 0 {
        lemma_children_upto_facts(rs, p, n - 1);
    }
}

proof fn lemma_roots_upto_facts(rs: Seq<CallRecord>, n: int)
    requires
        0 <= n <= rs.len(),
    ensures
        forall|q: int| 0 <= q < roots_upto(rs, n).len()
            ==> {
                let r = #[trigger] roots_upto(rs, n)[q];
                &&& 0 <= r < n
                &&& keep(rs, r)
                &&& rs[r].parent_call_id is None
            },
    decreases n,
{
    if n > 0 {
        lemma_roots_upto_facts(rs, n - 1);
    }
}

proof fn lemma_hops_bound(rs: Seq<CallRecord>, i: int, fuel: nat)
    requires
        hops(rs, i, fuel) != -1,
    ensures
        0 <= hops(rs, i, fuel) < fuel,
    decreases fuel,
{
    if fuel > 0 {
        match parent_of(rs, i) {
            None => {},
            Some(p) => {
                lemma_hops_bound(rs, p, (fuel - 1) as nat);
            },
        }
    }
}

proof fn lemma_hops_mono(rs: Seq<CallRecord>, i: int, f1: nat, f2: nat)
    requires
        hops(rs, i, f1) != -1,
        f1 <= f2,
    ensures
        hops(rs, i, f2) == hops(rs, i, f1),
    decreases f1,
{
    if f1 > 0 {
        match parent_of(rs, i) {
            None => {},
            Some(p) => {
                lemma_hops_mono(rs, p, (f1 - 1) as nat, (f2 - 1) as nat);
            },
        }
    }
}

/// Option index viewed as a mathematical parent edge.
pub open spec fn opt_index(o: Option<usize>) -> Option<int> {
    match o {
        Some(v) => Some(v as int),
        None => None,
    }
}

proof fn lemma_usizes_push(s: Seq<usize>, x: usize)
    ensures
        usizes(s.push(x)) =~= usizes(s).push(x as int),
{
}

/// A resolved parent edge points at a surviving record of the trace.
proof fn lemma_parent_of_range(rs: Seq<CallRecord>, i: int)
    requires
        0 <= i < rs.len(),
    ensures
        parent_of(rs, i) is Some ==> {
            let p = parent_of(rs, i)->0;
            &&& 0 <= p < rs.len()
            &&& keep(rs, p)
        },
{
    match rs[i].parent_call_id {
        Some(pid) => {
            lemma_lookup_props(rs, pid@);
        },
        None => {},
    }
}

/// A child sits one hop further from its root than its parent.
proof fn lemma_child_hops(rs: Seq<CallRecord>, p: int, c: int, depth: int)
    requires
        acyclic(rs),
        0 <= c < rs.len(),
        keep(rs, c),
        parent_of(rs, c) == Some(p),
        hops(rs, p, rs.len() as nat) == depth,
    ensures
        hops(rs, c, rs.len() as nat) == depth + 1,
{
    let n = rs.len() as nat;
    assert(hops(rs, c, n) != -1);
    assert(n > 0);
    let h = hops(rs, p, (n - 1) as nat);
    assert(h != -1);
    lemma_hops_mono(rs, p, (n - 1) as nat, n);
}

/// Map from call id to the index of its surviving record.
fn build_id_index(records: &Vec<CallRecord>) -> (m: StringHashMap<usize>)
    ensures
        forall|k: Seq<char>|
            (#[trigger] m@.contains_key(k)) == (lookup(records@, k) is Some),
        forall|k: Seq<char>| #[trigger] m@.contains_key(k)
            ==> Some(m@[k] as int) == lookup(records@, k),
{
    let mut m = StringHashMap::<usize>::new();
    let n = records.len();
    let mut i: usize = 0;
    proof {
        assert(records@.take(0) =~= Seq::<CallRecord>::empty());
    }
    while i < n
        invariant
            n == records@.len(),
            i <= n,
            forall|k: Seq<char>|
                (#[trigger] m@.contains_key(k)) == (lookup(records@.take(i as int), k) is Some),
            forall|k: Seq<char>| #[trigger] m@.contains_key(k)
                ==> Some(m@[k] as int) == lookup(records@.take(i as int), k),
        decreases n - i,
    {
        let ghost pre = records@.take(i as int);
        m.insert(records[i].call_id.clone(), i);
        i = i + 1;
        proof {
            let cur = records@.take(i as int);
            assert(cur.drop_last() =~= pre);
            assert(cur.last() == records@[i - 1]);
            assert forall|k: Seq<char>|
                (#[trigger] m@.contains_key(k)) == (lookup(cur, k) is Some) by {
                if k == records@[i - 1].call_id@ {
                    assert(lookup(cur, k) == Some(i - 1));
                }
            }
            assert forall|k: Seq<char>| #[trigger] m@.contains_key(k)
                implies Some(m@[k] as int) == lookup(cur, k) by {
                if k == records@[i - 1].call_id@ {
                    assert(lookup(cur, k) == Some(i - 1));
                }
            }
        }
    }
    proof {
        assert(records@.take(n as int) =~= records@);
    }
    m
}

/// Survival flags and resolved parent edges, record by record.
fn compute_flags(records: &Vec<CallRecord>, index_map: &StringHashMap<usize>) -> (r: (
    Vec<bool>,
    Vec<Option<usize>>,
))
    requires
        forall|k: Seq<char>|
            (#[trigger] index_map@.contains_key(k)) == (lookup(records@, k) is Some),
        forall|k: Seq<char>| #[trigger] index_map@.contains_key(k)
            ==> Some(index_map@[k] as int) == lookup(records@, k),
    ensures
        r.0@.len() == records@.len(),
        r.1@.len() == records@.len(),
        forall|p: int| 0 <= p < records@.len() ==> (#[trigger] r.0@[p]) == keep(records@, p),
        forall|p: int| 0 <= p < records@.len()
            ==> opt_index(#[trigger] r.1@[p]) == parent_of(records@, p),
{
    let n = records.len();
    let mut keep_flags: Vec<bool> = Vec::new();
    let mut parent_idx: Vec<Option<usize>> = Vec::new();
    let mut i: usize = 0;
    while i < n
        invariant
            n == records@.len(),
            i <= n,
            keep_flags@.len() == i,
            parent_idx@.len() == i,
            forall|k: Seq<char>|
                (#[trigger] index_map@.contains_key(k)) == (lookup(records@, k) is Some),
            forall|k: Seq<char>| #[trigger] index_map@.contains_key(k)
                ==> Some(index_map@[k] as int) == lookup(records@, k),
            forall|p: int| 0 <= p < i ==> (#[trigger] keep_flags@[p]) == keep(records@, p),
            forall|p: int| 0 <= p < i
                ==> opt_index(#[trigger] parent_idx@[p]) == parent_of(records@, p),
        decreases n - i,
    {
        let rec = &records[i];
        proof {
            lemma_keep_lookup(records@, i as int);
        }
        let kept = match index_map.get(rec.call_id.as_str()) {
            Some(j_ref) => *j_ref == i,
            None => {
                proof {
                    lemma_lookup_props(records@, records@[i as int].call_id@);
                }
                false
            },
        };
        let parent = match &rec.parent_call_id {
            None => None,
            Some(pid) => match index_map.get(pid.as_str()) {
                Some(j_ref) => Some(*j_ref),
                None => None,
            },
        };
        keep_flags.push(kept);
        parent_idx.push(parent);
        i = i + 1;
    }
    (keep_flags, parent_idx)
}

/// Follows parent edges for at most `fuel` steps; true when a
/// parentless record is reached.
fn chain_ok(
    parent_idx: &Vec<Option<usize>>,
    i: usize,
    fuel: usize,
    records: Ghost<Seq<CallRecord>>,
) -> (b: bool)
    requires
        parent_idx@.len() == records@.len(),
        forall|p: int| 0 <= p < records@.len()
            ==> opt_index(#[trigger] parent_idx@[p]) == parent_of(records@, p),
        i < parent_idx@.len(),
    ensures
        b == (hops(records@, i as int, fuel as nat) != -1),
    decreases fuel,
{
    if fuel == 0 {
        false
    } else {
        let pi = parent_idx[i];
        match pi {
            None => {
                proof {
                    assert(parent_of(records@, i as int) is None);
                    assert(hops(records@, i as int, fuel as nat) == 0);
                }
                true
            },
            Some(p) => {
                proof {
                    lemma_parent_of_range(records@, i as int);
                    assert(parent_of(records@, i as int) == Some(p as int));
                }
                let res = chain_ok(parent_idx, p, fuel - 1, records);
                proof {
                    let h = hops(records@, p as int, (fuel - 1) as nat);
                    if h != -1 {
                        lemma_hops_bound(records@, p as int, (fuel - 1) as nat);
                    }
                    assert(hops(records@, i as int, fuel as nat)
                        == if h == -1 { -1 } else { h + 1 });
                }
                res
            },
        }
    }
}

/// Child index lists, grouped by parent in one pass.
fn build_child_lists(
    records: &Vec<CallRecord>,
    keep_flags: &Vec<bool>,
    parent_idx: &Vec<Option<usize>>,
) -> (lists: Vec<Vec<usize>>)
    requires
        keep_flags@.len() == records@.len(),
        parent_idx@.len() == records@.len(),
        forall|p: int| 0 <= p < records@.len() ==> (#[trigger] keep_flags@[p]) == keep(records@, p),
        forall|p: int| 0 <= p < records@.len()
            ==> opt_index(#[trigger] parent_idx@[p]) == parent_of(records@, p),
    ensures
        lists@.len() == records@.len(),
        forall|p: int| 0 <= p < records@.len()
            ==> usizes(#[trigger] lists@[p]@) == child_indices(records@, p),
{
    let n = records.len();
    let mut lists: Vec<Vec<usize>> = Vec::new();
    let mut i: usize = 0;
    while i < n
        invariant
            n == records@.len(),
            i <= n,
            lists@.len() == i,
            forall|p: int| 0 <= p < i
                ==> usizes(#[trigger] lists@[p]@) == children_upto(records@, p, 0),
        decreases n - i,
    {
        lists.push(Vec::new());
        i = i + 1;
        proof {
            assert(usizes(Seq::<usize>::empty()) =~= Seq::<int>::empty());
        }
    }
    let mut j: usize = 0;
    while j < n
        invariant
            n == records@.len(),
            j <= n,
            lists@.len() == n,
            keep_flags@.len() == n,
            parent_idx@.len() == n,
            forall|p: int| 0 <= p < n ==> (#[trigger] keep_flags@[p]) == keep(records@, p),
            forall|p: int| 0 <= p < n
                ==> opt_index(#[trigger] parent_idx@[p]) == parent_of(records@, p),
            forall|p: int| 0 <= p < n
                ==> usizes(#[trigger] lists@[p]@) == children_upto(records@, p, j as int),
        decreases n - j,
    {
        let ghost lists0 = lists@;
        let kept = keep_flags[j];
        let pj = parent_idx[j];
        if kept {
            match pj {
                Some(p) => {
                    proof {
                        lemma_parent_of_range(records@, j as int);
                    }
                    lists[p].push(j);
                    proof {
                        lemma_usizes_push(lists0[p as int]@, j);
                    }
                },
                None => {},
            }
        }
        j = j + 1;
        proof {
            assert forall|p2: int| 0 <= p2 < n
                implies usizes(#[trigger] lists@[p2]@) == children_upto(records@, p2, j as int) by {
                assert(usizes(lists0[p2]@) == children_upto(records@, p2, j - 1));
            }
        }
    }
    lists
}

/// The roots of the forest: surviving parentless records, in order.
fn collect_roots(records: &Vec<CallRecord>, keep_flags: &Vec<bool>) -> (roots: Vec<usize>)
    requires
        keep_flags@.len() == records@.len(),
        forall|p: int| 0 <= p < records@.len() ==> (#[trigger] keep_flags@[p]) == keep(records@, p),
    ensures
        usizes(roots@) == root_indices(records@),
{
    let n = records.len();
    let mut roots: Vec<usize> = Vec::new();
    let mut i: usize = 0;
    proof {
        assert(usizes(Seq::<usize>::empty()) =~= Seq::<int>::empty());
    }
    while i < n
        invariant
            n == records@.len(),
            i <= n,
            keep_flags@.len() == n,
            forall|p: int| 0 <= p < n ==> (#[trigger] keep_flags@[p]) == keep(records@, p),
            usizes(roots@) == roots_upto(records@, i as int),
        decreases n - i,
    {
        let ghost roots0 = roots@;
        if keep_flags[i] && records[i].parent_call_id.is_none() {
            roots.push(i);
            proof {
                lemma_usizes_push(roots0, i);
            }
        }
        i = i + 1;
    }
    roots
}

/// Total trace duration: the sum of the root records' durations.
fn sum_root_durations(records: &Vec<CallRecord>, roots: &Vec<usize>) -> (total: u128)
    requires
        usizes(roots@) == root_indices(records@),
    ensures
        total as int == total_duration_spec(records@),
{
    let ghost ridx = root_indices(records@);
    proof {
        lemma_roots_upto_facts(records@, records@.len() as int);
        assert(ridx.take(0) =~= Seq::<int>::empty());
    }
    let mut total: u128 = 0;
    let mut k: usize = 0;
    while k < roots.len()
        invariant
            usizes(roots@) == root_indices(records@),
            ridx == root_indices(records@),
            k <= roots@.len(),
            total as int == sum_durations(records@, ridx.take(k as int)),
            total as int <= (k as int) * (u64::MAX as int),
        decreases roots@.len() - k,
    {
        proof {
            lemma_roots_upto_facts(records@, records@.len() as int);
            assert(usizes(roots@)[k as int] == roots@[k as int] as int);
            assert((k as int + 1) * (u64::MAX as int)
                <= 0x10000000000000000 * (u64::MAX as int)) by {
                vstd::arithmetic::mul::lemma_mul_upper_bound(
                    k as int + 1, 0x10000000000000000, u64::MAX as int, u64::MAX as int);
            }
        }
        let idx = roots[k];
        total = total + records[idx].duration as u128;
        k = k + 1;
        proof {
            assert(ridx.take(k as int).drop_last() =~= ridx.take(k - 1));
            assert(ridx.take(k as int).last() == ridx[k - 1]);
        }
    }
    proof {
        assert(ridx.take(roots@.len() as int) =~= ridx);
    }
    total
}

/// Builds the node for the surviving record at `i`, assembling its
/// children recursively; terminates because each child sits one hop
/// further from its root, and no chain is longer than the record count.
fn build_node(
    records: &Vec<CallRecord>,
    child_lists: &Vec<Vec<usize>>,
    i: usize,
    depth: usize,
    total: u128,
) -> (node: FlameNode)
    requires
        child_lists@.len() == records@.len(),
        i < records@.len(),
        keep(records@, i as int),
        acyclic(records@),
        hops(records@, i as int, records@.len() as nat) == depth,
        forall|p: int| 0 <= p < records@.len()
            ==> usizes(#[trigger] child_lists@[p]@) == child_indices(records@, p),
    ensures
        node_matches(node, records@, i as int, depth as int, total as int),
    decreases records@.len() - depth,
{
    let n = records.len();
    proof {
        lemma_hops_bound(records@, i as int, records@.len() as nat);
        lemma_children_upto_facts(records@, i as int, records@.len() as int);
        assert(depth < n);
    }
    let ghost cs = child_indices(records@, i as int);
    let r = &records[i];
    let kid_idxs = &child_lists[i];
    let mut children: Vec<FlameNode> = Vec::new();
    let mut children_sum: u128 = 0;
    let mut k: usize = 0;
    while k < kid_idxs.len()
        invariant
            n == records@.len(),
            child_lists@.len() == records@.len(),
            i < records@.len(),
            keep(records@, i as int),
            acyclic(records@),
            hops(records@, i as int, records@.len() as nat) == depth,
            forall|p: int| 0 <= p < records@.len()
                ==> usizes(#[trigger] child_lists@[p]@) == child_indices(records@, p),
            cs == child_indices(records@, i as int),
            kid_idxs == child_lists@[i as int],
            k <= kid_idxs@.len(),
            kid_idxs@.len() == cs.len(),
            children@.len() == k,
            children_sum as int == children_value_sum(children@),
            children_sum as int <= (k as int) * (u64::MAX as int),
            forall|q: int| 0 <= q < k
                ==> node_matches(#[trigger] children@[q], records@, cs[q], depth + 1, total as int),
        decreases kid_idxs@.len() - k,
    {
        proof {
            lemma_children_upto_facts(records@, i as int, records@.len() as int);
            lemma_hops_bound(records@, i as int, records@.len() as nat);
            assert(usizes(kid_idxs@)[k as int] == kid_idxs@[k as int] as int);
        }
        let c_idx = kid_idxs[k];
        proof {
            assert(cs[k as int] == c_idx as int);
            lemma_child_hops(records@, i as int, c_idx as int, depth as int);
            lemma_hops_bound(records@, c_idx as int, records@.len() as nat);
            assert((k as int + 1) * (u64::MAX as int)
                <= 0x10000000000000000 * (u64::MAX as int)) by {
                vstd::arithmetic::mul::lemma_mul_upper_bound(
                    k as int + 1, 0x10000000000000000, u64::MAX as int, u64::MAX as int);
            }
        }
        let ghost children0 = children@;
        let c = build_node(records, child_lists, c_idx, depth + 1, total);
        children_sum = children_sum + c.value as u128;
        children.push(c);
        k = k + 1;
        proof {
            assert(children@.drop_last() =~= children0);
        }
    }
    let value = r.duration;
    let self_value: u64 = if (value as u128) >= children_sum {
        ((value as u128) - children_sum) as u64
    } else {
        0
    };
    proof {
        assert(100 * (SCALE as int) * (value as int) <= 100 * 1000 * (u64::MAX as int))
            by (nonlinear_arith)
            requires
                SCALE == 1000u64,
                value <= u64::MAX,
        ;
    }
    let percentage: u128 = if total > 0 {
        (100 * (SCALE as u128) * (value as u128)) / total
    } else {
        0
    };
    let mut name = r.class_name.clone();
    name.append(".");
    name.append(r.method_name.as_str());
    let node = FlameNode {
        id: r.call_id.clone(),
        name,
        value,
        self_value,
        children,
        depth,
        file_path: match &r.file_path {
            Some(s) => Some(s.clone()),
            None => None,
        },
        line: r.line,
        percentage,
    };
    proof {
        assert(node.children@ =~= children@);
    }
    node
}

/// Builds the flame graph forest for a trace.
///
/// Duplicate call ids resolve last-write-wins; orphaned subtrees
/// (dangling parent ids) are dropped from the output and from the
/// total; roots appear in input order, as do siblings.  A trace whose
/// parent references contain a cycle is rejected as malformed.
pub fn build_flame_graph_data(records: &Vec<CallRecord>) -> (r: Result<FlameGraph, TraceError>)
    ensures
        match r {
            Ok(fg) => acyclic(records@) && graph_matches(fg, records@),
            Err(e) => e == TraceError::MalformedTrace && !acyclic(records@),
        },
{
    let n = records.len();
    if n == 0 {
        proof {
            assert(root_indices(records@) =~= Seq::<int>::empty());
        }
        return Ok(FlameGraph { nodes: Vec::new(), total_duration: 0 });
    }
    let index_map = build_id_index(records);
    let (keep_flags, parent_idx) = compute_flags(records, &index_map);

    let mut i: usize = 0;
    while i < n
        invariant
            n == records@.len(),
            i <= n,
            keep_flags@.len() == n,
            parent_idx@.len() == n,
            forall|p: int| 0 <= p < n ==> (#[trigger] keep_flags@[p]) == keep(records@, p),
            forall|p: int| 0 <= p < n
                ==> opt_index(#[trigger] parent_idx@[p]) == parent_of(records@, p),
            forall|p: int| 0 <= p < i && #[trigger] keep(records@, p)
                ==> hops(records@, p, records@.len() as nat) != -1,
        decreases n - i,
    {
        if keep_flags[i] {
            if !chain_ok(&parent_idx, i, n, Ghost(records@)) {
                proof {
                    assert(keep(records@, i as int)
                        && hops(records@, i as int, records@.len() as nat) == -1);
                    assert(!acyclic(records@));
                }
                return Err(TraceError::MalformedTrace);
            }
        }
        i = i + 1;
    }
    proof {
        assert(acyclic(records@));
    }

    let child_lists = build_child_lists(records, &keep_flags, &parent_idx);
    let roots = collect_roots(records, &keep_flags);
    let total = sum_root_durations(records, &roots);
    let ghost ridx = root_indices(records@);

    let mut nodes: Vec<FlameNode> = Vec::new();
    let mut k: usize = 0;
    while k < roots.len()
        invariant
            n == records@.len(),
            acyclic(records@),
            child_lists@.len() == n,
            forall|p: int| 0 <= p < n
                ==> usizes(#[trigger] child_lists@[p]@) == child_indices(records@, p),
            usizes(roots@) == root_indices(records@),
            ridx == root_indices(records@),
            total as int == total_duration_spec(records@),
            k <= roots@.len(),
            nodes@.len() == k,
            forall|q: int| 0 <= q < k
                ==> node_matches(#[trigger] nodes@[q], records@, ridx[q], 0, total as int),
        decreases roots@.len() - k,
    {
        proof {
            lemma_roots_upto_facts(records@, records@.len() as int);
            assert(usizes(roots@)[k as int] == roots@[k as int] as int);
        }
        let idx = roots[k];
        proof {
            assert(ridx[k as int] == idx as int);
            assert(hops(records@, idx as int, records@.len() as nat) == 0);
        }
        let node = build_node(records, &child_lists, idx, 0, total);
        nodes.push(node);
        k = k + 1;
    }
    Ok(FlameGraph { nodes, total_duration: total })
}

} // verus!

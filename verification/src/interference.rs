//! Interference graph construction.

use vstd::prelude::*;
use vstd::std_specs::iter::IteratorSpec;
use vstd::set_lib::lemma_map_size;
use vstd::relations::injective_on;
use std::collections::HashMap;
use std::collections::HashSet;
use crate::liveness::{
    VReg, LiveRange, LivenessAnalysis, ranges_overlap, lemma_push_to_set, covers,
    lemma_overlap_iff_common_point,
};

verus! {

/// The sets of a map of hash sets, as mathematical sets.
pub open spec fn sets_of(m: Map<VReg, HashSet<VReg>>) -> Map<VReg, Set<VReg>> {
    m.map_values(|s: HashSet<VReg>| s@)
}

/// A well-formed undirected graph without self-loops: a finite map from each
/// node to the finite set of its neighbours, where adjacency is symmetric.
pub open spec fn graph_wf(g: Map<VReg, Set<VReg>>) -> bool {
    &&& g.dom().finite()
    &&& forall|v: VReg| #[trigger] g.contains_key(v) ==> g[v].finite() && !g[v].contains(v)
    &&& forall|u: VReg, v: VReg|
        #![trigger g[u].contains(v)]
        g.contains_key(u) && g[u].contains(v) ==> g.contains_key(v) && g[v].contains(u)
}

/// The neighbours of `v`, or the empty set when `v` is not a node.
pub open spec fn neighbours_of(g: Map<VReg, Set<VReg>>, v: VReg) -> Set<VReg> {
    if g.contains_key(v) {
        g[v]
    } else {
        Set::empty()
    }
}

/// The number of neighbours of `v` (0 when `v` is not a node).
pub open spec fn degree_of(g: Map<VReg, Set<VReg>>, v: VReg) -> nat {
    neighbours_of(g, v).len()
}

/// Whether `a` and `b` are adjacent.
pub open spec fn adjacent(g: Map<VReg, Set<VReg>>, a: VReg, b: VReg) -> bool {
    g.contains_key(a) && g[a].contains(b)
}

/// The graph with `v` added as a node (unchanged when already present).
pub open spec fn with_node(g: Map<VReg, Set<VReg>>, v: VReg) -> Map<VReg, Set<VReg>> {
    if g.contains_key(v) {
        g
    } else {
        g.insert(v, Set::empty())
    }
}

/// The graph with the undirected edge `a`–`b` added, creating missing nodes;
/// unchanged when `a == b`.
pub open spec fn with_edge(g: Map<VReg, Set<VReg>>, a: VReg, b: VReg) -> Map<VReg, Set<VReg>> {
    if a == b {
        g
    } else {
        g.insert(a, neighbours_of(g, a).insert(b)).insert(b, neighbours_of(g, b).insert(a))
    }
}

/// The graph with node `v` and all its edges removed.
pub open spec fn without_node(g: Map<VReg, Set<VReg>>, v: VReg) -> Map<VReg, Set<VReg>> {
    Map::new(|k: VReg| g.contains_key(k) && k != v, |k: VReg| g[k].remove(v))
}

/// The interference graph of a set of live ranges: one node per vreg, and an
/// edge between two distinct vregs whose ranges overlap.
pub open spec fn interference_of(ranges: Map<VReg, LiveRange>) -> Map<VReg, Set<VReg>> {
    Map::new(
        |v: VReg| ranges.contains_key(v),
        |v: VReg|
            Set::new(
                |w: VReg| w != v && ranges.contains_key(w) && ranges_overlap(ranges[v], ranges[w]),
            ),
    )
}

/// In the graph of a set of live ranges, two vregs interfere exactly when
/// they are distinct vregs with ranges and some point lies in both ranges
/// (so equal ranges always interfere). Ranges here never end before they
/// start, as those of a liveness analysis do.
pub proof fn lemma_interference_of_common_point(ranges: Map<VReg, LiveRange>, a: VReg, b: VReg)
    requires
        ranges.contains_key(a) ==> ranges[a].start <= ranges[a].end,
        ranges.contains_key(b) ==> ranges[b].start <= ranges[b].end,
    ensures
        adjacent(interference_of(ranges), a, b) <==> (a != b && ranges.contains_key(a)
            && ranges.contains_key(b) && exists|p: int| #[trigger] covers(ranges[a], p) && covers(
            ranges[b],
            p,
        )),
{
    if ranges.contains_key(a) && ranges.contains_key(b) {
        lemma_overlap_iff_common_point(ranges[a], ranges[b]);
    }
}

/// Adjacency after adding an edge.
pub proof fn lemma_adjacent_with_edge(g: Map<VReg, Set<VReg>>, a: VReg, b: VReg, x: VReg, w: VReg)
    ensures
        adjacent(with_edge(g, a, b), x, w) <==> (adjacent(g, x, w) || (a != b && ((x == a && w
            == b) || (x == b && w == a)))),
{
}

/// Whether the pair of positions of `x` and `w` in `s` comes before `(i, j)`
/// in the order in which pairs `(p, q)` with `p < q` are visited.
spec fn pair_visited(s: Seq<VReg>, x: VReg, w: VReg, i: int, j: int) -> bool {
    let p = s.index_of(x);
    let q = s.index_of(w);
    if p <= q {
        p < i || (p == i && q < j)
    } else {
        q < i || (q == i && p < j)
    }
}

/// In a sequence without duplicates, the position of the element at `k` is `k`.
proof fn lemma_position(s: Seq<VReg>, k: int)
    requires
        s.no_duplicates(),
        0 <= k < s.len(),
    ensures
        s.index_of(s[k]) == k,
{
    assert(s.contains(s[k]));
}

/// The position of an element of a sequence is within the sequence.
proof fn lemma_position_bound(s: Seq<VReg>, x: VReg)
    requires
        s.contains(x),
    ensures
        0 <= s.index_of(x) < s.len(),
        s[s.index_of(x)] == x,
{
}

/// The keys of a map of live ranges.
fn range_keys(m: &HashMap<VReg, LiveRange>) -> (r: Vec<VReg>)
    ensures
        r@.to_set() == m@.dom(),
        r@.no_duplicates(),
{
    let mut r: Vec<VReg> = Vec::new();
    let ghost keys = m.keys().remaining().unref();
    for k in it: m.keys()
        invariant
            it.seq().unref() == keys,
            r@ == keys.take(it.index()),
    {
        proof {
            assert(keys.take(it.index() + 1) == keys.take(it.index()).push(*k));
        }
        r.push(*k);
    }
    proof {
        assert(keys.take(keys.len() as int) == keys);
    }
    r
}

/// The undirected edges of `g`, each written once as `(u, v)` with `u < v`.
pub open spec fn edge_set(g: Map<VReg, Set<VReg>>) -> Set<(VReg, VReg)> {
    Set::new(|e: (VReg, VReg)| e.0 < e.1 && adjacent(g, e.0, e.1))
}

/// The sum of the degrees of the nodes listed in `s`.
pub open spec fn degree_sum(g: Map<VReg, Set<VReg>>, s: Seq<VReg>) -> nat
    decreases s.len(),
{
    if s.len() == 0 {
        0
    } else {
        degree_sum(g, s.drop_last()) + degree_of(g, s.last())
    }
}

/// The adjacent pairs `(u, v)` whose first component is listed in `s`.
spec fn half_edges(g: Map<VReg, Set<VReg>>, s: Seq<VReg>) -> Set<(VReg, VReg)> {
    Set::new(|e: (VReg, VReg)| s.contains(e.0) && adjacent(g, e.0, e.1))
}

/// Summing the degrees of the listed nodes counts the adjacent pairs that
/// start at a listed node.
proof fn lemma_degree_sum_half_edges(g: Map<VReg, Set<VReg>>, s: Seq<VReg>)
    requires
        graph_wf(g),
        s.no_duplicates(),
    ensures
        half_edges(g, s).finite(),
        degree_sum(g, s) == half_edges(g, s).len(),
    decreases s.len(),
{
    if s.len() == 0 {
        assert(half_edges(g, s) =~= Set::empty());
    } else {
        let d = s.drop_last();
        let x = s.last();
        assert(d.no_duplicates());
        lemma_degree_sum_half_edges(g, d);
        let nb = neighbours_of(g, x);
        let f = |v: VReg| (x, v);
        let h = nb.map(f);
        assert(injective_on(f, nb));
        lemma_map_size(nb, h, f);
        assert(!d.contains(x)) by {
            if d.contains(x) {
                let t = choose|t: int| 0 <= t < d.len() && d[t] == x;
                assert(s[t] == s[s.len() - 1]);
            }
        }
        assert(half_edges(g, d).disjoint(h));
        assert(half_edges(g, s) =~= half_edges(g, d) + h) by {
            assert forall|e: (VReg, VReg)| half_edges(g, s).contains(e) <==> (half_edges(g, d) + h).contains(e) by {
                if s.contains(e.0) && e.0 != x {
                    let t = choose|t: int| 0 <= t < s.len() && s[t] == e.0;
                    assert(d[t] == e.0);
                }
                if d.contains(e.0) {
                    let t = choose|t: int| 0 <= t < d.len() && d[t] == e.0;
                    assert(s[t] == e.0);
                }
                if e.0 == x && adjacent(g, e.0, e.1) {
                    assert(nb.contains(e.1));
                    assert(f(e.1) == e);
                }
                if h.contains(e) {
                    let v = choose|v: VReg| nb.contains(v) && f(v) == e;
                    assert(s[s.len() - 1] == x);
                }
            }
        }
        vstd::set_lib::lemma_set_disjoint_lens(half_edges(g, d), h);
    }
}

/// Every undirected edge is counted twice by the degrees: once from each end.
pub proof fn lemma_handshake(g: Map<VReg, Set<VReg>>, s: Seq<VReg>)
    requires
        graph_wf(g),
        s.no_duplicates(),
        s.to_set() == g.dom(),
    ensures
        edge_set(g).finite(),
        degree_sum(g, s) == 2 * edge_set(g).len(),
{
    lemma_degree_sum_half_edges(g, s);
    let all = half_edges(g, s);
    let e = edge_set(g);
    let swap = |p: (VReg, VReg)| (p.1, p.0);
    let r = e.map(swap);
    assert(e.subset_of(all)) by {
        assert forall|p: (VReg, VReg)| #[trigger] e.contains(p) implies all.contains(p) by {
            assert(s.to_set().contains(p.0));
        }
    }
    vstd::set_lib::lemma_len_subset(e, all);
    assert(injective_on(swap, e));
    lemma_map_size(e, r, swap);
    assert(e.disjoint(r));
    assert(all =~= e + r) by {
        assert forall|p: (VReg, VReg)| all.contains(p) <==> (e + r).contains(p) by {
            if all.contains(p) {
                assert(p.0 != p.1);
                if p.0 > p.1 {
                    assert(adjacent(g, p.1, p.0));
                    assert(e.contains(swap(p)));
                    assert(swap(swap(p)) == p);
                }
            }
            if e.contains(p) {
                assert(s.to_set().contains(p.0));
            }
            if r.contains(p) {
                let q = choose|q: (VReg, VReg)| e.contains(q) && swap(q) == p;
                assert(adjacent(g, q.1, q.0));
                assert(s.to_set().contains(p.0));
            }
        }
    }
    vstd::set_lib::lemma_set_disjoint_lens(e, r);
}

/// A prefix sums to no more than the whole sequence.
proof fn lemma_degree_sum_prefix(g: Map<VReg, Set<VReg>>, s: Seq<VReg>, i: int)
    requires
        0 <= i <= s.len(),
    ensures
        degree_sum(g, s.take(i)) <= degree_sum(g, s),
    decreases s.len() - i,
{
    if i < s.len() {
        lemma_degree_sum_prefix(g, s, i + 1);
        assert(s.take(i + 1).drop_last() == s.take(i));
    } else {
        assert(s.take(i) == s);
    }
}

/// An interference graph where nodes are virtual registers.
#[derive(Debug)]
pub struct InterferenceGraph {
    /// Adjacency: vreg -> set of interfering vregs.
    adj: HashMap<VReg, HashSet<VReg>>,
    /// Node degrees.
    degrees: HashMap<VReg, usize>,
}

impl View for InterferenceGraph {
    type V = Map<VReg, Set<VReg>>;

    closed spec fn view(&self) -> Map<VReg, Set<VReg>> {
        sets_of(self.adj@)
    }
}

/// Adds `b` to the neighbour set of `a` (creating `a` if needed) and records
/// the new size of that set as the degree of `a`.
fn link(adj: &mut HashMap<VReg, HashSet<VReg>>, degrees: &mut HashMap<VReg, usize>, a: VReg, b: VReg)
    ensures
        sets_of(final(adj)@) == sets_of(old(adj)@).insert(
            a,
            neighbours_of(sets_of(old(adj)@), a).insert(b),
        ),
        final(adj)@.dom() == old(adj)@.dom().insert(a),
        final(degrees)@ == old(degrees)@.insert(a, final(degrees)@[a]),
        final(degrees)@[a] == final(adj)@[a]@.len(),
        neighbours_of(sets_of(old(adj)@), a).finite() ==> neighbours_of(
            sets_of(old(adj)@),
            a,
        ).insert(b).finite(),
{
    let mut s = match adj.remove(&a) {
        Some(s) => s,
        None => HashSet::new(),
    };
    s.insert(b);
    let n = s.len();
    degrees.insert(a, n);
    adj.insert(a, s);
    proof {
        assert(sets_of(adj@) =~= sets_of(old(adj)@).insert(
            a,
            neighbours_of(sets_of(old(adj)@), a).insert(b),
        ));
    }
}

/// Removes `v` from the neighbour set of `n` and decrements the recorded
/// degree of `n`.
fn unlink(adj: &mut HashMap<VReg, HashSet<VReg>>, degrees: &mut HashMap<VReg, usize>, n: VReg, v: VReg)
    requires
        old(adj)@.contains_key(n),
        old(degrees)@.contains_key(n),
        old(adj)@[n]@.contains(v),
        old(adj)@[n]@.finite(),
        old(degrees)@[n] == old(adj)@[n]@.len(),
    ensures
        final(adj)@.dom() == old(adj)@.dom(),
        sets_of(final(adj)@) == sets_of(old(adj)@).insert(n, old(adj)@[n]@.remove(v)),
        final(degrees)@ == old(degrees)@.insert(n, final(degrees)@[n]),
        final(degrees)@[n] == final(adj)@[n]@.len(),
{
    if let Some(mut s) = adj.remove(&n) {
        s.remove(&v);
        adj.insert(n, s);
    }
    if let Some(d) = degrees.get(&n) {
        let d1 = d.saturating_sub(1);
        degrees.insert(n, d1);
    }
    proof {
        assert(sets_of(adj@) =~= sets_of(old(adj)@).insert(n, old(adj)@[n]@.remove(v)));
    }
}

/// Once a node is removed it is gone and nothing interferes with it.
pub proof fn lemma_removed_node_isolated(g: Map<VReg, Set<VReg>>, v: VReg, u: VReg)
    ensures
        !without_node(g, v).contains_key(v),
        !adjacent(without_node(g, v), u, v),
{
}

/// Removing a node keeps a graph well formed.
pub proof fn lemma_without_node_wf(g: Map<VReg, Set<VReg>>, v: VReg)
    requires
        graph_wf(g),
    ensures
        graph_wf(without_node(g, v)),
{
    let h = without_node(g, v);
    assert(h.dom() =~= g.dom().remove(v));
    assert forall|u: VReg, w: VReg|
        h.contains_key(u) && #[trigger] h[u].contains(w) implies h.contains_key(w) && h[w].contains(u) by {
        assert(g[u].contains(w));
    }
}

impl InterferenceGraph {
    /// Every neighbour set is the set of the graph's view, the degrees agree
    /// with the sizes of those sets, and the graph is well formed.
    #[verifier::type_invariant]
    pub closed spec fn inv(self) -> bool {
        &&& graph_wf(self@)
        &&& self.degrees@.dom() == self.adj@.dom()
        &&& forall|v: VReg| #[trigger]
            self.adj@.contains_key(v) ==> self.degrees@[v] == self.adj@[v]@.len()
    }

    /// The view of a graph that satisfies its invariant is well formed.
    pub proof fn lemma_view_wf(g: InterferenceGraph)
        requires
            g.inv(),
        ensures
            graph_wf(g@),
    {
    }

    /// Interference is symmetric and no vreg interferes with itself.
    pub proof fn lemma_interferes_symmetric(g: InterferenceGraph, a: VReg, b: VReg)
        requires
            g.inv(),
        ensures
            adjacent(g@, a, b) == adjacent(g@, b, a),
            !adjacent(g@, a, a),
    {
    }

    /// Create a new empty interference graph.
    pub fn new() -> (g: Self)
        ensures
            g@ == Map::<VReg, Set<VReg>>::empty(),
    {
        let adj: HashMap<VReg, HashSet<VReg>> = HashMap::new();
        let degrees: HashMap<VReg, usize> = HashMap::new();
        proof {
            assert(sets_of(adj@) =~= Map::<VReg, Set<VReg>>::empty());
            assert(degrees@.dom() =~= adj@.dom());
        }
        InterferenceGraph { adj, degrees }
    }

    /// Build from liveness analysis: one node per vreg with a live range, and
    /// an edge between every two vregs whose live ranges overlap.
    pub fn from_liveness(analysis: &LivenessAnalysis) -> (g: Self)
        ensures
            g@ == interference_of(analysis.ranges@),
            g@.dom() == analysis.ranges@.dom(),
            forall|a: VReg, b: VReg|
                (analysis.ranges@.contains_key(a) ==> analysis.ranges@[a].start
                    <= analysis.ranges@[a].end) && (analysis.ranges@.contains_key(b)
                    ==> analysis.ranges@[b].start <= analysis.ranges@[b].end) ==> (#[trigger] adjacent(g@, a, b)
                    <==> (a != b && analysis.ranges@.contains_key(a)
                    && analysis.ranges@.contains_key(b) && exists|p: int|
                    #[trigger] covers(analysis.ranges@[a], p) && covers(analysis.ranges@[b], p))),
    {
        let ghost ranges = analysis.ranges@;
        let mut graph = Self::new();
        let vregs = range_keys(&analysis.ranges);
        let ghost vs = vregs@;
        let n = vregs.len();
        // Add all vregs as nodes
        let mut i: usize = 0;
        while i < n
            invariant
                i <= n,
                n == vs.len(),
                vregs@ == vs,
                graph@ == Map::new(|v: VReg| vs.take(i as int).contains(v), |v: VReg| Set::<VReg>::empty()),
            decreases n - i,
        {
            graph.add_node(vregs[i]);
            proof {
                assert(vs.take(i + 1) == vs.take(i as int).push(vs[i as int]));
                lemma_push_to_set(vs.take(i as int), vs[i as int]);
                assert(graph@ =~= Map::new(|v: VReg| vs.take(i + 1).contains(v), |v: VReg| Set::<VReg>::empty())) by {
                    assert forall|v: VReg| vs.take(i + 1).contains(v) <==> (vs.take(i as int).contains(v) || v == vs[i as int]) by {
                        assert(vs.take(i + 1).to_set().contains(v) == vs.take(i as int).to_set().insert(vs[i as int]).contains(v));
                    }
                }
            }
            i = i + 1;
        }
        proof {
            assert(vs.take(n as int) == vs);
        }
        // Add edges for interfering vregs
        let mut i: usize = 0;
        while i < n
            invariant
                i <= n,
                n == vs.len(),
                vregs@ == vs,
                vs.to_set() == ranges.dom(),
                vs.no_duplicates(),
                analysis.ranges@ == ranges,
                graph@.dom() == ranges.dom(),
                forall|x: VReg, w: VReg| #[trigger]
                    adjacent(graph@, x, w) <==> (x != w && ranges.contains_key(x) && ranges.contains_key(w)
                        && ranges_overlap(ranges[x], ranges[w]) && pair_visited(vs, x, w, i as int, 0)),
            decreases n - i,
        {
            let mut j: usize = i + 1;
            while j < n
                invariant
                    i < n,
                    i + 1 <= j <= n,
                    n == vs.len(),
                    vregs@ == vs,
                    vs.to_set() == ranges.dom(),
                    vs.no_duplicates(),
                    analysis.ranges@ == ranges,
                    graph@.dom() == ranges.dom(),
                    forall|x: VReg, w: VReg| #[trigger]
                        adjacent(graph@, x, w) <==> (x != w && ranges.contains_key(x) && ranges.contains_key(
                            w,
                        ) && ranges_overlap(ranges[x], ranges[w]) && pair_visited(vs, x, w, i as int, j as int)),
                decreases n - j,
            {
                let a = vregs[i];
                let b = vregs[j];
                let ghost g0 = graph@;
                proof {
                    lemma_position(vs, i as int);
                    lemma_position(vs, j as int);
                    assert(vs.to_set().contains(a));
                    assert(vs.to_set().contains(b));
                }
                if analysis.interferes(a, b) {
                    graph.add_edge(a, b);
                }
                proof {
                    assert forall|x: VReg, w: VReg| #[trigger]
                        adjacent(graph@, x, w) <==> (x != w && ranges.contains_key(x) && ranges.contains_key(
                            w,
                        ) && ranges_overlap(ranges[x], ranges[w]) && pair_visited(vs, x, w, i as int, j + 1)) by {
                        lemma_adjacent_with_edge(g0, a, b, x, w);
                        if ranges.contains_key(x) && ranges.contains_key(w) {
                            assert(vs.to_set().contains(x));
                            assert(vs.to_set().contains(w));
                            lemma_position_bound(vs, x);
                            lemma_position_bound(vs, w);
                        }
                    }
                    assert(graph@.dom() =~= ranges.dom());
                }
                j = j + 1;
            }
            proof {
                assert forall|x: VReg, w: VReg| #[trigger]
                    adjacent(graph@, x, w) <==> (x != w && ranges.contains_key(x) && ranges.contains_key(w)
                        && ranges_overlap(ranges[x], ranges[w]) && pair_visited(vs, x, w, i + 1, 0)) by {
                    if ranges.contains_key(x) && ranges.contains_key(w) {
                        assert(vs.to_set().contains(x));
                        assert(vs.to_set().contains(w));
                        lemma_position_bound(vs, x);
                        lemma_position_bound(vs, w);
                    }
                }
            }
            i = i + 1;
        }
        proof {
            let h = interference_of(ranges);
            assert forall|x: VReg| #[trigger] graph@.contains_key(x) implies graph@[x] == h[x] by {
                assert forall|w: VReg| graph@[x].contains(w) <==> h[x].contains(w) by {
                    assert(adjacent(graph@, x, w) == graph@[x].contains(w));
                    if ranges.contains_key(w) {
                        assert(vs.to_set().contains(x));
                        assert(vs.to_set().contains(w));
                        lemma_position_bound(vs, x);
                        lemma_position_bound(vs, w);
                    }
                }
                assert(graph@[x] =~= h[x]);
            }
            assert(graph@ =~= h);
            assert forall|a: VReg, b: VReg|
                (ranges.contains_key(a) ==> ranges[a].start <= ranges[a].end) && (ranges.contains_key(b)
                    ==> ranges[b].start <= ranges[b].end) implies (#[trigger] adjacent(graph@, a, b)
                    <==> (a != b && ranges.contains_key(a) && ranges.contains_key(b) && exists|p: int|
                    #[trigger] covers(ranges[a], p) && covers(ranges[b], p))) by {
                lemma_interference_of_common_point(ranges, a, b);
            }
        }
        graph
    }

    /// Add a node to the graph.
    pub fn add_node(&mut self, vreg: VReg)
        ensures
            final(self)@ == with_node(old(self)@, vreg),
    {
        proof {
            use_type_invariant(&*self);
        }
        if !self.adj.contains_key(&vreg) {
            let mut g = InterferenceGraph::new();
            std::mem::swap(self, &mut g);
            proof {
                use_type_invariant(&g);
            }
            let InterferenceGraph { mut adj, mut degrees } = g;
            let ghost old_adj = adj@;
            adj.insert(vreg, HashSet::new());
            degrees.insert(vreg, 0);
            proof {
                assert(sets_of(adj@) =~= sets_of(old_adj).insert(vreg, Set::empty()));
            }
            *self = InterferenceGraph { adj, degrees };
        }
    }

    /// Add an undirected edge between two vregs.
    pub fn add_edge(&mut self, a: VReg, b: VReg)
        ensures
            final(self)@ == with_edge(old(self)@, a, b),
    {
        proof {
            use_type_invariant(&*self);
        }
        if a == b {
            return;
        }
        let mut g = InterferenceGraph::new();
        std::mem::swap(self, &mut g);
        let ghost g0 = g@;
        proof {
            use_type_invariant(&g);
        }
        let InterferenceGraph { mut adj, mut degrees } = g;
        link(&mut adj, &mut degrees, a, b);
        link(&mut adj, &mut degrees, b, a);
        proof {
            let g1 = sets_of(adj@);
            assert(g1 =~= with_edge(g0, a, b));
            assert forall|v: VReg| #[trigger] g1.contains_key(v) implies g1[v].finite() && !g1[v].contains(v) by {
                if v != a && v != b {
                    assert(g0.contains_key(v));
                }
            }
            assert forall|u: VReg, v: VReg|
                g1.contains_key(u) && #[trigger] g1[u].contains(v) implies g1.contains_key(v) && g1[v].contains(u) by {
                if u != a && u != b {
                    assert(g0[u].contains(v));
                }
            }
            assert(degrees@.dom() =~= adj@.dom());
            assert forall|v: VReg| #[trigger] adj@.contains_key(v) implies degrees@[v] == adj@[v]@.len() by {
                assert(g1[v] == adj@[v]@);
                if v != a && v != b {
                    assert(g0[v] == g1[v]);
                }
            }
        }
        *self = InterferenceGraph { adj, degrees };
    }

    /// Remove a node from the graph, returning its former neighbours.
    pub fn remove_node(&mut self, vreg: VReg) -> (r: HashSet<VReg>)
        ensures
            final(self)@ == without_node(old(self)@, vreg),
            r@ == neighbours_of(old(self)@, vreg),
    {
        proof {
            use_type_invariant(&*self);
        }
        let mut g = InterferenceGraph::new();
        std::mem::swap(self, &mut g);
        let ghost g0 = g@;
        proof {
            use_type_invariant(&g);
        }
        let InterferenceGraph { mut adj, mut degrees } = g;
        let ghost adj0 = adj@;
        let neighbors = match adj.remove(&vreg) {
            Some(s) => s,
            None => HashSet::new(),
        };
        degrees.remove(&vreg);
        let ghost nb = neighbors@;
        proof {
            assert(nb == neighbours_of(g0, vreg));
        }
        let ghost keys = neighbors.iter().remaining().unref();
        for n in it: neighbors.iter()
            invariant
                it.seq().unref() == keys,
                keys.to_set() == nb,
                keys.no_duplicates(),
                nb == neighbours_of(g0, vreg),
                graph_wf(g0),
                g0 == sets_of(adj0),
                adj@.dom() == adj0.dom().remove(vreg),
                degrees@.dom() == adj@.dom(),
                forall|k: VReg| #[trigger]
                    adj@.contains_key(k) ==> adj@[k]@ == (if keys.take(it.index()).contains(k) {
                        adj0[k]@.remove(vreg)
                    } else {
                        adj0[k]@
                    }),
                forall|k: VReg| #[trigger] adj@.contains_key(k) ==> degrees@[k] == adj@[k]@.len(),
        {
            let ghost i = it.index();
            proof {
                assert(keys[i] == *n);
                assert(nb.contains(*n));
                assert(g0[vreg].contains(*n));
                assert(adj@[*n]@ == adj0[*n]@) by {
                    if keys.take(i).contains(*n) {
                        let j = choose|j: int| 0 <= j < i && #[trigger] keys.take(i)[j] == *n;
                        assert(keys[j] == keys[i]);
                    }
                }
            }
            let ghost prev = adj@;
            unlink(&mut adj, &mut degrees, *n, vreg);
            proof {
                assert(keys.take(i + 1) == keys.take(i).push(*n));
                assert forall|k: VReg| #[trigger] adj@.contains_key(k) implies adj@[k]@ == (if keys.take(i + 1).contains(k) {
                    adj0[k]@.remove(vreg)
                } else {
                    adj0[k]@
                }) by {
                    assert(sets_of(adj@)[k] == adj@[k]@);
                    if k != *n {
                        assert(sets_of(prev)[k] == prev[k]@);
                        if keys.take(i + 1).contains(k) {
                            let j = choose|j: int| 0 <= j < i + 1 && #[trigger] keys.take(i + 1)[j] == k;
                            assert(keys.take(i)[j] == k);
                        }
                        if keys.take(i).contains(k) {
                            let j = choose|j: int| 0 <= j < i && #[trigger] keys.take(i)[j] == k;
                            assert(keys.take(i + 1)[j] == k);
                        }
                    } else {
                        assert(keys.take(i + 1)[i] == k);
                    }
                }
            }
        }
        proof {
            assert(keys.take(keys.len() as int) == keys);
            let h = without_node(g0, vreg);
            assert forall|k: VReg| #[trigger] adj@.contains_key(k) implies adj@[k]@ == h[k] by {
                if !keys.contains(k) {
                    assert(!nb.contains(k));
                    if adj0[k]@.contains(vreg) {
                        assert(g0[k].contains(vreg));
                    }
                    assert(adj0[k]@.remove(vreg) =~= adj0[k]@);
                }
            }
            assert(sets_of(adj@) =~= h);
            lemma_without_node_wf(g0, vreg);
        }
        *self = InterferenceGraph { adj, degrees };
        neighbors
    }

    /// Find a node with degree < k (for simplification).
    pub fn find_low_degree(&self, k: usize) -> (r: Option<VReg>)
        ensures
            r matches Some(v) ==> self@.contains_key(v) && degree_of(self@, v) < k,
            r is None ==> forall|v: VReg| #[trigger]
                self@.contains_key(v) ==> degree_of(self@, v) >= k,
    {
        proof {
            use_type_invariant(self);
        }
        let ghost keys = self.degrees.keys().remaining().unref();
        for v in it: self.degrees.keys()
            invariant
                it.seq().unref() == keys,
                keys.to_set() == self.degrees@.dom(),
                self.degrees@.dom() == self.adj@.dom(),
                forall|u: VReg| #[trigger]
                    self.adj@.contains_key(u) ==> self.degrees@[u] == self.adj@[u]@.len(),
                forall|j: int| 0 <= j < it.index() ==> self.degrees@[#[trigger] keys[j]] >= k,
        {
            proof {
                assert(keys.contains(keys[it.index()]));
            }
            match self.degrees.get(v) {
                Some(d) => {
                    if *d < k {
                        return Some(*v);
                    }
                },
                None => {},
            }
        }
        proof {
            assert forall|v: VReg| #[trigger] self@.contains_key(v) implies degree_of(self@, v) >= k by {
                assert(keys.to_set().contains(v));
                let j = choose|j: int| 0 <= j < keys.len() && keys[j] == v;
                assert(self.degrees@[keys[j]] >= k);
            }
        }
        None
    }

    /// Check if two vregs interfere.
    pub fn interferes(&self, a: VReg, b: VReg) -> (r: bool)
        ensures
            r == adjacent(self@, a, b),
    {
        match self.adj.get(&a) {
            Some(s) => s.contains(&b),
            None => false,
        }
    }

    /// Get the degree of a node.
    pub fn degree(&self, vreg: VReg) -> (d: usize)
        ensures
            d == degree_of(self@, vreg),
    {
        proof {
            use_type_invariant(self);
        }
        match self.degrees.get(&vreg) {
            Some(d) => *d,
            None => 0,
        }
    }

    /// Get neighbors of a node.
    pub fn neighbors(&self, vreg: VReg) -> (r: Vec<VReg>)
        ensures
            r@.to_set() == neighbours_of(self@, vreg),
            r@.no_duplicates(),
    {
        let mut r: Vec<VReg> = Vec::new();
        match self.adj.get(&vreg) {
            Some(s) => {
                let ghost keys = s.iter().remaining().unref();
                for k in it: s.iter()
                    invariant
                        it.seq().unref() == keys,
                        r@ == keys.take(it.index()),
                {
                    proof {
                        assert(keys.take(it.index() + 1) == keys.take(it.index()).push(*k));
                    }
                    r.push(*k);
                }
                proof {
                    assert(keys.take(keys.len() as int) == keys);
                }
            },
            None => {
                proof {
                    assert(r@.to_set() =~= Set::<VReg>::empty());
                }
            },
        }
        r
    }

    /// Number of nodes.
    pub fn node_count(&self) -> (n: usize)
        ensures
            n == self@.dom().len(),
    {
        proof {
            assert(self@.dom() == self.adj@.dom());
        }
        self.adj.len()
    }

    /// Number of edges: half the sum of the degrees, which is the number of
    /// interfering pairs.
    pub fn edge_count(&self) -> (n: usize)
        requires
            2 * edge_set(self@).len() <= usize::MAX,
        ensures
            n == edge_set(self@).len(),
            forall|s: Seq<VReg>|
                s.no_duplicates() && s.to_set() == self@.dom() ==> 2 * n == #[trigger] degree_sum(
                    self@,
                    s,
                ),
    {
        proof {
            use_type_invariant(self);
        }
        let ghost g = self@;
        let ghost keys = self.degrees.keys().remaining().unref();
        proof {
            assert(keys.to_set() == self.degrees@.dom());
            assert(g.dom() == self.adj@.dom());
            lemma_handshake(g, keys);
        }
        let mut sum: usize = 0;
        for k in it: self.degrees.keys()
            invariant
                it.seq().unref() == keys,
                keys.to_set() == self.degrees@.dom(),
                keys.no_duplicates(),
                g == self@,
                graph_wf(g),
                self.degrees@.dom() == self.adj@.dom(),
                forall|u: VReg| #[trigger]
                    self.adj@.contains_key(u) ==> self.degrees@[u] == self.adj@[u]@.len(),
                degree_sum(g, keys) == 2 * edge_set(g).len(),
                2 * edge_set(g).len() <= usize::MAX,
                0 <= it.index() <= keys.len(),
                sum == degree_sum(g, keys.take(it.index())),
        {
            let ghost i = it.index();
            proof {
                assert(keys.contains(keys[i]));
                assert(keys.take(i + 1).drop_last() == keys.take(i));
                lemma_degree_sum_prefix(g, keys, i + 1);
            }
            let d = match self.degrees.get(k) {
                Some(d) => *d,
                None => 0,
            };
            sum = sum + d;
        }
        proof {
            assert(keys.take(keys.len() as int) == keys);
            assert forall|s: Seq<VReg>|
                s.no_duplicates() && s.to_set() == g.dom() implies 2 * (sum / 2) == #[trigger] degree_sum(
                g,
                s,
            ) by {
                lemma_handshake(g, s);
            }
        }
        sum / 2
    }

    /// Number of edges, or `None` when the sum of the degrees does not fit
    /// in a `usize` (where `edge_count` cannot be called).
    pub fn checked_edge_count(&self) -> (r: Option<usize>)
        ensures
            match r {
                Some(n) => n == edge_set(self@).len() && 2 * edge_set(self@).len() <= usize::MAX,
                None => 2 * edge_set(self@).len() > usize::MAX,
            },
    {
        proof {
            use_type_invariant(self);
        }
        let ghost g = self@;
        let ghost keys = self.degrees.keys().remaining().unref();
        proof {
            assert(keys.to_set() == self.degrees@.dom());
            assert(g.dom() == self.adj@.dom());
            lemma_handshake(g, keys);
        }
        let mut sum: usize = 0;
        for k in it: self.degrees.keys()
            invariant
                it.seq().unref() == keys,
                keys.to_set() == self.degrees@.dom(),
                keys.no_duplicates(),
                g == self@,
                graph_wf(g),
                self.degrees@.dom() == self.adj@.dom(),
                forall|u: VReg| #[trigger]
                    self.adj@.contains_key(u) ==> self.degrees@[u] == self.adj@[u]@.len(),
                degree_sum(g, keys) == 2 * edge_set(g).len(),
                0 <= it.index() <= keys.len(),
                sum == degree_sum(g, keys.take(it.index())),
        {
            let ghost i = it.index();
            proof {
                assert(keys.contains(keys[i]));
                assert(keys.take(i + 1).drop_last() == keys.take(i));
                lemma_degree_sum_prefix(g, keys, i + 1);
            }
            let d = match self.degrees.get(k) {
                Some(d) => *d,
                None => 0,
            };
            match sum.checked_add(d) {
                Some(s) => {
                    sum = s;
                },
                None => {
                    return None;
                },
            }
        }
        proof {
            assert(keys.take(keys.len() as int) == keys);
        }
        Some(sum / 2)
    }

    /// Returns all vregs in the graph.
    pub fn nodes(&self) -> (r: Vec<VReg>)
        ensures
            r@.to_set() == self@.dom(),
            r@.no_duplicates(),
    {
        let mut r: Vec<VReg> = Vec::new();
        let ghost keys = self.adj.keys().remaining().unref();
        for k in it: self.adj.keys()
            invariant
                it.seq().unref() == keys,
                r@ == keys.take(it.index()),
        {
            proof {
                assert(keys.take(it.index() + 1) == keys.take(it.index()).push(*k));
            }
            r.push(*k);
        }
        proof {
            assert(keys.take(keys.len() as int) == keys);
        }
        r
    }
}

impl Default for InterferenceGraph {
    fn default() -> (g: Self)
        ensures
            g@ == Map::<VReg, Set<VReg>>::empty(),
    {
        Self::new()
    }
}

impl Clone for InterferenceGraph {
    fn clone(&self) -> (r: Self)
        ensures
            r@ == self@,
    {
        proof {
            use_type_invariant(self);
        }
        InterferenceGraph { adj: self.adj.clone(), degrees: self.degrees.clone() }
    }
}

} // verus!

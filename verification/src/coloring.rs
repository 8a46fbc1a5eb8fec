//! Graph colouring register allocator.

use vstd::prelude::*;
use vstd::set_lib::{set_int_range, lemma_int_range, lemma_map_size, lemma_len_subset};
use vstd::relations::injective_on;
use std::collections::HashMap;
use crate::interference::{
    InterferenceGraph, graph_wf, degree_of, adjacent, without_node, lemma_without_node_wf,
};
use crate::liveness::{VReg, lemma_push_to_set};
use crate::register::{Register, RegisterClass, RegisterFile};

verus! {

/// Result of graph coloring allocation.
#[derive(Debug)]
pub struct Allocation {
    /// Mapping from virtual register to physical register.
    pub mapping: HashMap<VReg, Register>,
    /// Virtual registers that could not be allocated (need spilling).
    pub spilled: Vec<VReg>,
}

/// Graph coloring allocator using simplification and spill heuristics.
pub struct GraphColoring {
    k: usize,
    class: RegisterClass,
}

/// The number of colours handed out: `k`, except that register numbers are
/// `u8`, so no more than 256 colours exist.
pub open spec fn palette(k: usize) -> int {
    if k < 256 {
        k as int
    } else {
        256
    }
}

/// What every allocation of graph `g` with `k` colours of class `class`
/// satisfies:
/// - every node is either mapped to a register or spilled, never both, and
///   nothing else appears;
/// - mapped registers have the requested class and a number in the palette;
/// - adjacent (interfering) nodes never share a register;
/// - a node is spilled only when each colour of the palette is already taken
///   by one of its mapped neighbours;
/// - a mapped node has the smallest colour that none of its mapped
///   neighbours holds: every smaller colour is taken by one of them.
pub open spec fn valid_allocation(
    g: Map<VReg, Set<VReg>>,
    k: usize,
    class: RegisterClass,
    mapping: Map<VReg, Register>,
    spilled: Seq<VReg>,
) -> bool {
    &&& spilled.no_duplicates()
    &&& forall|v: VReg| #[trigger]
        g.contains_key(v) <==> (mapping.contains_key(v) || spilled.contains(v))
    &&& forall|v: VReg| #[trigger] mapping.contains_key(v) ==> !spilled.contains(v)
    &&& forall|v: VReg| #[trigger]
        mapping.contains_key(v) ==> mapping[v].class == class && mapping[v].number < palette(k)
    &&& forall|u: VReg, v: VReg|
        #![trigger mapping[u], mapping[v]]
        mapping.contains_key(u) && mapping.contains_key(v) && adjacent(g, u, v) ==> mapping[u]
            != mapping[v]
    &&& forall|v: VReg, c: int|
        #![trigger spilled.contains(v), colour_taken_near(g, mapping, v, c)]
        spilled.contains(v) && 0 <= c < palette(k) ==> colour_taken_near(g, mapping, v, c)
    &&& forall|v: VReg, c: int|
        #![trigger mapping[v], colour_taken_near(g, mapping, v, c)]
        mapping.contains_key(v) && 0 <= c < mapping[v].number ==> colour_taken_near(g, mapping, v, c)
}

/// Simplification alone can take the graph apart with `k` colours: every
/// non-empty set of nodes holds a node with fewer than `k` neighbours inside
/// the set (as in a chain with two colours, or a graph whose degrees are all
/// below `k`).
pub open spec fn simplifiable(g: Map<VReg, Set<VReg>>, k: int) -> bool {
    forall|s: Set<VReg>|
        #![trigger s.subset_of(g.dom())]
        s.subset_of(g.dom()) && !s.is_empty() ==> exists|v: VReg|
            #[trigger] s.contains(v) && g[v].intersect(s).len() < k
}

/// Some mapped neighbour of `v` holds register number `c`.
pub open spec fn colour_taken_near(
    g: Map<VReg, Set<VReg>>,
    mapping: Map<VReg, Register>,
    v: VReg,
    c: int,
) -> bool {
    exists|u: VReg|
        #![trigger mapping[u]]
        adjacent(g, v, u) && mapping.contains_key(u) && mapping[u].number == c
}

/// The vregs of the simplification stack, in push order.
spec fn order(st: Seq<(VReg, Vec<VReg>)>) -> Seq<VReg> {
    st.map_values(|e: (VReg, Vec<VReg>)| e.0)
}

/// The subgraph of `g` induced by the nodes outside `gone`.
pub open spec fn restrict(g: Map<VReg, Set<VReg>>, gone: Set<VReg>) -> Map<VReg, Set<VReg>> {
    Map::new(|x: VReg| g.contains_key(x) && !gone.contains(x), |x: VReg| g[x].difference(gone))
}

/// What remains of `g` once the first `i` nodes of `ord` are removed.
pub open spec fn remaining(g: Map<VReg, Set<VReg>>, ord: Seq<VReg>, i: int) -> Map<VReg, Set<VReg>> {
    restrict(g, ord.take(i).to_set())
}

/// The neighbours of `ord[i]` that come after it in `ord`: those still
/// present when it is removed.
pub open spec fn later_neighbours(g: Map<VReg, Set<VReg>>, ord: Seq<VReg>, i: int) -> Set<VReg> {
    remaining(g, ord, i)[ord[i]]
}

/// How simplification picks the node `v` to remove from what remains, `w`:
/// a node with fewer than `k` neighbours when there is one, and otherwise,
/// as the potential spill, a node with the most neighbours.
pub open spec fn removal_choice_ok(w: Map<VReg, Set<VReg>>, k: int, v: VReg) -> bool {
    degree_of(w, v) < k || forall|u: VReg| #[trigger]
        w.contains_key(u) ==> k <= degree_of(w, u) <= degree_of(w, v)
}

/// `ord` lists every node of `g` once, in an order in which simplification
/// may remove them.
pub open spec fn elimination_order(g: Map<VReg, Set<VReg>>, k: usize, ord: Seq<VReg>) -> bool {
    &&& ord.no_duplicates()
    &&& ord.to_set() == g.dom()
    &&& forall|i: int| 0 <= i < ord.len() ==> removal_choice_ok(remaining(g, ord, i), k as int, #[trigger] ord[i])
}

/// Simplification takes a node with many neighbours only when it is blocked,
/// and then the one with the most: in an elimination order, when the node
/// removed at step `i` has at least `k` remaining neighbours, every remaining
/// node has at least `k` remaining neighbours and none has more than it.
pub proof fn lemma_blocked_removal_takes_most_neighbours(
    g: Map<VReg, Set<VReg>>,
    k: usize,
    ord: Seq<VReg>,
    i: int,
    u: VReg,
)
    requires
        elimination_order(g, k, ord),
        0 <= i < ord.len(),
        remaining(g, ord, i).contains_key(u),
        remaining(g, ord, i)[ord[i]].len() >= k,
    ensures
        remaining(g, ord, i).contains_key(ord[i]),
        k <= remaining(g, ord, i)[u].len() <= remaining(g, ord, i)[ord[i]].len(),
{
    let w = remaining(g, ord, i);
    assert(ord.to_set().contains(ord[i]));
    assert(!ord.take(i).to_set().contains(ord[i])) by {
        if ord.take(i).to_set().contains(ord[i]) {
            let t = choose|t: int| 0 <= t < i && #[trigger] ord.take(i)[t] == ord[i];
            assert(ord[t] == ord[i]);
        }
    }
    assert(w.contains_key(ord[i]));
    assert(removal_choice_ok(w, k as int, ord[i]));
    assert(degree_of(w, ord[i]) == w[ord[i]].len());
    assert(degree_of(w, u) == w[u].len());
}

/// Some node of `n` is mapped to a register numbered `c`.
pub open spec fn held(n: Set<VReg>, mapping: Map<VReg, Register>, c: int) -> bool {
    exists|u: VReg| #![trigger n.contains(u), mapping[u]] n.contains(u) && mapping.contains_key(u) && mapping[u].number == c
}

/// The select rule at position `i` of `ord`: the node gets the smallest
/// colour that none of its later neighbours holds, and is spilled when they
/// hold every colour of the palette.
pub open spec fn colour_rule_at(
    g: Map<VReg, Set<VReg>>,
    k: usize,
    mapping: Map<VReg, Register>,
    spilled: Seq<VReg>,
    ord: Seq<VReg>,
    i: int,
) -> bool {
    let v = ord[i];
    let n = later_neighbours(g, ord, i);
    &&& mapping.contains_key(v) ==> !held(n, mapping, mapping[v].number as int) && forall|c: int|
        0 <= c < mapping[v].number ==> #[trigger] held(n, mapping, c)
    &&& spilled.contains(v) ==> forall|c: int| 0 <= c < palette(k) ==> #[trigger] held(n, mapping, c)
}

/// The colours follow the select rule at every position of `ord`.
pub open spec fn colours_follow_order(
    g: Map<VReg, Set<VReg>>,
    k: usize,
    mapping: Map<VReg, Register>,
    spilled: Seq<VReg>,
    ord: Seq<VReg>,
) -> bool {
    forall|i: int| 0 <= i < ord.len() ==> #[trigger] colour_rule_at(g, k, mapping, spilled, ord, i)
}

/// Every stacked node recorded exactly the neighbours that remained when it
/// was removed, and was picked as simplification picks.
spec fn chosen_well(g: Map<VReg, Set<VReg>>, k: int, st: Seq<(VReg, Vec<VReg>)>) -> bool {
    forall|a: int|
        #![trigger st[a]]
        0 <= a < st.len() ==> {
            &&& st[a].1@.to_set() == remaining(g, order(st), a)[st[a].0]
            &&& removal_choice_ok(remaining(g, order(st), a), k, st[a].0)
        }
}

/// Pushing a node picked as simplification picks keeps the stack well chosen.
proof fn lemma_chosen_well_push(
    g: Map<VReg, Set<VReg>>,
    k: int,
    st0: Seq<(VReg, Vec<VReg>)>,
    st: Seq<(VReg, Vec<VReg>)>,
    w0: Map<VReg, Set<VReg>>,
)
    requires
        chosen_well(g, k, st0),
        simplify_inv(g, w0, st0),
        st.len() == st0.len() + 1,
        st.drop_last() == st0,
        st.last().1@.to_set() == w0[st.last().0],
        removal_choice_ok(w0, k, st.last().0),
    ensures
        chosen_well(g, k, st),
{
    assert(order(st) =~= order(st0).push(st.last().0));
    assert forall|a: int| #![trigger st[a]] 0 <= a < st.len() implies {
        &&& st[a].1@.to_set() == remaining(g, order(st), a)[st[a].0]
        &&& removal_choice_ok(remaining(g, order(st), a), k, st[a].0)
    } by {
        assert(order(st).take(a) =~= order(st0).push(st.last().0).take(a));
        if a < st0.len() {
            assert(order(st).take(a) =~= order(st0).take(a));
            assert(st[a] == st.drop_last()[a]);
        } else {
            assert(order(st).take(a) =~= order(st0));
        }
    }
}

/// Removing the first `i` nodes leaves neither them nor edges to them.
proof fn lemma_later_neighbours_after(g: Map<VReg, Set<VReg>>, ord: Seq<VReg>, i: int, j: int)
    requires
        0 <= j < i < ord.len(),
        ord.no_duplicates(),
        g.contains_key(ord[i]),
    ensures
        !later_neighbours(g, ord, i).contains(ord[j]),
{
    assert(!ord.take(i).to_set().contains(ord[i])) by {
        if ord.take(i).to_set().contains(ord[i]) {
            let t = choose|t: int| 0 <= t < i && #[trigger] ord.take(i)[t] == ord[i];
            assert(ord[t] == ord[i]);
        }
    }
    assert(remaining(g, ord, i).contains_key(ord[i]));
    assert(ord.take(i)[j] == ord[j]);
    assert(ord.take(i).to_set().contains(ord[j]));
}

/// The later neighbours of a node are its neighbours not listed before it.
proof fn lemma_later_neighbours_shape(g: Map<VReg, Set<VReg>>, ord: Seq<VReg>, i: int)
    requires
        0 <= i < ord.len(),
        ord.no_duplicates(),
        g.contains_key(ord[i]),
    ensures
        later_neighbours(g, ord, i) == g[ord[i]].difference(ord.take(i).to_set()),
{
    assert(!ord.take(i).to_set().contains(ord[i])) by {
        if ord.take(i).to_set().contains(ord[i]) {
            let t = choose|t: int| 0 <= t < i && #[trigger] ord.take(i)[t] == ord[i];
            assert(ord[t] == ord[i]);
        }
    }
}

/// Mapping a vreg outside `n` changes nothing held by `n`.
proof fn lemma_held_insert(n: Set<VReg>, m: Map<VReg, Register>, x: VReg, r: Register, c: int)
    requires
        !n.contains(x),
    ensures
        held(n, m.insert(x, r), c) == held(n, m, c),
{
    if held(n, m.insert(x, r), c) {
        let u = choose|u: VReg| #![trigger n.contains(u), m.insert(x, r)[u]] n.contains(u) && m.insert(x, r).contains_key(u) && m.insert(x, r)[u].number == c;
        assert(n.contains(u) && m[u] == m.insert(x, r)[u]);
    }
    if held(n, m, c) {
        let u = choose|u: VReg| #![trigger n.contains(u), m[u]] n.contains(u) && m.contains_key(u) && m[u].number == c;
        assert(m.insert(x, r)[u] == m[u]);
    }
}

/// The state of the simplification phase: `w` is what remains of `g` once
/// the stacked nodes are removed, and each stacked node records every
/// neighbour that was still present when it was removed.
spec fn simplify_inv(g: Map<VReg, Set<VReg>>, w: Map<VReg, Set<VReg>>, st: Seq<(VReg, Vec<VReg>)>) -> bool {
    &&& order(st).no_duplicates()
    &&& forall|i: int| 0 <= i < st.len() ==> #[trigger] g.contains_key(order(st)[i])
    &&& w == restrict(g, order(st).to_set())
    &&& forall|i: int, u: VReg|
        #![trigger st[i].1@.contains(u)]
        0 <= i < st.len() && st[i].1@.contains(u) ==> adjacent(g, st[i].0, u)
    &&& forall|i: int, j: int|
        #![trigger st[i], st[j]]
        0 <= i < j < st.len() && adjacent(g, st[i].0, st[j].0) ==> st[i].1@.contains(st[j].0)
    &&& forall|i: int, x: VReg|
        #![trigger st[i].1@.contains(x), w.contains_key(x)]
        0 <= i < st.len() && w.contains_key(x) && adjacent(g, st[i].0, x) ==> st[i].1@.contains(x)
}

/// Removing one more node from the induced subgraph.
proof fn lemma_restrict_remove(g: Map<VReg, Set<VReg>>, gone: Set<VReg>, v: VReg)
    ensures
        without_node(restrict(g, gone), v) == restrict(g, gone.insert(v)),
{
    let a = without_node(restrict(g, gone), v);
    let b = restrict(g, gone.insert(v));
    assert forall|x: VReg| #[trigger] a.contains_key(x) implies a[x] == b[x] by {
        assert(a[x] =~= b[x]);
    }
    assert(a =~= b);
}

/// There are `count` colours below `count`.
proof fn lemma_colours_below(count: nat)
    requires
        count <= 256,
    ensures
        Set::new(|d: u8| d < count).finite(),
        Set::new(|d: u8| d < count).len() == count,
    decreases count,
{
    if count > 0 {
        let c = (count - 1) as nat;
        lemma_colours_below(c);
        assert(Set::new(|d: u8| d < count) =~= Set::new(|d: u8| d < c).insert(c as u8));
    } else {
        assert(Set::new(|d: u8| d < count) =~= Set::<u8>::empty());
    }
}

/// A list that holds every colour below `count` has at least `count` entries.
proof fn lemma_colours_pigeonhole(used: Seq<u8>, count: nat)
    requires
        count <= 256,
        forall|d: u8| d < count ==> used.contains(d),
    ensures
        used.len() >= count,
{
    lemma_colours_below(count);
    let all = Set::new(|d: u8| d < count);
    assert(all.subset_of(used.to_set()));
    used.lemma_cardinality_of_set();
    vstd::seq_lib::seq_to_set_is_finite(used);
    lemma_len_subset(all, used.to_set());
}

/// Membership in a suffix, one element at a time.
proof fn lemma_skip_step(s: Seq<VReg>, i: int)
    requires
        0 <= i < s.len(),
    ensures
        forall|v: VReg| #[trigger]
            s.skip(i).contains(v) <==> (v == s[i] || s.skip(i + 1).contains(v)),
{
    assert forall|v: VReg| #[trigger]
        s.skip(i).contains(v) <==> (v == s[i] || s.skip(i + 1).contains(v)) by {
        if s.skip(i).contains(v) {
            let t = choose|t: int| 0 <= t < s.skip(i).len() && #[trigger] s.skip(i)[t] == v;
            if t > 0 {
                assert(s.skip(i + 1)[t - 1] == v);
            }
        }
        if s.skip(i + 1).contains(v) {
            let t = choose|t: int| 0 <= t < s.skip(i + 1).len() && #[trigger] s.skip(i + 1)[t] == v;
            assert(s.skip(i)[t + 1] == v);
        }
        if v == s[i] {
            assert(s.skip(i)[0] == v);
        }
    }
}

/// While nodes remain, a simplifiable graph leaves one of degree below `k`
/// in what remains.
proof fn lemma_simplifiable_finds_low(
    g: Map<VReg, Set<VReg>>,
    w: Map<VReg, Set<VReg>>,
    st: Seq<(VReg, Vec<VReg>)>,
    k: int,
)
    requires
        graph_wf(g),
        simplify_inv(g, w, st),
        simplifiable(g, k),
        w.dom().len() > 0,
        w.dom().finite(),
    ensures
        exists|v: VReg| #[trigger] w.contains_key(v) && degree_of(w, v) < k,
{
    let gone = order(st).to_set();
    let s = w.dom();
    assert(s.subset_of(g.dom()));
    assert(!s.is_empty()) by {
        if s.is_empty() {
            assert(s.len() == 0);
        }
    }
    let v = choose|v: VReg| #[trigger] s.contains(v) && g[v].intersect(s).len() < k;
    assert(w[v] =~= g[v].intersect(s)) by {
        assert forall|x: VReg| w[v].contains(x) <==> g[v].intersect(s).contains(x) by {
            if g[v].contains(x) {
                assert(g.contains_key(x));
            }
        }
    }
    assert(w.contains_key(v) && degree_of(w, v) < k);
}

/// A node of maximum degree (the last one in `nodes` order among ties).
fn max_degree_node(g: &InterferenceGraph) -> (v: VReg)
    requires
        g@.dom().len() > 0,
        g@.dom().finite(),
    ensures
        g@.contains_key(v),
        forall|u: VReg| #[trigger] g@.contains_key(u) ==> degree_of(g@, u) <= degree_of(g@, v),
{
    let nodes = g.nodes();
    proof {
        let x = g@.dom().choose();
        assert(nodes@.to_set().contains(x));
    }
    let mut best = nodes[0];
    let mut best_deg = g.degree(best);
    let mut i: usize = 1;
    proof {
        assert(nodes@.to_set().contains(nodes@[0]));
    }
    while i < nodes.len()
        invariant
            1 <= i <= nodes.len(),
            nodes@.to_set() == g@.dom(),
            g@.contains_key(best),
            best_deg == degree_of(g@, best),
            forall|j: int| 0 <= j < i ==> degree_of(g@, #[trigger] nodes@[j]) <= best_deg,
        decreases nodes.len() - i,
    {
        let d = g.degree(nodes[i]);
        if d >= best_deg {
            proof {
                assert(nodes@.to_set().contains(nodes@[i as int]));
            }
            best = nodes[i];
            best_deg = d;
        }
        i = i + 1;
    }
    proof {
        assert forall|u: VReg| #[trigger] g@.contains_key(u) implies degree_of(g@, u) <= degree_of(
            g@,
            best,
        ) by {
            assert(nodes@.to_set().contains(u));
            let j = choose|j: int| 0 <= j < nodes@.len() && #[trigger] nodes@[j] == u;
            assert(degree_of(g@, nodes@[j]) <= best_deg);
        }
    }
    best
}

/// Removes `node` from the working graph and pushes it, with the neighbours
/// it still had, on the simplification stack.
fn simplify_step(
    work: &mut InterferenceGraph,
    stack: &mut Vec<(VReg, Vec<VReg>)>,
    node: VReg,
    Ghost(g): Ghost<Map<VReg, Set<VReg>>>,
)
    requires
        graph_wf(g),
        graph_wf(old(work)@),
        old(work)@.contains_key(node),
        simplify_inv(g, old(work)@, old(stack)@),
    ensures
        simplify_inv(g, final(work)@, final(stack)@),
        graph_wf(final(work)@),
        final(work)@ == without_node(old(work)@, node),
        final(work)@.dom() == old(work)@.dom().remove(node),
        final(stack)@.len() == old(stack)@.len() + 1,
        final(stack)@.drop_last() == old(stack)@,
        final(stack)@.last().1@.len() == degree_of(old(work)@, node),
        final(stack)@.last().0 == node,
        final(stack)@.last().1@.to_set() == old(work)@[node],
{
    let ghost w0 = work@;
    let ghost st0 = stack@;
    let neighbors = work.neighbors(node);
    proof {
        neighbors@.unique_seq_to_set();
    }
    work.remove_node(node);
    stack.push((node, neighbors));
    proof {
        assert(stack@.drop_last() =~= st0);
        let st = stack@;
        assert(st[st.len() - 1] == (node, neighbors));
        assert(order(st) =~= order(st0).push(node));
        lemma_restrict_remove(g, order(st0).to_set(), node);
        lemma_without_node_wf(w0, node);
        assert(work@.dom() =~= w0.dom().remove(node));
        lemma_push_to_set(order(st0), node);
        assert(!order(st0).to_set().contains(node));
        assert(order(st).no_duplicates()) by {
            assert forall|i: int, j: int| 0 <= i < j < order(st).len() implies order(st)[i] != order(
                st,
            )[j] by {
                if j == st.len() - 1 {
                    assert(order(st0).to_set().contains(order(st0)[i]));
                }
            }
        }
        assert forall|i: int| 0 <= i < st.len() implies #[trigger] g.contains_key(order(st)[i]) by {
            if i < st0.len() {
                assert(order(st)[i] == order(st0)[i]);
            }
        }
        assert forall|i: int, u: VReg|
            0 <= i < st.len() && #[trigger] st[i].1@.contains(u) implies adjacent(g, st[i].0, u) by {
            if i == st.len() - 1 {
                assert(neighbors@.to_set().contains(u));
            } else {
                assert(st[i] == st0[i]);
            }
        }
        assert forall|i: int, j: int|
            #![trigger st[i], st[j]]
            0 <= i < j < st.len() && adjacent(g, st[i].0, st[j].0) implies st[i].1@.contains(
                st[j].0,
            ) by {
            assert(st[i] == st0[i]);
            if j == st.len() - 1 {
                assert(w0.contains_key(node));
            } else {
                assert(st[j] == st0[j]);
            }
        }
        assert forall|i: int, x: VReg|
            0 <= i < st.len() && #[trigger] work@.contains_key(x) && adjacent(
                g,
                st[i].0,
                x,
            ) implies #[trigger] st[i].1@.contains(x) by {
            assert(w0.contains_key(x));
            if i == st.len() - 1 {
                assert(w0[node].contains(x));
                assert(neighbors@.to_set().contains(x));
            } else {
                assert(st[i] == st0[i]);
            }
        }
    }
}

/// Whether `x` occurs in `v`.
fn contains_colour(v: &Vec<u8>, x: u8) -> (r: bool)
    ensures
        r == v@.contains(x),
{
    let mut i: usize = 0;
    while i < v.len()
        invariant
            i <= v.len(),
            forall|j: int| 0 <= j < i ==> v@[j] != x,
        decreases v.len() - i,
    {
        if v[i] == x {
            return true;
        }
        i = i + 1;
    }
    false
}

/// The smallest colour below `count` that does not occur in `used`.
fn first_free_colour(used: &Vec<u8>, count: usize) -> (r: Option<u8>)
    requires
        count <= 256,
    ensures
        r matches Some(c) ==> c < count && !used@.contains(c) && forall|d: u8|
            d < c ==> used@.contains(d),
        r is None ==> forall|d: u8| d < count ==> used@.contains(d),
{
    let mut c: usize = 0;
    while c < count
        invariant
            c <= count,
            count <= 256,
            forall|d: u8| d < c ==> used@.contains(d),
        decreases count - c,
    {
        let colour = c as u8;
        if !contains_colour(used, colour) {
            return Some(colour);
        }
        c = c + 1;
    }
    None
}

/// A node with fewer neighbours than there are colours is never spilled:
/// a spilled node sees every colour of the palette on a distinct neighbour.
pub proof fn lemma_low_degree_never_spilled(
    g: Map<VReg, Set<VReg>>,
    k: usize,
    class: RegisterClass,
    mapping: Map<VReg, Register>,
    spilled: Seq<VReg>,
    v: VReg,
)
    requires
        graph_wf(g),
        valid_allocation(g, k, class, mapping, spilled),
        degree_of(g, v) < palette(k),
    ensures
        !spilled.contains(v),
{
    if spilled.contains(v) {
        let p = palette(k);
        let colours = set_int_range(0, p);
        let f = |c: int|
            choose|u: VReg|
                #![trigger mapping[u]]
                adjacent(g, v, u) && mapping.contains_key(u) && mapping[u].number == c;
        assert forall|c: int| #[trigger] colours.contains(c) implies {
            let u = f(c);
            adjacent(g, v, u) && mapping.contains_key(u) && mapping[u].number == c
        } by {
            assert(colour_taken_near(g, mapping, v, c));
        }
        assert(injective_on(f, colours)) by {
            assert forall|a: int, b: int|
                colours.contains(a) && colours.contains(b) && #[trigger] f(a) == #[trigger] f(b) implies a == b by {
                assert(mapping[f(a)].number == a);
                assert(mapping[f(b)].number == b);
            }
        }
        lemma_int_range(0, p);
        let image = colours.map(f);
        lemma_map_size(colours, image, f);
        assert(g.contains_key(v));
        assert(image.subset_of(g[v])) by {
            assert forall|u: VReg| #[trigger] image.contains(u) implies g[v].contains(u) by {
                let c = choose|c: int| colours.contains(c) && f(c) == u;
            }
        }
        lemma_len_subset(image, g[v]);
    }
}

impl GraphColoring {
    /// Create a new graph coloring allocator with K colors (registers); as
    /// register numbers are `u8`, at most 256 of them are used.
    pub fn new(k: usize, class: RegisterClass) -> (r: Self)
        ensures
            r.k() == k,
            r.class() == class,
    {
        GraphColoring { k, class }
    }

    /// The colour budget.
    pub closed spec fn k(&self) -> usize {
        self.k
    }

    /// The class of the registers handed out.
    pub closed spec fn class(&self) -> RegisterClass {
        self.class
    }

    /// Allocate registers using Chaitin-style graph coloring.
    pub fn allocate(&self, graph: &InterferenceGraph) -> (r: Allocation)
        ensures
            valid_allocation(graph@, self.k(), self.class(), r.mapping@, r.spilled@),
            self.k() <= 256 && simplifiable(graph@, self.k() as int) ==> r.spilled@.len() == 0,
            exists|ord: Seq<VReg>|
                #[trigger] elimination_order(graph@, self.k(), ord) && colours_follow_order(
                    graph@,
                    self.k(),
                    r.mapping@,
                    r.spilled@,
                    ord,
                ),
    {
        proof {
            use_type_invariant(graph);
            InterferenceGraph::lemma_view_wf(*graph);
        }
        let ghost g = graph@;
        let mut work_graph = graph.clone();
        let mut stack: Vec<(VReg, Vec<VReg>)> = Vec::new();
        let mut spilled: Vec<VReg> = Vec::new();
        proof {
            assert(chosen_well(g, self.k as int, stack@));
            assert(order(stack@) =~= Seq::<VReg>::empty());
            assert(order(stack@).to_set() =~= Set::<VReg>::empty());
            assert(restrict(g, Set::empty()) =~= g) by {
                assert forall|x: VReg| #[trigger] g.contains_key(x) implies restrict(
                    g,
                    Set::empty(),
                )[x] == g[x] by {
                    assert(g[x].difference(Set::empty()) =~= g[x]);
                }
            }
        }
        // Phase 1: Simplify - remove low-degree nodes
        loop
            invariant
                graph_wf(g),
                graph_wf(work_graph@),
                simplify_inv(g, work_graph@, stack@),
                self.k <= 256 && simplifiable(g, self.k as int) ==> forall|a: int|
                    0 <= a < stack@.len() ==> (#[trigger] stack@[a]).1@.len() < self.k,
                chosen_well(g, self.k as int, stack@),
            ensures
                work_graph@.dom().len() == 0,
                chosen_well(g, self.k as int, stack@),
                self.k <= 256 && simplifiable(g, self.k as int) ==> forall|a: int|
                    0 <= a < stack@.len() ==> (#[trigger] stack@[a]).1@.len() < self.k,
            decreases work_graph@.dom().len(),
        {
            let ghost st0 = stack@;
            let ghost w0 = work_graph@;
            if let Some(node) = work_graph.find_low_degree(self.k) {
                simplify_step(&mut work_graph, &mut stack, node, Ghost(g));
                proof {
                    lemma_chosen_well_push(g, self.k as int, st0, stack@, w0);
                    assert forall|a: int| 0 <= a < stack@.len() - 1 implies #[trigger] stack@[a] == st0[a] by {
                        assert(stack@.drop_last()[a] == stack@[a]);
                    }
                }
            } else if work_graph.node_count() > 0 {
                proof {
                    if self.k <= 256 && simplifiable(g, self.k as int) {
                        lemma_simplifiable_finds_low(g, work_graph@, stack@, self.k as int);
                    }
                }
                // Potential spill: pick highest degree node
                let spill = max_degree_node(&work_graph);
                simplify_step(&mut work_graph, &mut stack, spill, Ghost(g));
                proof {
                    lemma_chosen_well_push(g, self.k as int, st0, stack@, w0);
                }
            } else {
                break;
            }
        }
        let ghost st = stack@;
        let ghost ord = order(st);
        proof {
            assert forall|v: VReg| #[trigger] g.contains_key(v) <==> ord.contains(v) by {
                if g.contains_key(v) && !ord.to_set().contains(v) {
                    assert(work_graph@.contains_key(v));
                    work_graph@.dom().lemma_len0_is_empty();
                }
                if ord.contains(v) {
                    let j = choose|j: int| 0 <= j < ord.len() && ord[j] == v;
                    assert(g.contains_key(ord[j]));
                }
            }
        }
        proof {
            assert(ord.to_set() =~= g.dom());
            assert forall|a: int| 0 <= a < ord.len() implies removal_choice_ok(
                remaining(g, ord, a),
                self.k as int,
                #[trigger] ord[a],
            ) by {
                assert(st[a].0 == ord[a]);
            }
            assert(elimination_order(g, self.k, ord));
        }
        // Phase 2: Select - assign colors
        let count: usize = if self.k < 256 {
            self.k
        } else {
            256
        };
        let mut mapping: HashMap<VReg, Register> = HashMap::new();
        let mut i: usize = stack.len();
        while i > 0
            invariant
                i <= stack.len(),
                stack@ == st,
                ord == order(st),
                count == palette(self.k),
                graph_wf(g),
                ord.no_duplicates(),
                chosen_well(g, self.k as int, st),
                forall|a: int| i <= a < st.len() ==> #[trigger] colour_rule_at(g, self.k, mapping@, spilled@, ord, a),
                forall|v: VReg| #[trigger] g.contains_key(v) <==> ord.contains(v),
                forall|a: int, u: VReg|
                    #![trigger st[a].1@.contains(u)]
                    0 <= a < st.len() && st[a].1@.contains(u) ==> adjacent(g, st[a].0, u),
                forall|a: int, b: int|
                    #![trigger st[a], st[b]]
                    0 <= a < b < st.len() && adjacent(g, st[a].0, st[b].0) ==> st[a].1@.contains(
                        st[b].0,
                    ),
                spilled@.no_duplicates(),
                forall|v: VReg|
                    #![trigger mapping@.contains_key(v)]
                    #![trigger spilled@.contains(v)]
                    #![trigger ord.skip(i as int).contains(v)]
                    (mapping@.contains_key(v) || spilled@.contains(v)) <==> ord.skip(i as int).contains(v),
                forall|v: VReg| #[trigger] mapping@.contains_key(v) ==> !spilled@.contains(v),
                self.k <= 256 && simplifiable(g, self.k as int) ==> spilled@.len() == 0 && forall|a: int|
                    0 <= a < st.len() ==> (#[trigger] st[a]).1@.len() < self.k,
                forall|v: VReg| #[trigger]
                    mapping@.contains_key(v) ==> mapping@[v].class == self.class && mapping@[v].number
                        < palette(self.k),
                forall|u: VReg, v: VReg|
                    #![trigger mapping@[u], mapping@[v]]
                    mapping@.contains_key(u) && mapping@.contains_key(v) && adjacent(g, u, v)
                        ==> mapping@[u] != mapping@[v],
                forall|v: VReg, c: int|
                    #![trigger spilled@.contains(v), colour_taken_near(g, mapping@, v, c)]
                    spilled@.contains(v) && 0 <= c < palette(self.k) ==> colour_taken_near(
                        g,
                        mapping@,
                        v,
                        c,
                    ),
                forall|v: VReg, c: int|
                    #![trigger mapping@[v], colour_taken_near(g, mapping@, v, c)]
                    mapping@.contains_key(v) && 0 <= c < mapping@[v].number ==> colour_taken_near(
                        g,
                        mapping@,
                        v,
                        c,
                    ),
            decreases i,
        {
            i = i - 1;
            proof {
                lemma_skip_step(ord, i as int);
            }
            let vreg = stack[i].0;
            let neighbors = &stack[i].1;
            proof {
                assert(st[i as int].0 == ord[i as int]);
            }
            let mut used: Vec<u8> = Vec::new();
            let mut j: usize = 0;
            while j < neighbors.len()
                invariant
                    j <= neighbors.len(),
                    used@.len() <= j,
                    neighbors@ == st[i as int].1@,
                    vreg == st[i as int].0,
                    i < st.len(),
                    forall|a: int, u: VReg|
                        #![trigger st[a].1@.contains(u)]
                        0 <= a < st.len() && st[a].1@.contains(u) ==> adjacent(g, st[a].0, u),
                    forall|t: int|
                        0 <= t < j && #[trigger] mapping@.contains_key(neighbors@[t]) ==> used@.contains(
                            mapping@[neighbors@[t]].number,
                        ),
                    forall|x: u8| #[trigger]
                        used@.contains(x) ==> colour_taken_near(g, mapping@, vreg, x as int),
                    forall|x: u8|
                        used@.contains(x) ==> #[trigger] held(neighbors@.to_set(), mapping@, x as int),
                decreases neighbors.len() - j,
            {
                let n = neighbors[j];
                match mapping.get(&n) {
                    Some(r) => {
                        let ghost used0 = used@;
                        used.push(r.number);
                        proof {
                            assert(st[i as int].1@.contains(n));
                            assert(adjacent(g, vreg, n));
                            assert(mapping@[n].number == r.number);
                            assert(neighbors@.to_set().contains(n));
                            assert forall|x: u8| used@.contains(x) implies #[trigger] held(
                                neighbors@.to_set(),
                                mapping@,
                                x as int,
                            ) by {
                                if x != r.number {
                                    let t = choose|t: int| 0 <= t < used@.len() && used@[t] == x;
                                    assert(used0[t] == x);
                                    assert(used0.contains(x));
                                }
                            }
                            assert forall|x: u8| #[trigger] used@.contains(x) implies colour_taken_near(
                                g,
                                mapping@,
                                vreg,
                                x as int,
                            ) by {
                                if x != r.number {
                                    let t = choose|t: int| 0 <= t < used@.len() && used@[t] == x;
                                    assert(used0[t] == x);
                                    assert(used0.contains(x));
                                }
                            }
                            assert forall|t: int|
                                0 <= t < j + 1 && #[trigger] mapping@.contains_key(
                                    neighbors@[t],
                                ) implies used@.contains(mapping@[neighbors@[t]].number) by {
                                if t < j {
                                    let q = choose|q: int| 0 <= q < used0.len() && used0[q] == mapping@[neighbors@[t]].number;
                                    assert(used@[q] == used0[q]);
                                } else {
                                    assert(used@[used@.len() - 1] == r.number);
                                }
                            }
                        }
                    },
                    None => {},
                }
                j = j + 1;
            }
            let color = first_free_colour(&used, count);
            let ghost m0 = mapping@;
            match color {
                Some(c) => {
                    let reg = Register::new(c, self.class);
                    mapping.insert(vreg, reg);
                    proof {
                        let ni = later_neighbours(g, ord, i as int);
                        assert(ni == neighbors@.to_set());
                        assert(g.contains_key(ord[i as int]));
                        lemma_later_neighbours_shape(g, ord, i as int);
                        assert(!ni.contains(vreg));
                        assert forall|a: int| i <= a < st.len() implies #[trigger] colour_rule_at(
                            g,
                            self.k,
                            mapping@,
                            spilled@,
                            ord,
                            a,
                        ) by {
                            let na = later_neighbours(g, ord, a);
                            if a > i {
                                assert(g.contains_key(ord[a]));
                                lemma_later_neighbours_after(g, ord, a, i as int);
                                assert(colour_rule_at(g, self.k, m0, spilled@, ord, a));
                                assert(ord[a] != vreg);
                            }
                            assert forall|c2: int| #![trigger held(na, mapping@, c2)] held(na, mapping@, c2) == held(na, m0, c2) by {
                                if a > i {
                                    lemma_held_insert(na, m0, vreg, reg, c2);
                                } else {
                                    lemma_held_insert(ni, m0, vreg, reg, c2);
                                }
                            }
                            if a == i {
                                assert(!held(ni, m0, c as int)) by {
                                    if held(ni, m0, c as int) {
                                        let u = choose|u: VReg| #![trigger ni.contains(u), m0[u]] ni.contains(u) && m0.contains_key(u) && m0[u].number == c;
                                        let t = choose|t: int| 0 <= t < neighbors@.len() && neighbors@[t] == u;
                                        assert(used@.contains(m0[neighbors@[t]].number));
                                    }
                                }
                                assert forall|d: int| 0 <= d < c implies #[trigger] held(ni, m0, d) by {
                                    assert(used@.contains(d as u8));
                                }
                            }
                        }
                        assert(!m0.contains_key(vreg)) by {
                            if m0.contains_key(vreg) {
                                let t = choose|t: int| 0 <= t < ord.skip(i + 1).len() && #[trigger] ord.skip(i + 1)[t] == vreg;
                                assert(ord[i + 1 + t] == ord[i as int]);
                            }
                        }
                        assert forall|u: VReg, v: VReg|
                            #![trigger mapping@[u], mapping@[v]]
                            mapping@.contains_key(u) && mapping@.contains_key(v) && adjacent(g, u, v)
                                implies mapping@[u] != mapping@[v] by {
                            if u == vreg && v != vreg {
                                assert(m0.contains_key(v));
                                let t0 = choose|t0: int| 0 <= t0 < ord.skip(i + 1).len() && #[trigger] ord.skip(i + 1)[t0] == v;
                                let q = i + 1 + t0;
                                assert(st[q].0 == v);
                                assert(st[i as int].1@.contains(st[q].0));
                                let t = choose|t: int| 0 <= t < neighbors@.len() && neighbors@[t] == v;
                                assert(used@.contains(m0[neighbors@[t]].number));
                            } else if v == vreg && u != vreg {
                                assert(m0.contains_key(u));
                                assert(adjacent(g, v, u));
                                let t0 = choose|t0: int| 0 <= t0 < ord.skip(i + 1).len() && #[trigger] ord.skip(i + 1)[t0] == u;
                                let q = i + 1 + t0;
                                assert(st[q].0 == u);
                                assert(st[i as int].1@.contains(st[q].0));
                                let t = choose|t: int| 0 <= t < neighbors@.len() && neighbors@[t] == u;
                                assert(used@.contains(m0[neighbors@[t]].number));
                            } else if u == vreg && v == vreg {
                                assert(!g[u].contains(u));
                            }
                        }
                        assert forall|v: VReg, c2: int|
                            #![trigger spilled@.contains(v), colour_taken_near(g, mapping@, v, c2)]
                            spilled@.contains(v) && 0 <= c2 < palette(self.k) implies colour_taken_near(
                                g,
                                mapping@,
                                v,
                                c2,
                            ) by {
                            assert(colour_taken_near(g, m0, v, c2));
                            let u = choose|u: VReg|
                                #![trigger m0[u]]
                                adjacent(g, v, u) && m0.contains_key(u) && m0[u].number == c2;
                            assert(mapping@[u] == m0[u]);
                        }
                        assert forall|v: VReg, c2: int|
                            #![trigger mapping@[v], colour_taken_near(g, mapping@, v, c2)]
                            mapping@.contains_key(v) && 0 <= c2 < mapping@[v].number implies colour_taken_near(
                                g,
                                mapping@,
                                v,
                                c2,
                            ) by {
                            if v == vreg {
                                assert(used@.contains(c2 as u8));
                                assert(colour_taken_near(g, m0, vreg, (c2 as u8) as int));
                            } else {
                                assert(m0.contains_key(v) && m0[v] == mapping@[v]);
                                assert(colour_taken_near(g, m0, v, c2));
                            }
                            let u = choose|u: VReg|
                                #![trigger m0[u]]
                                adjacent(g, v, u) && m0.contains_key(u) && m0[u].number == c2;
                            assert(mapping@[u] == m0[u]);
                        }
                    }
                },
                None => {
                    proof {
                        if self.k <= 256 && simplifiable(g, self.k as int) {
                            assert(st[i as int].1@.len() < self.k);
                            lemma_colours_pigeonhole(used@, count as nat);
                        }
                        assert(later_neighbours(g, ord, i as int) == neighbors@.to_set());
                    }
                    let ghost s0 = spilled@;
                    spilled.push(vreg);
                    proof {
                        assert(!m0.contains_key(vreg) && !s0.contains(vreg)) by {
                            if m0.contains_key(vreg) || s0.contains(vreg) {
                                let t = choose|t: int| 0 <= t < ord.skip(i + 1).len() && #[trigger] ord.skip(i + 1)[t] == vreg;
                                assert(ord[i + 1 + t] == ord[i as int]);
                            }
                        }
                        assert(spilled@.no_duplicates()) by {
                            assert forall|a: int, b: int| 0 <= a < b < spilled@.len() implies spilled@[a] != spilled@[b] by {
                                if b == spilled@.len() - 1 {
                                    assert(s0[a] == spilled@[a]);
                                    assert(s0.contains(s0[a]));
                                }
                            }
                        }
                        assert forall|v: VReg| #[trigger] spilled@.contains(v) <==> (s0.contains(v) || v == vreg) by {
                            if spilled@.contains(v) && v != vreg {
                                let a = choose|a: int| 0 <= a < spilled@.len() && spilled@[a] == v;
                                assert(s0[a] == v);
                            }
                            if s0.contains(v) {
                                let a = choose|a: int| 0 <= a < s0.len() && s0[a] == v;
                                assert(spilled@[a] == v);
                            }
                            if v == vreg {
                                assert(spilled@[spilled@.len() - 1] == v);
                            }
                        }
                        assert forall|a: int| i <= a < st.len() implies #[trigger] colour_rule_at(
                            g,
                            self.k,
                            mapping@,
                            spilled@,
                            ord,
                            a,
                        ) by {
                            if a > i {
                                assert(colour_rule_at(g, self.k, mapping@, s0, ord, a));
                                assert(ord[a] != vreg);
                            } else {
                                let ni = later_neighbours(g, ord, i as int);
                                assert forall|c2: int| 0 <= c2 < palette(self.k) implies #[trigger] held(ni, mapping@, c2) by {
                                    assert(used@.contains(c2 as u8));
                                }
                            }
                        }
                        assert forall|v: VReg, c2: int|
                            #![trigger spilled@.contains(v), colour_taken_near(g, mapping@, v, c2)]
                            spilled@.contains(v) && 0 <= c2 < palette(self.k) implies colour_taken_near(
                                g,
                                mapping@,
                                v,
                                c2,
                            ) by {
                            if v == vreg {
                                assert(used@.contains(c2 as u8));
                            }
                        }
                    }
                },
            }
        }
        proof {
            assert(ord.skip(0) == ord);
            assert(colours_follow_order(g, self.k, mapping@, spilled@, ord));
            assert(elimination_order(g, self.k, ord));
        }
        Allocation { mapping, spilled }
    }

    /// Allocate using a register file directly; the file is left as it is.
    pub fn allocate_with_file(&self, graph: &InterferenceGraph, _file: &mut RegisterFile) -> (r:
        Allocation)
        ensures
            valid_allocation(graph@, self.k(), self.class(), r.mapping@, r.spilled@),
            self.k() <= 256 && simplifiable(graph@, self.k() as int) ==> r.spilled@.len() == 0,
            exists|ord: Seq<VReg>|
                #[trigger] elimination_order(graph@, self.k(), ord) && colours_follow_order(
                    graph@,
                    self.k(),
                    r.mapping@,
                    r.spilled@,
                    ord,
                ),
            *final(_file) == *old(_file),
    {
        self.allocate(graph)
    }
}

} // verus!

//! Liveness analysis.

use vstd::prelude::*;
use vstd::std_specs::iter::IteratorSpec;
use std::collections::HashMap;
use std::collections::HashSet;

verus! {

/// A virtual register (SSA value or variable).
pub type VReg = u32;

/// A program point (instruction index).
pub type ProgramPoint = usize;

/// A live range from start to end (inclusive).
#[derive(Clone, Copy, Debug, PartialEq, Eq, Hash, Structural)]
pub struct LiveRange {
    pub start: ProgramPoint,
    pub end: ProgramPoint,
}

/// Whether two ranges share a point (as closed intervals).
pub open spec fn ranges_overlap(a: LiveRange, b: LiveRange) -> bool {
    a.start <= b.end && b.start <= a.end
}

/// The number of points from `start` to `end`, or 1 when `end` lies before
/// `start`.
pub open spec fn range_len(r: LiveRange) -> int {
    (if r.end >= r.start {
        r.end - r.start
    } else {
        0
    }) + 1
}

/// Whether point `p` lies in range `r`, both ends included.
pub open spec fn covers(r: LiveRange, p: int) -> bool {
    r.start <= p && p <= r.end
}

/// The smallest range covering both `a` and `b`.
pub open spec fn merged(a: LiveRange, b: LiveRange) -> LiveRange {
    LiveRange {
        start: if a.start <= b.start { a.start } else { b.start },
        end: if a.end >= b.end { a.end } else { b.end },
    }
}

impl LiveRange {
    /// Create a new live range.
    pub fn new(start: ProgramPoint, end: ProgramPoint) -> (r: Self)
        ensures
            r.start == start,
            r.end == end,
    {
        LiveRange { start, end }
    }

    /// Length of the range: the number of points from `start` to `end`, or 1
    /// when `end` lies before `start`.
    pub fn len(&self) -> (n: usize)
        requires
            self.end < self.start || self.end - self.start < usize::MAX,
        ensures
            n == range_len(*self),
    {
        self.end.saturating_sub(self.start) + 1
    }

    /// Returns true if the range is a single point (its length is 1): its
    /// end does not lie after its start.
    pub fn is_empty(&self) -> (r: bool)
        ensures
            r == (self.end <= self.start),
    {
        self.end <= self.start
    }

    /// Returns true if the range covers a single point.
    pub fn is_point(&self) -> (r: bool)
        ensures
            r == (self.start == self.end),
    {
        self.start == self.end
    }

    /// Check if this range overlaps another.
    pub fn overlaps(&self, other: &LiveRange) -> (r: bool)
        ensures
            r == ranges_overlap(*self, *other),
            self.start <= self.end && other.start <= other.end ==> (r == exists|p: int|
                #[trigger] covers(*self, p) && covers(*other, p)),
    {
        proof {
            if self.start <= self.end && other.start <= other.end {
                lemma_overlap_iff_common_point(*self, *other);
            }
        }
        self.start <= other.end && other.start <= self.end
    }

    /// Check if a point is within this range.
    pub fn contains(&self, point: ProgramPoint) -> (r: bool)
        ensures
            r == (self.start <= point && point <= self.end),
            r == covers(*self, point as int),
    {
        self.start <= point && point <= self.end
    }

    /// Merge with another range.
    pub fn merge(&self, other: &LiveRange) -> (r: LiveRange)
        ensures
            r == merged(*self, *other),
    {
        let start = if self.start <= other.start {
            self.start
        } else {
            other.start
        };
        let end = if self.end >= other.end {
            self.end
        } else {
            other.end
        };
        LiveRange::new(start, end)
    }
}

/// A range is a single point exactly when its length is 1.
pub proof fn lemma_single_point_iff_len_one(r: LiveRange)
    ensures
        (r.end <= r.start) == (range_len(r) == 1),
{
}

/// Two ranges whose ends do not lie before their starts overlap exactly when
/// some point lies in both of them.
pub proof fn lemma_overlap_iff_common_point(a: LiveRange, b: LiveRange)
    requires
        a.start <= a.end,
        b.start <= b.end,
    ensures
        ranges_overlap(a, b) <==> exists|p: int| #[trigger] covers(a, p) && covers(b, p),
{
    if ranges_overlap(a, b) {
        let p = if a.start <= b.start {
            b.start as int
        } else {
            a.start as int
        };
        assert(covers(a, p) && covers(b, p));
    }
}

/// Overlap is symmetric.
pub proof fn lemma_overlap_symmetric(a: LiveRange, b: LiveRange)
    ensures
        ranges_overlap(a, b) == ranges_overlap(b, a),
{
}

/// The merge of two ranges covers every point of both and nothing beyond
/// the smallest start and the largest end; merging is commutative.
pub proof fn lemma_merge_covers(a: LiveRange, b: LiveRange, p: ProgramPoint)
    ensures
        (a.start <= p <= a.end || b.start <= p <= b.end) ==> merged(a, b).start <= p <= merged(
            a,
            b,
        ).end,
        merged(a, b) == merged(b, a),
        merged(a, b).start == a.start || merged(a, b).start == b.start,
        merged(a, b).end == a.end || merged(a, b).end == b.end,
{
}

/// A basic block for liveness analysis purposes.
#[derive(Debug)]
pub struct LivenessBlock {
    pub id: usize,
    /// Virtual registers defined (written) in this block.
    pub defs: HashSet<VReg>,
    /// Virtual registers used (read) in this block.
    pub uses: HashSet<VReg>,
    /// Successor block indices.
    pub successors: Vec<usize>,
}

/// Adds every element of `src` to `dst`.
fn union_into(dst: &mut HashSet<VReg>, src: &HashSet<VReg>)
    ensures
        final(dst)@ == old(dst)@ + src@,
{
    let ghost keys = src.iter().remaining().unref();
    for v in it: src.iter()
        invariant
            it.seq().unref() == keys,
            keys.to_set() == src@,
            dst@ == old(dst)@ + keys.take(it.index()).to_set(),
    {
        proof {
            assert(keys.take(it.index() + 1) == keys.take(it.index()).push(*v));
            lemma_push_to_set(keys.take(it.index()), *v);
        }
        dst.insert(*v);
    }
    proof {
        assert(keys.take(keys.len() as int) == keys);
    }
}

/// Adds every element of `src` that is not in `minus` to `dst`.
fn union_difference_into(dst: &mut HashSet<VReg>, src: &HashSet<VReg>, minus: &HashSet<VReg>)
    ensures
        final(dst)@ == old(dst)@ + src@.difference(minus@),
{
    let ghost keys = src.iter().remaining().unref();
    for v in it: src.iter()
        invariant
            it.seq().unref() == keys,
            keys.to_set() == src@,
            dst@ == old(dst)@ + keys.take(it.index()).to_set().difference(minus@),
    {
        proof {
            assert(keys.take(it.index() + 1) == keys.take(it.index()).push(*v));
            lemma_push_to_set(keys.take(it.index()), *v);
        }
        if !minus.contains(v) {
            dst.insert(*v);
        }
        proof {
            assert(dst@ =~= old(dst)@ + keys.take(it.index() + 1).to_set().difference(minus@));
        }
    }
    proof {
        assert(keys.take(keys.len() as int) == keys);
    }
}

/// A fresh set with the elements of `s`.
fn copy_set(s: &HashSet<VReg>) -> (r: HashSet<VReg>)
    ensures
        r@ == s@,
{
    let mut r: HashSet<VReg> = HashSet::new();
    union_into(&mut r, s);
    proof {
        assert(r@ =~= s@);
    }
    r
}

/// A fresh vector with the elements of `v`.
fn copy_ids(v: &Vec<usize>) -> (r: Vec<usize>)
    ensures
        r@ == v@,
{
    let mut r: Vec<usize> = Vec::new();
    let mut i: usize = 0;
    while i < v.len()
        invariant
            i <= v.len(),
            r@ == v@.take(i as int),
        decreases v.len() - i,
    {
        proof {
            assert(v@.take(i + 1) == v@.take(i as int).push(v@[i as int]));
        }
        r.push(v[i]);
        i = i + 1;
    }
    proof {
        assert(v@.take(v.len() as int) == v@);
    }
    r
}

/// Pushing onto a sequence adds one element to its set.
pub proof fn lemma_push_to_set<A>(s: Seq<A>, x: A)
    ensures
        s.push(x).to_set() == s.to_set().insert(x),
{
    assert forall|y: A| #[trigger] s.push(x).to_set().contains(y) <==> s.to_set().insert(x).contains(y) by {
        if s.push(x).contains(y) && y != x {
            let j = choose|j: int| 0 <= j < s.len() + 1 && #[trigger] s.push(x)[j] == y;
            assert(s[j] == y);
        }
        if s.contains(y) {
            let j = choose|j: int| 0 <= j < s.len() && #[trigger] s[j] == y;
            assert(s.push(x)[j] == y);
        }
        if y == x {
            assert(s.push(x)[s.len() as int] == y);
        }
    }
    assert(s.push(x).to_set() =~= s.to_set().insert(x));
}

impl Clone for LivenessBlock {
    fn clone(&self) -> (r: Self)
        ensures
            r.id == self.id,
            r.defs@ == self.defs@,
            r.uses@ == self.uses@,
            r.successors@ == self.successors@,
    {
        LivenessBlock {
            id: self.id,
            defs: copy_set(&self.defs),
            uses: copy_set(&self.uses),
            successors: copy_ids(&self.successors),
        }
    }
}

/// Result of liveness analysis.
#[derive(Debug)]
pub struct LivenessAnalysis {
    /// Live-in sets per block.
    pub live_in: HashMap<usize, HashSet<VReg>>,
    /// Live-out sets per block.
    pub live_out: HashMap<usize, HashSet<VReg>>,
    /// Live ranges per virtual register.
    pub ranges: HashMap<VReg, LiveRange>,
}

/// Whether block `b` uses or defines `v`.
pub open spec fn mentions(b: LivenessBlock, v: VReg) -> bool {
    b.uses@.contains(v) || b.defs@.contains(v)
}

/// The pairs `(v, id)` such that some block with identifier `id` uses or
/// defines `v`.
pub open spec fn occurrences(blocks: Seq<LivenessBlock>) -> Set<(VReg, usize)> {
    Set::new(
        |q: (VReg, usize)|
            exists|j: int| 0 <= j < blocks.len() && blocks[j].id == q.1 && #[trigger] mentions(blocks[j], q.0),
    )
}

/// `ranges` gives each vreg that occurs in `occ` the range from the smallest
/// to the largest identifier it occurs with, and nothing else.
pub open spec fn ranges_cover(ranges: Map<VReg, LiveRange>, occ: Set<(VReg, usize)>) -> bool {
    &&& forall|v: VReg, p: usize| #[trigger] occ.contains((v, p)) ==> ranges.contains_key(v)
    &&& forall|v: VReg| #[trigger]
        ranges.contains_key(v) ==> occ.contains((v, ranges[v].start)) && occ.contains(
            (v, ranges[v].end),
        )
    &&& forall|v: VReg, p: usize|
        ranges.contains_key(v) && #[trigger] occ.contains((v, p)) ==> ranges[v].start <= p
            <= ranges[v].end
}

/// Ranges computed from occurrences never end before they start.
pub proof fn lemma_covering_ranges_well_formed(ranges: Map<VReg, LiveRange>, occ: Set<(VReg, usize)>, v: VReg)
    requires
        ranges_cover(ranges, occ),
        ranges.contains_key(v),
    ensures
        ranges[v].start <= ranges[v].end,
{
    assert(occ.contains((v, ranges[v].start)));
}

/// Records that `v` occurs at point `p`: the range of `v` grows to cover `p`.
fn note_occurrence(ranges: &mut HashMap<VReg, LiveRange>, v: VReg, p: usize, Ghost(occ): Ghost<Set<(VReg, usize)>>)
    requires
        ranges_cover(old(ranges)@, occ),
    ensures
        ranges_cover(final(ranges)@, occ.insert((v, p))),
{
    let point = LiveRange::new(p, p);
    match ranges.get(&v) {
        Some(r) => {
            let m = r.merge(&point);
            ranges.insert(v, m);
        },
        None => {
            ranges.insert(v, point);
        },
    }
    proof {
        let occ2 = occ.insert((v, p));
        assert forall|u: VReg| #[trigger]
            ranges@.contains_key(u) implies occ2.contains((u, ranges@[u].start)) && occ2.contains(
            (u, ranges@[u].end),
        ) by {
            if u != v {
                assert(old(ranges)@.contains_key(u));
            }
        }
    }
}

/// The identifier of each block.
pub open spec fn ids_of(blocks: Seq<LivenessBlock>) -> Seq<usize> {
    blocks.map_values(|b: LivenessBlock| b.id)
}

/// The sets of a map of hash sets, as mathematical sets.
pub open spec fn set_view(m: Map<usize, HashSet<VReg>>) -> Map<usize, Set<VReg>> {
    m.map_values(|s: HashSet<VReg>| s@)
}

/// What flows out of a block with successors `succs`: the union of the
/// live-in sets of those successors that are blocks (others add nothing).
pub open spec fn flow_from(live_in: Map<usize, Set<VReg>>, succs: Seq<usize>) -> Set<VReg>
    decreases succs.len(),
{
    if succs.len() == 0 {
        Set::empty()
    } else {
        flow_from(live_in, succs.drop_last()) + (if live_in.contains_key(succs.last()) {
            live_in[succs.last()]
        } else {
            Set::empty()
        })
    }
}

/// No two blocks share an identifier.
pub open spec fn ids_distinct(blocks: Seq<LivenessBlock>) -> bool {
    forall|i: int, j: int|
        0 <= i < blocks.len() && 0 <= j < blocks.len() && i != j ==> #[trigger] blocks[i].id
            != #[trigger] blocks[j].id
}

/// `live_in` and `live_out` satisfy the backward dataflow equations of every
/// block: live-out is what flows in from the successors, and live-in is what
/// the block uses together with what is live out and not defined by it.
pub open spec fn solves(
    blocks: Seq<LivenessBlock>,
    live_in: Map<usize, Set<VReg>>,
    live_out: Map<usize, Set<VReg>>,
) -> bool {
    forall|i: int|
        #![trigger blocks[i]]
        0 <= i < blocks.len() ==> {
            &&& live_in.contains_key(blocks[i].id)
            &&& live_out.contains_key(blocks[i].id)
            &&& live_out[blocks[i].id] == flow_from(live_in, blocks[i].successors@)
            &&& live_in[blocks[i].id] == blocks[i].uses@ + live_out[blocks[i].id].difference(
                blocks[i].defs@,
            )
        }
}

/// Every set of the first solution is contained in the matching set of the
/// second.
pub open spec fn below(
    blocks: Seq<LivenessBlock>,
    a_in: Map<usize, Set<VReg>>,
    a_out: Map<usize, Set<VReg>>,
    b_in: Map<usize, Set<VReg>>,
    b_out: Map<usize, Set<VReg>>,
) -> bool {
    forall|i: int|
        #![trigger blocks[i]]
        0 <= i < blocks.len() ==> a_in[blocks[i].id].subset_of(b_in[blocks[i].id]) && a_out[blocks[
            i].id].subset_of(b_out[blocks[i].id])
}

/// The least solution of the dataflow equations, with one entry per block.
pub open spec fn least_solution(
    blocks: Seq<LivenessBlock>,
    live_in: Map<usize, Set<VReg>>,
    live_out: Map<usize, Set<VReg>>,
) -> bool {
    &&& solves(blocks, live_in, live_out)
    &&& live_in.dom() == ids_of(blocks).to_set()
    &&& live_out.dom() == ids_of(blocks).to_set()
    &&& forall|x_in: Map<usize, Set<VReg>>, x_out: Map<usize, Set<VReg>>| #[trigger]
        solves(blocks, x_in, x_out) ==> below(blocks, live_in, live_out, x_in, x_out)
}

/// Whatever a block uses is live on entry to it.
pub proof fn lemma_uses_are_live_in(
    blocks: Seq<LivenessBlock>,
    live_in: Map<usize, Set<VReg>>,
    live_out: Map<usize, Set<VReg>>,
    i: int,
)
    requires
        solves(blocks, live_in, live_out),
        0 <= i < blocks.len(),
    ensures
        blocks[i].uses@.subset_of(live_in[blocks[i].id]),
{
    assert(live_in[blocks[i].id] == blocks[i].uses@ + live_out[blocks[i].id].difference(
        blocks[i].defs@,
    ));
}

/// What is live on entry to a successor is live on exit from the block.
pub proof fn lemma_successor_live_in_flows_out(
    blocks: Seq<LivenessBlock>,
    live_in: Map<usize, Set<VReg>>,
    live_out: Map<usize, Set<VReg>>,
    i: int,
    t: int,
)
    requires
        solves(blocks, live_in, live_out),
        0 <= i < blocks.len(),
        0 <= t < blocks[i].successors@.len(),
        live_in.contains_key(blocks[i].successors@[t]),
    ensures
        live_in[blocks[i].successors@[t]].subset_of(live_out[blocks[i].id]),
{
    assert(live_out[blocks[i].id] == flow_from(live_in, blocks[i].successors@));
    lemma_flow_includes(live_in, blocks[i].successors@, t);
}

/// The flow includes the live-in set of each listed successor that is a block.
proof fn lemma_flow_includes(live_in: Map<usize, Set<VReg>>, succs: Seq<usize>, t: int)
    requires
        0 <= t < succs.len(),
        live_in.contains_key(succs[t]),
    ensures
        live_in[succs[t]].subset_of(flow_from(live_in, succs)),
    decreases succs.len(),
{
    if t < succs.len() - 1 {
        assert(succs.drop_last()[t] == succs[t]);
        lemma_flow_includes(live_in, succs.drop_last(), t);
    }
}

/// The least solution of the equations is unique.
pub proof fn lemma_least_solution_unique(
    blocks: Seq<LivenessBlock>,
    in1: Map<usize, Set<VReg>>,
    out1: Map<usize, Set<VReg>>,
    in2: Map<usize, Set<VReg>>,
    out2: Map<usize, Set<VReg>>,
)
    requires
        least_solution(blocks, in1, out1),
        least_solution(blocks, in2, out2),
    ensures
        in1 == in2,
        out1 == out2,
{
    assert(below(blocks, in1, out1, in2, out2));
    assert(below(blocks, in2, out2, in1, out1));
    assert forall|k: usize| #[trigger] in1.contains_key(k) implies in1[k] == in2[k] && out1[k] == out2[k] by {
        lemma_key_is_id(blocks, k);
        let j = choose|j: int| 0 <= j < blocks.len() && (#[trigger] blocks[j]).id == k;
        assert(in1[k] =~= in2[k]);
        assert(out1[k] =~= out2[k]);
    }
    assert(in1 =~= in2);
    assert(out1 =~= out2);
}

/// Two lists of the same blocks pose the same equations.
proof fn lemma_same_blocks(
    b1: Seq<LivenessBlock>,
    b2: Seq<LivenessBlock>,
    a_in: Map<usize, Set<VReg>>,
    a_out: Map<usize, Set<VReg>>,
    x_in: Map<usize, Set<VReg>>,
    x_out: Map<usize, Set<VReg>>,
)
    requires
        forall|b: LivenessBlock| b1.contains(b) <==> b2.contains(b),
    ensures
        solves(b1, x_in, x_out) ==> solves(b2, x_in, x_out),
        below(b1, a_in, a_out, x_in, x_out) ==> below(b2, a_in, a_out, x_in, x_out),
        ids_of(b1).to_set() == ids_of(b2).to_set(),
        occurrences(b1) == occurrences(b2),
{
    assert forall|j: int| 0 <= j < b2.len() implies exists|i: int| 0 <= i < b1.len() && b1[i] == #[trigger] b2[j] by {
        assert(b2.contains(b2[j]));
    }
    assert forall|i: int| 0 <= i < b1.len() implies exists|j: int| 0 <= j < b2.len() && b2[j] == #[trigger] b1[i] by {
        assert(b1.contains(b1[i]));
    }
    if solves(b1, x_in, x_out) {
        assert forall|j: int| #![trigger b2[j]] 0 <= j < b2.len() implies {
            &&& x_in.contains_key(b2[j].id)
            &&& x_out.contains_key(b2[j].id)
            &&& x_out[b2[j].id] == flow_from(x_in, b2[j].successors@)
            &&& x_in[b2[j].id] == b2[j].uses@ + x_out[b2[j].id].difference(b2[j].defs@)
        } by {
            let i = choose|i: int| 0 <= i < b1.len() && b1[i] == b2[j];
        }
    }
    if below(b1, a_in, a_out, x_in, x_out) {
        assert forall|j: int| #![trigger b2[j]] 0 <= j < b2.len() implies a_in[b2[j].id].subset_of(
            x_in[b2[j].id],
        ) && a_out[b2[j].id].subset_of(x_out[b2[j].id]) by {
            let i = choose|i: int| 0 <= i < b1.len() && b1[i] == b2[j];
        }
    }
    assert forall|k: usize| ids_of(b1).to_set().contains(k) <==> ids_of(b2).to_set().contains(k) by {
        if ids_of(b1).to_set().contains(k) {
            let i = choose|i: int| 0 <= i < ids_of(b1).len() && ids_of(b1)[i] == k;
            let j = choose|j: int| 0 <= j < b2.len() && b2[j] == #[trigger] b1[i];
            assert(ids_of(b2)[j] == k);
        }
        if ids_of(b2).to_set().contains(k) {
            let j = choose|j: int| 0 <= j < ids_of(b2).len() && ids_of(b2)[j] == k;
            let i = choose|i: int| 0 <= i < b1.len() && b1[i] == #[trigger] b2[j];
            assert(ids_of(b1)[i] == k);
        }
    }
    assert(ids_of(b1).to_set() =~= ids_of(b2).to_set());
    assert forall|q: (VReg, usize)| occurrences(b1).contains(q) <==> occurrences(b2).contains(q) by {
        if occurrences(b1).contains(q) {
            let i = choose|i: int| 0 <= i < b1.len() && b1[i].id == q.1 && #[trigger] mentions(b1[i], q.0);
            let j = choose|j: int| 0 <= j < b2.len() && b2[j] == #[trigger] b1[i];
            assert(mentions(b2[j], q.0));
        }
        if occurrences(b2).contains(q) {
            let j = choose|j: int| 0 <= j < b2.len() && b2[j].id == q.1 && #[trigger] mentions(b2[j], q.0);
            let i = choose|i: int| 0 <= i < b1.len() && b1[i] == #[trigger] b2[j];
            assert(mentions(b1[i], q.0));
        }
    }
    assert(occurrences(b1) =~= occurrences(b2));
}

/// Ranges that cover the same occurrences are the same ranges.
pub proof fn lemma_ranges_unique(r1: Map<VReg, LiveRange>, r2: Map<VReg, LiveRange>, occ: Set<(VReg, usize)>)
    requires
        ranges_cover(r1, occ),
        ranges_cover(r2, occ),
    ensures
        r1 == r2,
{
    assert forall|v: VReg| r1.contains_key(v) <==> r2.contains_key(v) by {
        if r1.contains_key(v) {
            assert(occ.contains((v, r1[v].start)));
        }
        if r2.contains_key(v) {
            assert(occ.contains((v, r2[v].start)));
        }
    }
    assert forall|v: VReg| #[trigger] r1.contains_key(v) implies r1[v] == r2[v] by {
        assert(occ.contains((v, r1[v].start)) && occ.contains((v, r1[v].end)));
        assert(occ.contains((v, r2[v].start)) && occ.contains((v, r2[v].end)));
    }
    assert(r1 =~= r2);
}

/// The analysis does not depend on the order of the blocks: two lists of the
/// same blocks have the same live-in and live-out sets and the same ranges.
pub proof fn lemma_analysis_order_independent(
    b1: Seq<LivenessBlock>,
    b2: Seq<LivenessBlock>,
    in1: Map<usize, Set<VReg>>,
    out1: Map<usize, Set<VReg>>,
    r1: Map<VReg, LiveRange>,
    in2: Map<usize, Set<VReg>>,
    out2: Map<usize, Set<VReg>>,
    r2: Map<VReg, LiveRange>,
)
    requires
        forall|b: LivenessBlock| b1.contains(b) <==> b2.contains(b),
        least_solution(b1, in1, out1),
        ranges_cover(r1, occurrences(b1)),
        least_solution(b2, in2, out2),
        ranges_cover(r2, occurrences(b2)),
    ensures
        in1 == in2,
        out1 == out2,
        r1 == r2,
{
    lemma_same_blocks(b1, b2, in1, out1, in1, out1);
    assert(least_solution(b2, in1, out1)) by {
        assert forall|x_in: Map<usize, Set<VReg>>, x_out: Map<usize, Set<VReg>>| #[trigger]
            solves(b2, x_in, x_out) implies below(b2, in1, out1, x_in, x_out) by {
            lemma_same_blocks(b2, b1, in1, out1, x_in, x_out);
            lemma_same_blocks(b1, b2, in1, out1, x_in, x_out);
        }
    }
    lemma_least_solution_unique(b2, in1, out1, in2, out2);
    lemma_ranges_unique(r1, r2, occurrences(b1));
}

/// `p` is a path of block positions: the identifier of each block on it is
/// among the successors of the block before.
pub open spec fn is_path(blocks: Seq<LivenessBlock>, p: Seq<int>) -> bool {
    &&& p.len() > 0
    &&& forall|t: int| 0 <= t < p.len() ==> 0 <= #[trigger] p[t] < blocks.len()
    &&& forall|t: int|
        0 <= t < p.len() - 1 ==> blocks[#[trigger] p[t]].successors@.contains(blocks[p[t + 1]].id)
}

/// `v` is used by the last block of path `p` and defined by none before it.
pub open spec fn live_along(blocks: Seq<LivenessBlock>, v: VReg, p: Seq<int>) -> bool {
    &&& is_path(blocks, p)
    &&& blocks[p.last()].uses@.contains(v)
    &&& forall|t: int| 0 <= t < p.len() - 1 ==> !blocks[#[trigger] p[t]].defs@.contains(v)
}

/// Some path from block `i` reaches a use of `v` with no definition of `v`
/// on the way.
pub open spec fn live_at(blocks: Seq<LivenessBlock>, v: VReg, i: int) -> bool {
    exists|p: Seq<int>| #[trigger] live_along(blocks, v, p) && p[0] == i
}

/// An element of the flow comes from the live-in set of a listed successor.
proof fn lemma_flow_member(live_in: Map<usize, Set<VReg>>, succs: Seq<usize>, v: VReg)
    requires
        flow_from(live_in, succs).contains(v),
    ensures
        exists|t: int|
            0 <= t < succs.len() && live_in.contains_key(#[trigger] succs[t]) && live_in[succs[t]].contains(v),
    decreases succs.len(),
{
    if succs.len() > 0 {
        let d = succs.drop_last();
        if flow_from(live_in, d).contains(v) {
            lemma_flow_member(live_in, d, v);
            let t = choose|t: int| 0 <= t < d.len() && live_in.contains_key(#[trigger] d[t]) && live_in[d[t]].contains(v);
            assert(succs[t] == d[t]);
        } else {
            assert(succs[succs.len() - 1] == succs.last());
        }
    }
}

/// In every solution, a vreg that is live along a path from a block is in
/// the block's live-in set.
proof fn lemma_path_in_solution(
    blocks: Seq<LivenessBlock>,
    live_in: Map<usize, Set<VReg>>,
    live_out: Map<usize, Set<VReg>>,
    v: VReg,
    p: Seq<int>,
)
    requires
        solves(blocks, live_in, live_out),
        live_along(blocks, v, p),
    ensures
        live_in[blocks[p[0]].id].contains(v),
    decreases p.len(),
{
    let b = blocks[p[0]];
    assert(0 <= p[0] < blocks.len());
    assert(live_in[b.id] == b.uses@ + live_out[b.id].difference(b.defs@));
    if p.len() > 1 {
        let q = p.drop_first();
        assert forall|t: int| 0 <= t < q.len() implies 0 <= #[trigger] q[t] < blocks.len() by {
            assert(q[t] == p[t + 1]);
        }
        assert forall|t: int| 0 <= t < q.len() - 1 implies blocks[#[trigger] q[t]].successors@.contains(
            blocks[q[t + 1]].id,
        ) by {
            assert(q[t] == p[t + 1] && q[t + 1] == p[t + 2]);
        }
        assert forall|t: int| 0 <= t < q.len() - 1 implies !blocks[#[trigger] q[t]].defs@.contains(v) by {
            assert(q[t] == p[t + 1]);
        }
        assert(q.last() == p.last());
        lemma_path_in_solution(blocks, live_in, live_out, v, q);
        assert(b.successors@.contains(blocks[p[1]].id));
        let t = choose|t: int| 0 <= t < b.successors@.len() && b.successors@[t] == blocks[p[1]].id;
        assert(0 <= p[1] < blocks.len());
        lemma_flow_includes(live_in, b.successors@, t);
        assert(!b.defs@.contains(v));
    } else {
        assert(p.last() == p[0]);
    }
}

/// The position of the block with identifier `k`.
spec fn position_of(blocks: Seq<LivenessBlock>, k: usize) -> int {
    choose|j: int| 0 <= j < blocks.len() && #[trigger] blocks[j].id == k
}

/// The sets of vregs live along paths, as a candidate solution.
spec fn path_live_in(blocks: Seq<LivenessBlock>) -> Map<usize, Set<VReg>> {
    Map::new(
        |k: usize| ids_of(blocks).to_set().contains(k),
        |k: usize| Set::new(|v: VReg| live_at(blocks, v, position_of(blocks, k))),
    )
}

/// The flows of the path sets.
spec fn path_live_out(blocks: Seq<LivenessBlock>) -> Map<usize, Set<VReg>> {
    Map::new(
        |k: usize| ids_of(blocks).to_set().contains(k),
        |k: usize| flow_from(path_live_in(blocks), blocks[position_of(blocks, k)].successors@),
    )
}

/// The path sets solve the dataflow equations.
proof fn lemma_paths_solve(blocks: Seq<LivenessBlock>)
    requires
        ids_distinct(blocks),
    ensures
        solves(blocks, path_live_in(blocks), path_live_out(blocks)),
{
    let xi = path_live_in(blocks);
    let xo = path_live_out(blocks);
    assert forall|i: int|
        #![trigger blocks[i]]
        0 <= i < blocks.len() implies {
            &&& xi.contains_key(blocks[i].id)
            &&& xo.contains_key(blocks[i].id)
            &&& xo[blocks[i].id] == flow_from(xi, blocks[i].successors@)
            &&& xi[blocks[i].id] == blocks[i].uses@ + xo[blocks[i].id].difference(blocks[i].defs@)
        } by {
        let b = blocks[i];
        assert(ids_of(blocks)[i] == b.id);
        assert(ids_of(blocks).to_set().contains(b.id));
        let j = position_of(blocks, b.id);
        assert(j == i);
        assert forall|v: VReg| xi[b.id].contains(v) <==> (b.uses@ + xo[b.id].difference(b.defs@)).contains(v) by {
            if live_at(blocks, v, i) {
                let p = choose|p: Seq<int>| #[trigger] live_along(blocks, v, p) && p[0] == i;
                if !b.uses@.contains(v) {
                    assert(p.len() > 1) by {
                        if p.len() == 1 {
                            assert(p.last() == p[0]);
                        }
                    }
                    assert(!b.defs@.contains(v)) by {
                        assert(!blocks[p[0]].defs@.contains(v));
                    }
                    let q = p.drop_first();
                    assert forall|t: int| 0 <= t < q.len() implies 0 <= #[trigger] q[t] < blocks.len() by {
                        assert(q[t] == p[t + 1]);
                    }
                    assert forall|t: int| 0 <= t < q.len() - 1 implies blocks[#[trigger] q[t]].successors@.contains(
                        blocks[q[t + 1]].id,
                    ) by {
                        assert(q[t] == p[t + 1] && q[t + 1] == p[t + 2]);
                    }
                    assert forall|t: int| 0 <= t < q.len() - 1 implies !blocks[#[trigger] q[t]].defs@.contains(v) by {
                        assert(q[t] == p[t + 1]);
                    }
                    assert(q.last() == p.last());
                    assert(live_along(blocks, v, q));
                    let n = blocks[p[1]];
                    assert(0 <= p[1] < blocks.len());
                    assert(ids_of(blocks)[p[1]] == n.id);
                    assert(ids_of(blocks).to_set().contains(n.id));
                    let pn = position_of(blocks, n.id);
                    assert(pn == p[1]);
                    assert(live_at(blocks, v, pn));
                    assert(xi[n.id].contains(v));
                    assert(b.successors@.contains(n.id));
                    let t = choose|t: int| 0 <= t < b.successors@.len() && b.successors@[t] == n.id;
                    lemma_flow_includes(xi, b.successors@, t);
                }
            }
            if (b.uses@ + xo[b.id].difference(b.defs@)).contains(v) {
                if b.uses@.contains(v) {
                    let p = seq![i];
                    assert(p.last() == i);
                    assert(live_along(blocks, v, p));
                } else {
                    lemma_flow_member(xi, b.successors@, v);
                    let t = choose|t: int|
                        0 <= t < b.successors@.len() && xi.contains_key(#[trigger] b.successors@[t]) && xi[b.successors@[t]].contains(v);
                    let k = b.successors@[t];
                    let jk = position_of(blocks, k);
                    assert(ids_of(blocks).to_set().contains(k));
                    let w = choose|w: int| 0 <= w < ids_of(blocks).len() && ids_of(blocks)[w] == k;
                    assert(blocks[w].id == k);
                    assert(0 <= jk < blocks.len() && blocks[jk].id == k);
                    assert(live_at(blocks, v, jk));
                    let q = choose|q: Seq<int>| #[trigger] live_along(blocks, v, q) && q[0] == jk;
                    let p = seq![i] + q;
                    assert forall|s: int| 0 <= s < p.len() implies 0 <= #[trigger] p[s] < blocks.len() by {
                        if s > 0 {
                            assert(p[s] == q[s - 1]);
                        }
                    }
                    assert forall|s: int| 0 <= s < p.len() - 1 implies blocks[#[trigger] p[s]].successors@.contains(
                        blocks[p[s + 1]].id,
                    ) by {
                        if s > 0 {
                            assert(p[s] == q[s - 1] && p[s + 1] == q[s]);
                        } else {
                            assert(p[1] == q[0]);
                            assert(b.successors@[t] == k);
                        }
                    }
                    assert forall|s: int| 0 <= s < p.len() - 1 implies !blocks[#[trigger] p[s]].defs@.contains(v) by {
                        if s > 0 {
                            assert(p[s] == q[s - 1]);
                        }
                    }
                    assert(p.last() == q.last());
                    assert(live_along(blocks, v, p));
                }
            }
        }
        assert(xi[b.id] =~= b.uses@ + xo[b.id].difference(b.defs@));
    }
}

/// The least solution's live-in sets are exactly the vregs used at the end
/// of some path from the block without being defined on the way.
pub proof fn lemma_live_in_is_path_liveness(
    blocks: Seq<LivenessBlock>,
    live_in: Map<usize, Set<VReg>>,
    live_out: Map<usize, Set<VReg>>,
    i: int,
    v: VReg,
)
    requires
        ids_distinct(blocks),
        least_solution(blocks, live_in, live_out),
        0 <= i < blocks.len(),
    ensures
        live_in[blocks[i].id].contains(v) <==> live_at(blocks, v, i),
{
    if live_at(blocks, v, i) {
        let p = choose|p: Seq<int>| #[trigger] live_along(blocks, v, p) && p[0] == i;
        lemma_path_in_solution(blocks, live_in, live_out, v, p);
    }
    if live_in[blocks[i].id].contains(v) {
        lemma_paths_solve(blocks);
        assert(below(blocks, live_in, live_out, path_live_in(blocks), path_live_out(blocks)));
        assert(live_in[blocks[i].id].subset_of(path_live_in(blocks)[blocks[i].id]));
        assert(ids_of(blocks)[i] == blocks[i].id);
        assert(ids_of(blocks).to_set().contains(blocks[i].id));
        let j = position_of(blocks, blocks[i].id);
        assert(j == i);
    }
}

/// Every set is contained in what the equations compute from the sets.
spec fn approximates(
    blocks: Seq<LivenessBlock>,
    live_in: Map<usize, Set<VReg>>,
    live_out: Map<usize, Set<VReg>>,
) -> bool {
    forall|i: int|
        #![trigger blocks[i]]
        0 <= i < blocks.len() ==> {
            &&& live_out[blocks[i].id].subset_of(flow_from(live_in, blocks[i].successors@))
            &&& live_in[blocks[i].id].subset_of(
                blocks[i].uses@ + live_out[blocks[i].id].difference(blocks[i].defs@),
            )
        }
}

/// Every vreg used by some block.
spec fn all_uses(blocks: Seq<LivenessBlock>) -> Set<VReg>
    decreases blocks.len(),
{
    if blocks.len() == 0 {
        Set::empty()
    } else {
        all_uses(blocks.drop_last()) + blocks.last().uses@
    }
}

/// The total size of the sets at the blocks' identifiers.
spec fn total_size(m: Map<usize, Set<VReg>>, blocks: Seq<LivenessBlock>) -> nat
    decreases blocks.len(),
{
    if blocks.len() == 0 {
        0
    } else {
        total_size(m, blocks.drop_last()) + m[blocks.last().id].len()
    }
}

/// The view of a hash set is finite.
proof fn lemma_hash_set_finite(s: &HashSet<VReg>)
    ensures
        s@.finite(),
{
    let r = vstd::std_specs::hash::spec_hash_keys_iter(s).remaining();
    assert(r.unref().to_set() == s@);
    vstd::seq_lib::seq_to_set_is_finite(r.unref());
}

/// The vregs used by the blocks form a finite set containing each block's uses.
proof fn lemma_all_uses(blocks: Seq<LivenessBlock>)
    ensures
        all_uses(blocks).finite(),
        forall|i: int| 0 <= i < blocks.len() ==> (#[trigger] blocks[i]).uses@.subset_of(all_uses(blocks)),
    decreases blocks.len(),
{
    if blocks.len() > 0 {
        lemma_all_uses(blocks.drop_last());
        lemma_hash_set_finite(&blocks.last().uses);
        assert forall|i: int| 0 <= i < blocks.len() implies (#[trigger] blocks[i]).uses@.subset_of(
            all_uses(blocks),
        ) by {
            if i < blocks.len() - 1 {
                assert(blocks.drop_last()[i] == blocks[i]);
            }
        }
    }
}

/// The flow is monotone in the live-in sets.
proof fn lemma_flow_mono(a: Map<usize, Set<VReg>>, b: Map<usize, Set<VReg>>, succs: Seq<usize>)
    requires
        forall|k: usize| #[trigger] a.contains_key(k) ==> b.contains_key(k) && a[k].subset_of(b[k]),
    ensures
        flow_from(a, succs).subset_of(flow_from(b, succs)),
    decreases succs.len(),
{
    if succs.len() > 0 {
        lemma_flow_mono(a, b, succs.drop_last());
    }
}

/// The flow stays within a set that contains every live-in set.
proof fn lemma_flow_within(a: Map<usize, Set<VReg>>, succs: Seq<usize>, u: Set<VReg>)
    requires
        forall|k: usize| #[trigger] a.contains_key(k) ==> a[k].subset_of(u),
    ensures
        flow_from(a, succs).subset_of(u),
    decreases succs.len(),
{
    if succs.len() > 0 {
        lemma_flow_within(a, succs.drop_last(), u);
    }
}

/// Distinct identifiers: changing the set at one block's identifier changes
/// the total by the difference of sizes.
proof fn lemma_total_update(m: Map<usize, Set<VReg>>, blocks: Seq<LivenessBlock>, b: int, s: Set<VReg>)
    requires
        ids_distinct(blocks),
        0 <= b < blocks.len(),
    ensures
        total_size(m.insert(blocks[b].id, s), blocks) + m[blocks[b].id].len() == total_size(m, blocks)
            + s.len(),
    decreases blocks.len(),
{
    let m2 = m.insert(blocks[b].id, s);
    let d = blocks.drop_last();
    if b == blocks.len() - 1 {
        lemma_total_frame(m, m2, d);
        assert forall|j: int| 0 <= j < d.len() implies m[(#[trigger] d[j]).id] == m2[d[j].id] by {
            assert(d[j] == blocks[j]);
            assert(blocks[j].id != blocks[b].id);
        }
        lemma_total_frame(m, m2, d);
    } else {
        assert(ids_distinct(d)) by {
            assert forall|i: int, j: int|
                0 <= i < d.len() && 0 <= j < d.len() && i != j implies #[trigger] d[i].id
                    != #[trigger] d[j].id by {
                assert(d[i] == blocks[i] && d[j] == blocks[j]);
            }
        }
        assert(d[b] == blocks[b]);
        lemma_total_update(m, d, b, s);
        assert(blocks.last().id != blocks[b].id);
    }
}

/// The total only depends on the sets at the blocks' identifiers.
proof fn lemma_total_frame(m1: Map<usize, Set<VReg>>, m2: Map<usize, Set<VReg>>, blocks: Seq<LivenessBlock>)
    requires
        forall|j: int| 0 <= j < blocks.len() ==> m1[(#[trigger] blocks[j]).id] == m2[blocks[j].id],
    ensures
        total_size(m1, blocks) == total_size(m2, blocks),
    decreases blocks.len(),
{
    if blocks.len() > 0 {
        let d = blocks.drop_last();
        assert forall|j: int| 0 <= j < d.len() implies m1[(#[trigger] d[j]).id] == m2[d[j].id] by {
            assert(d[j] == blocks[j]);
        }
        lemma_total_frame(m1, m2, d);
        assert(m1[blocks[blocks.len() - 1].id] == m2[blocks[blocks.len() - 1].id]);
    }
}

/// When every set lies within `u`, the total is at most `|blocks| * |u|`.
proof fn lemma_total_bound(m: Map<usize, Set<VReg>>, blocks: Seq<LivenessBlock>, u: Set<VReg>)
    requires
        u.finite(),
        forall|j: int| 0 <= j < blocks.len() ==> m[(#[trigger] blocks[j]).id].subset_of(u),
    ensures
        total_size(m, blocks) <= blocks.len() * u.len(),
    decreases blocks.len(),
{
    if blocks.len() > 0 {
        let d = blocks.drop_last();
        assert forall|j: int| 0 <= j < d.len() implies m[(#[trigger] d[j]).id].subset_of(u) by {
            assert(d[j] == blocks[j]);
        }
        lemma_total_bound(m, d, u);
        vstd::set_lib::lemma_len_subset(m[blocks.last().id], u);
        let n = blocks.len();
        let l = u.len();
        assert((n - 1) * l + l == n * l) by (nonlinear_arith);
    }
}

/// The state of the fixed-point iteration: one set per block, each within
/// `u`, each below what the equations compute from the sets, and all below
/// every solution of the equations.
spec fn iteration_state(
    blocks: Seq<LivenessBlock>,
    u: Set<VReg>,
    live_in: Map<usize, Set<VReg>>,
    live_out: Map<usize, Set<VReg>>,
) -> bool {
    &&& live_in.dom() == ids_of(blocks).to_set()
    &&& live_out.dom() == ids_of(blocks).to_set()
    &&& approximates(blocks, live_in, live_out)
    &&& forall|j: int|
        #![trigger blocks[j]]
        0 <= j < blocks.len() ==> live_in[blocks[j].id].subset_of(u) && live_out[blocks[j].id].subset_of(u)
    &&& forall|x_in: Map<usize, Set<VReg>>, x_out: Map<usize, Set<VReg>>| #[trigger]
        solves(blocks, x_in, x_out) ==> below(blocks, live_in, live_out, x_in, x_out)
}

/// A key of the map is the identifier of some block.
proof fn lemma_key_is_id(blocks: Seq<LivenessBlock>, k: usize)
    requires
        ids_of(blocks).to_set().contains(k),
    ensures
        exists|j: int| 0 <= j < blocks.len() && (#[trigger] blocks[j]).id == k,
{
    let j = choose|j: int| 0 <= j < ids_of(blocks).len() && ids_of(blocks)[j] == k;
    assert(blocks[j].id == k);
}

/// Recomputing the sets of one block keeps the iteration state, and the new
/// sets contain the old ones.
proof fn lemma_iteration_step(
    blocks: Seq<LivenessBlock>,
    u: Set<VReg>,
    live_in: Map<usize, Set<VReg>>,
    live_out: Map<usize, Set<VReg>>,
    b: int,
    new_in: Set<VReg>,
    new_out: Set<VReg>,
)
    requires
        ids_distinct(blocks),
        u == all_uses(blocks),
        iteration_state(blocks, u, live_in, live_out),
        0 <= b < blocks.len(),
        new_out == flow_from(live_in, blocks[b].successors@),
        new_in == blocks[b].uses@ + new_out.difference(blocks[b].defs@),
    ensures
        iteration_state(
            blocks,
            u,
            live_in.insert(blocks[b].id, new_in),
            live_out.insert(blocks[b].id, new_out),
        ),
        live_in[blocks[b].id].subset_of(new_in),
        live_out[blocks[b].id].subset_of(new_out),
        new_in.finite(),
        new_out.finite(),
        new_in.subset_of(u),
        new_out.subset_of(u),
{
    let id = blocks[b].id;
    let in1 = live_in.insert(id, new_in);
    let out1 = live_out.insert(id, new_out);
    lemma_all_uses(blocks);
    assert(ids_of(blocks)[b] == id);
    assert(live_in.contains_key(id));
    assert forall|k: usize| #[trigger] live_in.contains_key(k) implies live_in[k].subset_of(u) by {
        lemma_key_is_id(blocks, k);
        let j = choose|j: int| 0 <= j < blocks.len() && (#[trigger] blocks[j]).id == k;
    }
    lemma_flow_within(live_in, blocks[b].successors@, u);
    vstd::set_lib::lemma_len_subset(new_out, u);
    vstd::set_lib::lemma_len_subset(new_in, u);
    assert(live_in[id].subset_of(new_in));
    assert forall|k: usize| #[trigger] live_in.contains_key(k) implies in1.contains_key(k) && live_in[k].subset_of(in1[k]) by {
    }
    assert forall|j: int|
        #![trigger blocks[j]]
        0 <= j < blocks.len() implies {
            &&& out1[blocks[j].id].subset_of(flow_from(in1, blocks[j].successors@))
            &&& in1[blocks[j].id].subset_of(
                blocks[j].uses@ + out1[blocks[j].id].difference(blocks[j].defs@),
            )
        } by {
        lemma_flow_mono(live_in, in1, blocks[j].successors@);
        if j != b {
            assert(blocks[j].id != id);
        }
    }
    assert(in1.dom() =~= live_in.dom());
    assert(out1.dom() =~= live_out.dom());
    assert forall|x_in: Map<usize, Set<VReg>>, x_out: Map<usize, Set<VReg>>| #[trigger]
        solves(blocks, x_in, x_out) implies below(blocks, in1, out1, x_in, x_out) by {
        assert(below(blocks, live_in, live_out, x_in, x_out));
        assert forall|k: usize| #[trigger] live_in.contains_key(k) implies x_in.contains_key(k)
            && live_in[k].subset_of(x_in[k]) by {
            lemma_key_is_id(blocks, k);
            let j = choose|j: int| 0 <= j < blocks.len() && (#[trigger] blocks[j]).id == k;
        }
        lemma_flow_mono(live_in, x_in, blocks[b].successors@);
        assert forall|j: int|
            #![trigger blocks[j]]
            0 <= j < blocks.len() implies in1[blocks[j].id].subset_of(x_in[blocks[j].id])
                && out1[blocks[j].id].subset_of(x_out[blocks[j].id]) by {
            if j != b {
                assert(blocks[j].id != id);
            }
        }
    }
}

/// Computes the new live-out and live-in sets of `block` from the current
/// live-in sets.
fn block_transfer(block: &LivenessBlock, live_in: &HashMap<usize, HashSet<VReg>>) -> (r: (
    HashSet<VReg>,
    HashSet<VReg>,
))
    ensures
        r.1@ == flow_from(set_view(live_in@), block.successors@),
        r.0@ == block.uses@ + r.1@.difference(block.defs@),
{
    let mut new_out: HashSet<VReg> = HashSet::new();
    let mut s: usize = 0;
    proof {
        assert(block.successors@.take(0) =~= Seq::<usize>::empty());
    }
    while s < block.successors.len()
        invariant
            s <= block.successors.len(),
            new_out@ == flow_from(set_view(live_in@), block.successors@.take(s as int)),
        decreases block.successors.len() - s,
    {
        let succ = block.successors[s];
        let ghost before = new_out@;
        match live_in.get(&succ) {
            Some(succ_in) => {
                union_into(&mut new_out, succ_in);
            },
            None => {},
        }
        proof {
            let t = block.successors@.take(s + 1);
            assert(t.drop_last() == block.successors@.take(s as int));
            assert(t.last() == succ);
            assert(new_out@ =~= flow_from(set_view(live_in@), t));
        }
        s = s + 1;
    }
    proof {
        assert(block.successors@.take(block.successors@.len() as int) == block.successors@);
    }
    let mut new_in = copy_set(&block.uses);
    union_difference_into(&mut new_in, &new_out, &block.defs);
    (new_in, new_out)
}

/// Size of the set stored at `k` (0 when absent).
fn size_at(m: &HashMap<usize, HashSet<VReg>>, k: usize) -> (n: usize)
    ensures
        m@.contains_key(k) ==> n == m@[k]@.len(),
{
    match m.get(&k) {
        Some(s) => s.len(),
        None => 0,
    }
}

/// Iterates the dataflow equations backwards over the blocks until nothing
/// changes, starting from empty sets.
fn compute_liveness(blocks: &[LivenessBlock]) -> (r: (
    HashMap<usize, HashSet<VReg>>,
    HashMap<usize, HashSet<VReg>>,
))
    requires
        ids_distinct(blocks@),
    ensures
        least_solution(blocks@, set_view(r.0@), set_view(r.1@)),
{
    let ghost bl = blocks@;
    let mut live_in: HashMap<usize, HashSet<VReg>> = HashMap::new();
    let mut live_out: HashMap<usize, HashSet<VReg>> = HashMap::new();
    let mut i: usize = 0;
    while i < blocks.len()
        invariant
            i <= blocks.len(),
            bl == blocks@,
            live_in@.dom() == ids_of(bl.take(i as int)).to_set(),
            live_out@.dom() == ids_of(bl.take(i as int)).to_set(),
            forall|k: usize| #[trigger] live_in@.contains_key(k) ==> live_in@[k]@ == Set::<VReg>::empty(),
            forall|k: usize| #[trigger] live_out@.contains_key(k) ==> live_out@[k]@ == Set::<VReg>::empty(),
        decreases blocks.len() - i,
    {
        live_in.insert(blocks[i].id, HashSet::new());
        live_out.insert(blocks[i].id, HashSet::new());
        proof {
            assert(ids_of(bl.take(i + 1)) == ids_of(bl.take(i as int)).push(bl[i as int].id));
            lemma_push_to_set(ids_of(bl.take(i as int)), bl[i as int].id);
        }
        i = i + 1;
    }
    let ghost u = all_uses(bl);
    let ghost bound = 2 * bl.len() * u.len();
    proof {
        assert(bl.take(bl.len() as int) == bl);
        lemma_all_uses(bl);
        let li = set_view(live_in@);
        let lo = set_view(live_out@);
        assert forall|j: int| #![trigger bl[j]] 0 <= j < bl.len() implies li[bl[j].id] == Set::<VReg>::empty()
            && lo[bl[j].id] == Set::<VReg>::empty() by {
            assert(ids_of(bl)[j] == bl[j].id);
            assert(ids_of(bl).to_set().contains(bl[j].id));
        }
        assert(li.dom() == ids_of(bl).to_set());
        assert(lo.dom() == ids_of(bl).to_set());
        assert(approximates(bl, li, lo));
        assert forall|x_in: Map<usize, Set<VReg>>, x_out: Map<usize, Set<VReg>>| #[trigger]
            solves(bl, x_in, x_out) implies below(bl, li, lo, x_in, x_out) by {
        }
        assert(iteration_state(bl, u, li, lo));
    }
    let mut changed = true;
    while changed
        invariant
            bl == blocks@,
            ids_distinct(bl),
            u == all_uses(bl),
            u.finite(),
            bound == 2 * bl.len() * u.len(),
            iteration_state(bl, u, set_view(live_in@), set_view(live_out@)),
            !changed ==> solves(bl, set_view(live_in@), set_view(live_out@)),
        decreases bound - total_size(set_view(live_in@), bl) - total_size(set_view(live_out@), bl)
            + (if changed {
            1int
        } else {
            0int
        }),
    {
        changed = false;
        let ghost p0 = total_size(set_view(live_in@), bl) + total_size(set_view(live_out@), bl);
        let mut b: usize = blocks.len();
        while b > 0
            invariant
                b <= blocks.len(),
                bl == blocks@,
                ids_distinct(bl),
                u == all_uses(bl),
                u.finite(),
                iteration_state(bl, u, set_view(live_in@), set_view(live_out@)),
                total_size(set_view(live_in@), bl) + total_size(set_view(live_out@), bl) >= p0,
                changed ==> total_size(set_view(live_in@), bl) + total_size(set_view(live_out@), bl)
                    > p0,
                !changed ==> forall|j: int|
                    #![trigger bl[j]]
                    b <= j < bl.len() ==> {
                        &&& set_view(live_out@)[bl[j].id] == flow_from(
                            set_view(live_in@),
                            bl[j].successors@,
                        )
                        &&& set_view(live_in@)[bl[j].id] == bl[j].uses@ + set_view(
                            live_out@,
                        )[bl[j].id].difference(bl[j].defs@)
                    },
            decreases b,
        {
            b = b - 1;
            let block = &blocks[b];
            let id = block.id;
            let ghost in0 = set_view(live_in@);
            let ghost out0 = set_view(live_out@);
            let ghost changed0 = changed;
            let (new_in, new_out) = block_transfer(block, &live_in);
            let ghost ni = new_in@;
            let ghost no = new_out@;
            proof {
                lemma_iteration_step(bl, u, in0, out0, b as int, ni, no);
                assert(ids_of(bl)[b as int] == id);
                assert(ids_of(bl).to_set().contains(id));
                vstd::set_lib::lemma_len_subset(in0[id], ni);
                vstd::set_lib::lemma_len_subset(out0[id], no);
            }
            let in_len = size_at(&live_in, id);
            if in_len != new_in.len() {
                live_in.insert(id, new_in);
                changed = true;
            }
            let out_len = size_at(&live_out, id);
            if out_len != new_out.len() {
                live_out.insert(id, new_out);
                changed = true;
            }
            proof {
                let in1 = in0.insert(id, ni);
                let out1 = out0.insert(id, no);
                if in_len == ni.len() {
                    vstd::set_lib::lemma_subset_equality(in0[id], ni);
                    assert(set_view(live_in@) =~= in1);
                } else {
                    assert(set_view(live_in@) =~= in1);
                }
                if out_len == no.len() {
                    vstd::set_lib::lemma_subset_equality(out0[id], no);
                    assert(set_view(live_out@) =~= out1);
                } else {
                    assert(set_view(live_out@) =~= out1);
                }
                lemma_total_update(in0, bl, b as int, ni);
                lemma_total_update(out0, bl, b as int, no);
                if !changed {
                    assert(in1 == in0);
                    assert(out1 == out0);
                    assert forall|j: int|
                        #![trigger bl[j]]
                        b <= j < bl.len() implies {
                            &&& out1[bl[j].id] == flow_from(in1, bl[j].successors@)
                            &&& in1[bl[j].id] == bl[j].uses@ + out1[bl[j].id].difference(bl[j].defs@)
                        } by {
                    }
                }
            }
        }
        proof {
            let li = set_view(live_in@);
            let lo = set_view(live_out@);
            lemma_total_bound(li, bl, u);
            lemma_total_bound(lo, bl, u);
            assert(bl.len() * u.len() + bl.len() * u.len() == bound) by (nonlinear_arith)
                requires
                    bound == 2 * bl.len() * u.len(),
            ;
            if !changed {
                assert forall|j: int| #![trigger bl[j]] 0 <= j < bl.len() implies li.contains_key(bl[j].id)
                    && lo.contains_key(bl[j].id) by {
                    assert(ids_of(bl)[j] == bl[j].id);
                }
            }
        }
    }
    (live_in, live_out)
}

/// Computes the live range of every vreg: from the smallest to the largest
/// identifier of a block that uses or defines it.
fn compute_ranges(blocks: &[LivenessBlock]) -> (ranges: HashMap<VReg, LiveRange>)
    ensures
        ranges_cover(ranges@, occurrences(blocks@)),
{
    let mut ranges: HashMap<VReg, LiveRange> = HashMap::new();
    let ghost mut occ: Set<(VReg, usize)> = Set::empty();
    let mut i: usize = 0;
    while i < blocks.len()
        invariant
            i <= blocks.len(),
            ranges_cover(ranges@, occ),
            occ.subset_of(occurrences(blocks@)),
            occurrences(blocks@.take(i as int)).subset_of(occ),
        decreases blocks.len() - i,
    {
        let block = &blocks[i];
        let id = block.id;
        let ghost keys_u = block.uses.iter().remaining().unref();
        for v in it: block.uses.iter()
            invariant
                it.seq().unref() == keys_u,
                keys_u.to_set() == block.uses@,
                *block == blocks@[i as int],
                id == block.id,
                i < blocks.len(),
                ranges_cover(ranges@, occ),
                occ.subset_of(occurrences(blocks@)),
                occurrences(blocks@.take(i as int)).subset_of(occ),
                forall|t: int| 0 <= t < it.index() ==> occ.contains((#[trigger] keys_u[t], id)),
        {
            proof {
                assert(keys_u.contains(keys_u[it.index()]));
                let q = (*v, id);
                assert(mentions(blocks@[i as int], q.0));
                assert(blocks@[i as int].id == q.1);
                assert(occurrences(blocks@).contains(q));
            }
            note_occurrence(&mut ranges, *v, id, Ghost(occ));
            proof {
                occ = occ.insert((*v, id));
            }
        }
        let ghost keys_d = block.defs.iter().remaining().unref();
        for v in it: block.defs.iter()
            invariant
                it.seq().unref() == keys_d,
                keys_d.to_set() == block.defs@,
                keys_u.to_set() == block.uses@,
                *block == blocks@[i as int],
                id == block.id,
                i < blocks.len(),
                ranges_cover(ranges@, occ),
                occ.subset_of(occurrences(blocks@)),
                occurrences(blocks@.take(i as int)).subset_of(occ),
                forall|t: int| 0 <= t < keys_u.len() ==> occ.contains((#[trigger] keys_u[t], id)),
                forall|t: int| 0 <= t < it.index() ==> occ.contains((#[trigger] keys_d[t], id)),
        {
            proof {
                assert(keys_d.contains(keys_d[it.index()]));
                let q = (*v, id);
                assert(mentions(blocks@[i as int], q.0));
                assert(blocks@[i as int].id == q.1);
                assert(occurrences(blocks@).contains(q));
            }
            note_occurrence(&mut ranges, *v, id, Ghost(occ));
            proof {
                occ = occ.insert((*v, id));
            }
        }
        proof {
            assert forall|q: (VReg, usize)| #[trigger]
                occurrences(blocks@.take(i + 1)).contains(q) implies occ.contains(q) by {
                let j = choose|j: int|
                    0 <= j < i + 1 && blocks@.take(i + 1)[j].id == q.1 && #[trigger] mentions(
                        blocks@.take(i + 1)[j],
                        q.0,
                    );
                if j < i {
                    assert(blocks@.take(i as int)[j] == blocks@.take(i + 1)[j]);
                    assert(occurrences(blocks@.take(i as int)).contains(q));
                } else {
                    if block.uses@.contains(q.0) {
                        let t = choose|t: int| 0 <= t < keys_u.len() && keys_u[t] == q.0;
                        assert(occ.contains((keys_u[t], id)));
                    } else {
                        let t = choose|t: int| 0 <= t < keys_d.len() && keys_d[t] == q.0;
                        assert(occ.contains((keys_d[t], id)));
                    }
                }
            }
        }
        i = i + 1;
    }
    proof {
        assert(blocks@.take(blocks@.len() as int) == blocks@);
        assert(occ =~= occurrences(blocks@));
    }
    ranges
}

impl LivenessAnalysis {
    /// Run liveness analysis on a sequence of blocks.
    ///
    /// The live-in and live-out sets are the least solution of the backward
    /// dataflow equations, with one entry per block identifier; the range of
    /// each vreg spans the identifiers of the blocks that use or define it.
    /// Block identifiers must be distinct: the fixed-point iteration would
    /// not terminate otherwise.
    pub fn analyze(blocks: &[LivenessBlock]) -> (r: Self)
        requires
            ids_distinct(blocks@),
        ensures
            least_solution(blocks@, set_view(r.live_in@), set_view(r.live_out@)),
            ranges_cover(r.ranges@, occurrences(blocks@)),
            forall|v: VReg| #[trigger]
                r.ranges@.contains_key(v) ==> r.ranges@[v].start <= r.ranges@[v].end,
    {
        let (live_in, live_out) = compute_liveness(blocks);
        let ranges = compute_ranges(blocks);
        proof {
            assert forall|v: VReg| #[trigger]
                ranges@.contains_key(v) implies ranges@[v].start <= ranges@[v].end by {
                lemma_covering_ranges_well_formed(ranges@, occurrences(blocks@), v);
            }
        }
        LivenessAnalysis { live_in, live_out, ranges }
    }

    /// Check if two virtual registers have overlapping live ranges.
    pub fn interferes(&self, a: VReg, b: VReg) -> (r: bool)
        ensures
            r == (self.ranges@.contains_key(a) && self.ranges@.contains_key(b) && ranges_overlap(
                self.ranges@[a],
                self.ranges@[b],
            )),
            self.ranges@.contains_key(a) && self.ranges@.contains_key(b) && self.ranges@[a].start
                <= self.ranges@[a].end && self.ranges@[b].start <= self.ranges@[b].end ==> (r
                == exists|p: int| #[trigger] covers(self.ranges@[a], p) && covers(self.ranges@[b], p)),
    {
        proof {
            if self.ranges@.contains_key(a) && self.ranges@.contains_key(b) && self.ranges@[a].start
                <= self.ranges@[a].end && self.ranges@[b].start <= self.ranges@[b].end {
                lemma_overlap_iff_common_point(self.ranges@[a], self.ranges@[b]);
            }
        }
        match (self.ranges.get(&a), self.ranges.get(&b)) {
            (Some(ra), Some(rb)) => ra.overlaps(rb),
            _ => false,
        }
    }

    /// Get the live range for a virtual register.
    pub fn range(&self, vreg: VReg) -> (r: Option<&LiveRange>)
        ensures
            r == (if self.ranges@.contains_key(vreg) {
                Some(&self.ranges@[vreg])
            } else {
                None
            }),
    {
        self.ranges.get(&vreg)
    }
}

} // verus!

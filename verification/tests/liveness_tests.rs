use reg_alloc::liveness::{LiveRange, LivenessAnalysis, LivenessBlock};
use std::collections::HashSet;

#[test]
fn test_live_range_overlap() {
    let a = LiveRange::new(0, 5);
    let b = LiveRange::new(3, 8);
    assert!(a.overlaps(&b));
}

#[test]
fn test_live_range_no_overlap() {
    let a = LiveRange::new(0, 3);
    let b = LiveRange::new(4, 8);
    assert!(!a.overlaps(&b));
}

#[test]
fn test_live_range_contains() {
    let r = LiveRange::new(2, 6);
    assert!(r.contains(4));
    assert!(!r.contains(7));
}

#[test]
fn test_live_range_merge() {
    let a = LiveRange::new(0, 3);
    let b = LiveRange::new(5, 8);
    let merged = a.merge(&b);
    assert_eq!(merged.start, 0);
    assert_eq!(merged.end, 8);
}

#[test]
fn test_liveness_simple() {
    let blocks = vec![
        LivenessBlock {
            id: 0,
            defs: [1u32].into_iter().collect(),
            uses: [].into_iter().collect(),
            successors: vec![1],
        },
        LivenessBlock {
            id: 1,
            defs: [].into_iter().collect(),
            uses: [1u32].into_iter().collect(),
            successors: vec![],
        },
    ];
    let analysis = LivenessAnalysis::analyze(&blocks);
    // vreg 1 should be live-in to block 1 (used there, defined in block 0)
    assert!(analysis.live_in[&1].contains(&1));
}

#[test]
fn test_interference() {
    let blocks = vec![
        LivenessBlock {
            id: 0,
            defs: [1u32, 2u32].into_iter().collect(),
            uses: [].into_iter().collect(),
            successors: vec![1],
        },
        LivenessBlock {
            id: 1,
            defs: [].into_iter().collect(),
            uses: [1u32, 2u32].into_iter().collect(),
            successors: vec![],
        },
    ];
    let analysis = LivenessAnalysis::analyze(&blocks);
    assert!(analysis.interferes(1, 2));
}

#[test]
fn test_no_interference() {
    let blocks = vec![
        LivenessBlock {
            id: 0,
            defs: [1u32].into_iter().collect(),
            uses: [].into_iter().collect(),
            successors: vec![1],
        },
        LivenessBlock {
            id: 1,
            defs: [2u32].into_iter().collect(),
            uses: [1u32].into_iter().collect(),
            successors: vec![2],
        },
        LivenessBlock {
            id: 2,
            defs: [].into_iter().collect(),
            uses: [2u32].into_iter().collect(),
            successors: vec![],
        },
    ];
    let analysis = LivenessAnalysis::analyze(&blocks);
    // vreg1 live in 0-1, vreg2 live in 1-2 - they overlap at block 1
    assert!(analysis.interferes(1, 2));
}

// Further cases.

fn set(v: &[u32]) -> HashSet<u32> {
    v.iter().copied().collect()
}

fn block(id: usize, defs: &[u32], uses: &[u32], successors: Vec<usize>) -> LivenessBlock {
    LivenessBlock { id, defs: set(defs), uses: set(uses), successors }
}

#[test]
fn live_range_length_point_and_emptiness() {
    assert_eq!(LiveRange::new(2, 6).len(), 5);
    assert_eq!(LiveRange::new(4, 4).len(), 1);
    // A range whose end lies before its start still counts one point.
    assert_eq!(LiveRange::new(6, 2).len(), 1);
    assert!(LiveRange::new(4, 4).is_point());
    assert!(!LiveRange::new(4, 5).is_point());
    assert!(!LiveRange::new(4, 5).is_empty());
    assert!(LiveRange::new(4, 4).is_empty());
    assert!(LiveRange::new(6, 2).is_empty());
    assert!(LiveRange::new(2, 6).contains(2));
    assert!(LiveRange::new(2, 6).contains(6));
    assert!(!LiveRange::new(2, 6).contains(1));
}

#[test]
fn overlap_is_symmetric_and_touching_ranges_overlap() {
    let a = LiveRange::new(0, 3);
    let b = LiveRange::new(3, 8);
    assert!(a.overlaps(&b));
    assert!(b.overlaps(&a));
    let c = LiveRange::new(9, 9);
    assert!(!b.overlaps(&c));
    assert!(!c.overlaps(&b));
}

#[test]
fn merge_is_commutative_and_covers_both() {
    let a = LiveRange::new(4, 6);
    let b = LiveRange::new(1, 5);
    let m1 = a.merge(&b);
    let m2 = b.merge(&a);
    assert_eq!(m1, m2);
    assert_eq!(m1, LiveRange::new(1, 6));
    for p in 1..=6 {
        assert!(m1.contains(p));
    }
}

#[test]
fn live_sets_of_a_straight_line() {
    // 0: def 1 -> 1: def 2, use 1 -> 2: use 2
    let blocks = vec![
        block(0, &[1], &[], vec![1]),
        block(1, &[2], &[1], vec![2]),
        block(2, &[], &[2], vec![]),
    ];
    let a = LivenessAnalysis::analyze(&blocks);
    assert_eq!(a.live_in[&0], set(&[]));
    assert_eq!(a.live_out[&0], set(&[1]));
    assert_eq!(a.live_in[&1], set(&[1]));
    assert_eq!(a.live_out[&1], set(&[2]));
    assert_eq!(a.live_in[&2], set(&[2]));
    assert_eq!(a.live_out[&2], set(&[]));
    assert_eq!(a.live_in.len(), 3);
    assert_eq!(a.live_out.len(), 3);
}

#[test]
fn live_sets_around_a_loop() {
    // 0 -> 1 -> 2 -> 1, 2 -> 3; vreg 5 is used in 1 and redefined in 2,
    // vreg 7 is used after the loop.
    let blocks = vec![
        block(0, &[5, 7], &[], vec![1]),
        block(1, &[], &[5], vec![2]),
        block(2, &[5], &[], vec![1, 3]),
        block(3, &[], &[7], vec![]),
    ];
    let a = LivenessAnalysis::analyze(&blocks);
    assert_eq!(a.live_out[&0], set(&[5, 7]));
    assert_eq!(a.live_in[&1], set(&[5, 7]));
    assert_eq!(a.live_out[&1], set(&[7]));
    assert_eq!(a.live_in[&2], set(&[7]));
    assert_eq!(a.live_out[&2], set(&[5, 7]));
    assert_eq!(a.live_in[&3], set(&[7]));
}

#[test]
fn successors_that_are_not_blocks_contribute_nothing() {
    let blocks = vec![block(0, &[], &[3], vec![42])];
    let a = LivenessAnalysis::analyze(&blocks);
    assert_eq!(a.live_in[&0], set(&[3]));
    assert_eq!(a.live_out[&0], set(&[]));
}

#[test]
fn ranges_span_first_to_last_mention() {
    let blocks = vec![
        block(4, &[1], &[], vec![]),
        block(9, &[], &[1, 2], vec![]),
        block(6, &[2], &[], vec![]),
    ];
    let a = LivenessAnalysis::analyze(&blocks);
    assert_eq!(a.range(1), Some(&LiveRange::new(4, 9)));
    assert_eq!(a.range(2), Some(&LiveRange::new(6, 9)));
    assert_eq!(a.range(3), None);
    assert_eq!(a.ranges.len(), 2);
    assert!(!a.interferes(1, 3));
}

#[test]
fn analysis_of_no_blocks_is_empty() {
    let a = LivenessAnalysis::analyze(&[]);
    assert!(a.live_in.is_empty());
    assert!(a.live_out.is_empty());
    assert!(a.ranges.is_empty());
}

#[test]
fn block_clone_keeps_contents() {
    let b = block(3, &[1, 2], &[4], vec![5, 6]);
    let c = b.clone();
    assert_eq!(c.id, 3);
    assert_eq!(c.defs, set(&[1, 2]));
    assert_eq!(c.uses, set(&[4]));
    assert_eq!(c.successors, vec![5, 6]);
}

#[test]
fn analysis_does_not_depend_on_block_order() {
    let make = || {
        vec![
            block(0, &[5, 7], &[], vec![1]),
            block(1, &[], &[5], vec![2]),
            block(2, &[5], &[], vec![1, 3]),
            block(3, &[], &[7], vec![]),
        ]
    };
    let a = LivenessAnalysis::analyze(&make());
    let mut reordered = make();
    reordered.reverse();
    reordered.swap(0, 2);
    let b = LivenessAnalysis::analyze(&reordered);
    assert_eq!(a.live_in, b.live_in);
    assert_eq!(a.live_out, b.live_out);
    assert_eq!(a.ranges, b.ranges);
}

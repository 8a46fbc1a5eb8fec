use reg_alloc::register::{Register, RegisterClass};
use reg_alloc::spill::{SpillInstruction, SpillManager, SpillSlot};

#[test]
fn test_allocate_slot() {
    let mut sm = SpillManager::new(8);
    let slot = sm.allocate_slot(1);
    assert_eq!(slot.offset, 0);
    let slot2 = sm.allocate_slot(2);
    assert_eq!(slot2.offset, 8);
}

#[test]
fn test_reuse_slot() {
    let mut sm = SpillManager::new(8);
    let s1 = sm.allocate_slot(1);
    let s2 = sm.allocate_slot(1);
    assert_eq!(s1, s2);
}

#[test]
fn test_frame_size() {
    let mut sm = SpillManager::new(8);
    sm.allocate_slot(1);
    sm.allocate_slot(2);
    assert_eq!(sm.frame_size(), 16);
}

#[test]
fn test_emit_store_load() {
    let mut sm = SpillManager::new(8);
    let reg = Register::new(0, RegisterClass::Integer);
    let slot = SpillSlot::new(0);
    sm.emit_store(reg, slot);
    sm.emit_load(slot, reg);
    assert_eq!(sm.instruction_count(), 2);
}

#[test]
fn test_spill_vregs() {
    let mut sm = SpillManager::new(4);
    sm.spill_vregs(&[1, 2, 3]);
    assert_eq!(sm.slot_count(), 3);
    assert_eq!(sm.instruction_count(), 6); // store + load for each
}

#[test]
fn test_clear_instructions() {
    let mut sm = SpillManager::new(8);
    sm.emit_store(Register::new(0, RegisterClass::Integer), SpillSlot::new(0));
    sm.clear_instructions();
    assert_eq!(sm.instruction_count(), 0);
    // Slots preserved
    sm.allocate_slot(1);
    assert_eq!(sm.slot_count(), 1);
}

#[test]
fn test_get_slot() {
    let mut sm = SpillManager::new(8);
    sm.allocate_slot(5);
    assert!(sm.get_slot(5).is_some());
    assert!(sm.get_slot(99).is_none());
}

// Further cases.

#[test]
fn spill_vregs_emits_store_then_load_in_order() {
    let mut sm = SpillManager::new(4);
    sm.allocate_slot(2);
    sm.spill_vregs(&[1, 2, 1]);
    assert_eq!(sm.slot_count(), 2);
    assert_eq!(sm.frame_size(), 8);
    let s1 = SpillSlot::new(4);
    let s2 = SpillSlot::new(0);
    assert_eq!(sm.get_slot(1), Some(s1));
    assert_eq!(sm.get_slot(2), Some(s2));
    let expected = vec![
        SpillInstruction::VStore { vreg: 1, slot: s1 },
        SpillInstruction::VLoad { slot: s1, vreg: 1 },
        SpillInstruction::VStore { vreg: 2, slot: s2 },
        SpillInstruction::VLoad { slot: s2, vreg: 2 },
        SpillInstruction::VStore { vreg: 1, slot: s1 },
        SpillInstruction::VLoad { slot: s1, vreg: 1 },
    ];
    assert_eq!(sm.instructions(), &expected[..]);
}

#[test]
fn emitted_instructions_are_recorded_verbatim() {
    let mut sm = SpillManager::new(16);
    let r = Register::float(2);
    let slot = sm.allocate_slot(7);
    sm.emit_store(r, slot);
    sm.emit_load(slot, r);
    sm.emit_vstore(7, slot);
    sm.emit_vload(slot, 7);
    assert_eq!(
        sm.instructions(),
        &[
            SpillInstruction::Store { reg: r, slot },
            SpillInstruction::Load { slot, reg: r },
            SpillInstruction::VStore { vreg: 7, slot },
            SpillInstruction::VLoad { slot, vreg: 7 },
        ][..]
    );
    assert_eq!(sm.slot_count(), 1);
}

#[test]
fn slots_are_disjoint_and_inside_the_frame() {
    let mut sm = SpillManager::new(8);
    let vregs = [10u32, 20, 30, 40];
    sm.spill_vregs(&vregs);
    let frame = sm.frame_size();
    assert_eq!(frame, 32);
    let offsets: Vec<usize> = vregs.iter().map(|v| sm.get_slot(*v).unwrap().offset).collect();
    assert_eq!(offsets, vec![0, 8, 16, 24]);
    for o in &offsets {
        assert!(o + 8 <= frame);
    }
}

#[test]
fn zero_sized_slots_share_offset_zero() {
    let mut sm = SpillManager::new(0);
    assert_eq!(sm.allocate_slot(1).offset, 0);
    assert_eq!(sm.allocate_slot(2).offset, 0);
    assert_eq!(sm.slot_count(), 2);
    assert_eq!(sm.frame_size(), 0);
}

#[test]
fn fresh_manager_is_empty() {
    let sm = SpillManager::new(8);
    assert_eq!(sm.slot_count(), 0);
    assert_eq!(sm.frame_size(), 0);
    assert_eq!(sm.instruction_count(), 0);
    assert!(sm.instructions().is_empty());
    assert_eq!(sm.get_slot(1), None);
}

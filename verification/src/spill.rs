//! Spill code generation and management.

use vstd::prelude::*;
use std::collections::HashMap;
use crate::liveness::VReg;
use crate::register::Register;

verus! {

/// A spill slot in the stack frame.
#[derive(Clone, Copy, Debug, PartialEq, Eq, Hash, Structural)]
pub struct SpillSlot {
    /// Byte offset from the frame pointer.
    pub offset: usize,
}

impl SpillSlot {
    /// Create a new spill slot at the given offset.
    pub fn new(offset: usize) -> (s: Self)
        ensures
            s.offset == offset,
    {
        SpillSlot { offset }
    }
}

/// Represents a spill instruction.
#[derive(Clone, Debug, PartialEq, Eq, Structural)]
pub enum SpillInstruction {
    /// Store a register to a spill slot.
    Store { reg: Register, slot: SpillSlot },
    /// Load from a spill slot into a register.
    Load { slot: SpillSlot, reg: Register },
    /// Store a virtual register's value (pre-allocation).
    VStore { vreg: VReg, slot: SpillSlot },
    /// Load a virtual register's value (pre-allocation).
    VLoad { slot: SpillSlot, vreg: VReg },
}

/// The slots and slot count after giving each vreg of `vs`, in order, a slot:
/// a vreg that already has one keeps it, and each other vreg gets the next
/// slot, at offset `count * size`.
pub open spec fn spill_state(
    slots: Map<VReg, SpillSlot>,
    count: nat,
    size: nat,
    vs: Seq<VReg>,
) -> (Map<VReg, SpillSlot>, nat)
    decreases vs.len(),
{
    if vs.len() == 0 {
        (slots, count)
    } else {
        let (m, c) = spill_state(slots, count, size, vs.drop_last());
        let v = vs.last();
        if m.contains_key(v) {
            (m, c)
        } else {
            (m.insert(v, SpillSlot { offset: (c * size) as usize }), c + 1)
        }
    }
}

/// A store and a load of each vreg of `vs`, in order, through its slot in
/// `slots`.
pub open spec fn spill_code(vs: Seq<VReg>, slots: Map<VReg, SpillSlot>) -> Seq<SpillInstruction>
    decreases vs.len(),
{
    if vs.len() == 0 {
        Seq::empty()
    } else {
        let v = vs.last();
        spill_code(vs.drop_last(), slots) + seq![
            SpillInstruction::VStore { vreg: v, slot: slots[v] },
            SpillInstruction::VLoad { slot: slots[v], vreg: v },
        ]
    }
}

/// Spilling a list of vregs produces two instructions per vreg.
pub proof fn lemma_spill_code_len(vs: Seq<VReg>, slots: Map<VReg, SpillSlot>)
    ensures
        spill_code(vs, slots).len() == 2 * vs.len(),
    decreases vs.len(),
{
    if vs.len() > 0 {
        lemma_spill_code_len(vs.drop_last(), slots);
    }
}

/// Giving slots keeps the existing ones, gives every listed vreg a slot and
/// never lowers the count.
proof fn lemma_spill_state_grows(slots: Map<VReg, SpillSlot>, count: nat, size: nat, vs: Seq<VReg>)
    ensures
        forall|v: VReg| #[trigger]
            slots.contains_key(v) ==> spill_state(slots, count, size, vs).0.contains_key(v)
                && spill_state(slots, count, size, vs).0[v] == slots[v],
        forall|t: int|
            0 <= t < vs.len() ==> spill_state(slots, count, size, vs).0.contains_key(#[trigger] vs[t]),
        spill_state(slots, count, size, vs).1 >= count,
    decreases vs.len(),
{
    if vs.len() > 0 {
        let d = vs.drop_last();
        lemma_spill_state_grows(slots, count, size, d);
        assert forall|t: int| 0 <= t < vs.len() implies spill_state(slots, count, size, vs).0.contains_key(
            #[trigger] vs[t],
        ) by {
            if t < vs.len() - 1 {
                assert(d[t] == vs[t]);
            }
        }
    }
}

/// The count of a prefix is at most the count of the whole sequence.
proof fn lemma_spill_state_prefix(slots: Map<VReg, SpillSlot>, count: nat, size: nat, vs: Seq<VReg>, i: int)
    requires
        0 <= i <= vs.len(),
    ensures
        spill_state(slots, count, size, vs.take(i)).1 <= spill_state(slots, count, size, vs).1,
    decreases vs.len() - i,
{
    if i < vs.len() {
        lemma_spill_state_prefix(slots, count, size, vs, i + 1);
        assert(vs.take(i + 1).drop_last() == vs.take(i));
    } else {
        assert(vs.take(i) == vs);
    }
}

/// The spill code only depends on the slots of the listed vregs.
proof fn lemma_spill_code_frame(vs: Seq<VReg>, m1: Map<VReg, SpillSlot>, m2: Map<VReg, SpillSlot>)
    requires
        forall|t: int| 0 <= t < vs.len() ==> m1[#[trigger] vs[t]] == m2[vs[t]],
    ensures
        spill_code(vs, m1) == spill_code(vs, m2),
    decreases vs.len(),
{
    if vs.len() > 0 {
        let d = vs.drop_last();
        assert forall|t: int| 0 <= t < d.len() implies m1[#[trigger] d[t]] == m2[d[t]] by {
            assert(d[t] == vs[t]);
        }
        lemma_spill_code_frame(d, m1, m2);
        assert(m1[vs.last()] == m2[vs.last()]);
    }
}

/// Manages spill slots and spill code generation.
pub struct SpillManager {
    /// Total spill slots allocated.
    slot_count: usize,
    /// Size of each spill slot in bytes.
    slot_size: usize,
    /// Mapping from virtual register to spill slot.
    spills: HashMap<VReg, SpillSlot>,
    /// Generated spill instructions.
    instructions: Vec<SpillInstruction>,
}

impl SpillManager {
    /// One slot per spilled vreg; every slot lies within the frame of
    /// `slot_count * slot_size` bytes, and no two slots overlap.
    #[verifier::type_invariant]
    pub closed spec fn inv(self) -> bool {
        &&& self.slot_count == self.spills@.dom().len()
        &&& forall|v: VReg| #[trigger]
            self.spills@.contains_key(v) ==> self.spills@[v].offset + self.slot_size
                <= self.slot_count * self.slot_size
        &&& forall|v: VReg, w: VReg|
            #![trigger self.spills@[v], self.spills@[w]]
            self.spills@.contains_key(v) && self.spills@.contains_key(w) && v != w
                ==> self.spills@[v].offset + self.slot_size <= self.spills@[w].offset
                || self.spills@[w].offset + self.slot_size <= self.spills@[v].offset
    }

    /// The slot of each spilled vreg.
    pub closed spec fn slots(&self) -> Map<VReg, SpillSlot> {
        self.spills@
    }

    /// The number of slots handed out.
    pub closed spec fn spec_slot_count(&self) -> nat {
        self.slot_count as nat
    }

    /// The size of each slot in bytes.
    pub closed spec fn spec_slot_size(&self) -> nat {
        self.slot_size as nat
    }

    /// The spill instructions generated so far.
    pub closed spec fn instrs(&self) -> Seq<SpillInstruction> {
        self.instructions@
    }

    /// Every slot lies within the frame, and distinct vregs have slots that
    /// do not overlap.
    pub proof fn lemma_slots_in_frame(m: SpillManager, v: VReg, w: VReg)
        requires
            m.inv(),
            m.slots().contains_key(v),
            m.slots().contains_key(w),
        ensures
            m.slots()[v].offset + m.spec_slot_size() <= m.spec_slot_count() * m.spec_slot_size(),
            v != w ==> m.slots()[v].offset + m.spec_slot_size() <= m.slots()[w].offset
                || m.slots()[w].offset + m.spec_slot_size() <= m.slots()[v].offset,
            m.spec_slot_count() == m.slots().dom().len(),
    {
    }

    /// Create a new spill manager with the given slot size.
    pub fn new(slot_size: usize) -> (m: Self)
        ensures
            m.slots() == Map::<VReg, SpillSlot>::empty(),
            m.spec_slot_count() == 0,
            m.spec_slot_size() == slot_size,
            m.instrs() == Seq::<SpillInstruction>::empty(),
    {
        let spills: HashMap<VReg, SpillSlot> = HashMap::new();
        proof {
            assert(spills@.dom() =~= Set::<VReg>::empty());
        }
        SpillManager { slot_count: 0, slot_size, spills, instructions: Vec::new() }
    }

    /// Allocate a spill slot for a virtual register: the slot it already has,
    /// or else the next slot of the frame.
    pub fn allocate_slot(&mut self, vreg: VReg) -> (slot: SpillSlot)
        requires
            !old(self).slots().contains_key(vreg) ==> old(self).spec_slot_count()
                * old(self).spec_slot_size() <= usize::MAX,
        ensures
            old(self).slots().contains_key(vreg) ==> {
                &&& slot == old(self).slots()[vreg]
                &&& final(self).slots() == old(self).slots()
                &&& final(self).spec_slot_count() == old(self).spec_slot_count()
            },
            !old(self).slots().contains_key(vreg) ==> {
                &&& slot.offset == old(self).spec_slot_count() * old(self).spec_slot_size()
                &&& final(self).slots() == old(self).slots().insert(vreg, slot)
                &&& final(self).spec_slot_count() == old(self).spec_slot_count() + 1
            },
            final(self).spec_slot_size() == old(self).spec_slot_size(),
            final(self).instrs() == old(self).instrs(),
    {
        proof {
            use_type_invariant(&*self);
        }
        if let Some(slot) = self.spills.get(&vreg) {
            return *slot;
        }
        let mut m = SpillManager::new(0);
        std::mem::swap(self, &mut m);
        proof {
            use_type_invariant(&m);
        }
        let SpillManager { slot_count, slot_size, mut spills, instructions } = m;
        let ghost old_spills = spills@;
        let slot = SpillSlot::new(slot_count * slot_size);
        spills.insert(vreg, slot);
        let n = spills.len();
        proof {
            assert(spills@.dom() == old_spills.dom().insert(vreg));
            assert(n == slot_count + 1);
            assert((slot_count + 1) * slot_size == slot_count * slot_size + slot_size) by (nonlinear_arith);
            assert forall|v: VReg, w: VReg|
                #![trigger spills@[v], spills@[w]]
                spills@.contains_key(v) && spills@.contains_key(w) && v != w implies spills@[v].offset
                    + slot_size <= spills@[w].offset || spills@[w].offset + slot_size <= spills@[v].offset by {
                if v != vreg && w != vreg {
                    assert(old_spills[v] == spills@[v] && old_spills[w] == spills@[w]);
                } else if v == vreg {
                    assert(old_spills.contains_key(w));
                } else {
                    assert(old_spills.contains_key(v));
                }
            }
        }
        *self = SpillManager { slot_count: slot_count + 1, slot_size, spills, instructions };
        slot
    }

    /// Appends an instruction.
    fn push_instruction(&mut self, ins: SpillInstruction)
        ensures
            final(self).slots() == old(self).slots(),
            final(self).spec_slot_count() == old(self).spec_slot_count(),
            final(self).spec_slot_size() == old(self).spec_slot_size(),
            final(self).instrs() == old(self).instrs().push(ins),
    {
        let mut m = SpillManager::new(0);
        std::mem::swap(self, &mut m);
        proof {
            use_type_invariant(&m);
        }
        let SpillManager { slot_count, slot_size, spills, mut instructions } = m;
        instructions.push(ins);
        *self = SpillManager { slot_count, slot_size, spills, instructions };
    }

    /// Generate a store instruction (spill a register to memory).
    pub fn emit_store(&mut self, reg: Register, slot: SpillSlot)
        ensures
            final(self).slots() == old(self).slots(),
            final(self).spec_slot_count() == old(self).spec_slot_count(),
            final(self).spec_slot_size() == old(self).spec_slot_size(),
            final(self).instrs() == old(self).instrs().push(SpillInstruction::Store { reg, slot }),
    {
        self.push_instruction(SpillInstruction::Store { reg, slot });
    }

    /// Generate a load instruction (fill from memory to a register).
    pub fn emit_load(&mut self, slot: SpillSlot, reg: Register)
        ensures
            final(self).slots() == old(self).slots(),
            final(self).spec_slot_count() == old(self).spec_slot_count(),
            final(self).spec_slot_size() == old(self).spec_slot_size(),
            final(self).instrs() == old(self).instrs().push(SpillInstruction::Load { slot, reg }),
    {
        self.push_instruction(SpillInstruction::Load { slot, reg });
    }

    /// Generate a virtual register store.
    pub fn emit_vstore(&mut self, vreg: VReg, slot: SpillSlot)
        ensures
            final(self).slots() == old(self).slots(),
            final(self).spec_slot_count() == old(self).spec_slot_count(),
            final(self).spec_slot_size() == old(self).spec_slot_size(),
            final(self).instrs() == old(self).instrs().push(SpillInstruction::VStore { vreg, slot }),
    {
        self.push_instruction(SpillInstruction::VStore { vreg, slot });
    }

    /// Generate a virtual register load.
    pub fn emit_vload(&mut self, slot: SpillSlot, vreg: VReg)
        ensures
            final(self).slots() == old(self).slots(),
            final(self).spec_slot_count() == old(self).spec_slot_count(),
            final(self).spec_slot_size() == old(self).spec_slot_size(),
            final(self).instrs() == old(self).instrs().push(SpillInstruction::VLoad { slot, vreg }),
    {
        self.push_instruction(SpillInstruction::VLoad { slot, vreg });
    }

    /// Total spill slots used.
    pub fn slot_count(&self) -> (n: usize)
        ensures
            n == self.spec_slot_count(),
    {
        self.slot_count
    }

    /// Total stack frame bytes needed for spills.
    pub fn frame_size(&self) -> (n: usize)
        requires
            self.spec_slot_count() * self.spec_slot_size() <= usize::MAX,
        ensures
            n == self.spec_slot_count() * self.spec_slot_size(),
    {
        self.slot_count * self.slot_size
    }

    /// Get the spill slot for a virtual register.
    pub fn get_slot(&self, vreg: VReg) -> (r: Option<SpillSlot>)
        ensures
            r == (if self.slots().contains_key(vreg) {
                Some(self.slots()[vreg])
            } else {
                None
            }),
    {
        match self.spills.get(&vreg) {
            Some(s) => Some(*s),
            None => None,
        }
    }

    /// Get all generated spill instructions.
    pub fn instructions(&self) -> (r: &[SpillInstruction])
        ensures
            r@ == self.instrs(),
    {
        self.instructions.as_slice()
    }

    /// Number of spill instructions.
    pub fn instruction_count(&self) -> (n: usize)
        ensures
            n == self.instrs().len(),
    {
        self.instructions.len()
    }

    /// Spill a set of virtual registers, generating load/store pairs: each
    /// vreg, in order, gets its slot (allocating one when it has none) and a
    /// store followed by a load through that slot.
    pub fn spill_vregs(&mut self, vregs: &[VReg])
        requires
            spill_state(
                old(self).slots(),
                old(self).spec_slot_count(),
                old(self).spec_slot_size(),
                vregs@,
            ).1 > old(self).spec_slot_count() ==> (spill_state(
                old(self).slots(),
                old(self).spec_slot_count(),
                old(self).spec_slot_size(),
                vregs@,
            ).1 - 1) * old(self).spec_slot_size() <= usize::MAX,
        ensures
            (final(self).slots(), final(self).spec_slot_count()) == spill_state(
                old(self).slots(),
                old(self).spec_slot_count(),
                old(self).spec_slot_size(),
                vregs@,
            ),
            final(self).spec_slot_size() == old(self).spec_slot_size(),
            final(self).instrs() == old(self).instrs() + spill_code(vregs@, final(self).slots()),
    {
        let ghost m0 = old(self).slots();
        let ghost c0 = old(self).spec_slot_count();
        let ghost size = old(self).spec_slot_size();
        let ghost fin = spill_state(m0, c0, size, vregs@);
        let mut i: usize = 0;
        proof {
            assert(vregs@.take(0) =~= Seq::<VReg>::empty());
        }
        while i < vregs.len()
            invariant
                i <= vregs.len(),
                fin == spill_state(m0, c0, size, vregs@),
                fin.1 > c0 ==> (fin.1 - 1) * size <= usize::MAX,
                (self.slots(), self.spec_slot_count()) == spill_state(m0, c0, size, vregs@.take(i as int)),
                self.spec_slot_size() == size,
                self.instrs() == old(self).instrs() + spill_code(vregs@.take(i as int), self.slots()),
            decreases vregs.len() - i,
        {
            let vreg = vregs[i];
            let ghost before = self.slots();
            let ghost instrs0 = self.instrs();
            proof {
                let t = vregs@.take(i + 1);
                assert(t.drop_last() == vregs@.take(i as int));
                assert(t.last() == vreg);
                lemma_spill_state_prefix(m0, c0, size, vregs@, i + 1);
                lemma_spill_state_grows(m0, c0, size, vregs@.take(i as int));
                if !before.contains_key(vreg) {
                    let c = self.spec_slot_count();
                    assert(c + 1 <= fin.1);
                    assert(c * size <= (fin.1 - 1) * size) by (nonlinear_arith)
                        requires
                            c + 1 <= fin.1,
                    ;
                }
            }
            let slot = self.allocate_slot(vreg);
            self.emit_vstore(vreg, slot);
            self.emit_vload(slot, vreg);
            proof {
                let t = vregs@.take(i + 1);
                lemma_spill_state_grows(m0, c0, size, vregs@.take(i as int));
                assert forall|k: int| 0 <= k < vregs@.take(i as int).len() implies before[#[trigger] vregs@.take(i as int)[k]]
                    == self.slots()[vregs@.take(i as int)[k]] by {
                }
                lemma_spill_code_frame(vregs@.take(i as int), before, self.slots());
                assert(t.drop_last() == vregs@.take(i as int));
                assert(self.instrs() =~= old(self).instrs() + spill_code(t, self.slots()));
            }
            i = i + 1;
        }
        proof {
            assert(vregs@.take(vregs.len() as int) == vregs@);
        }
    }

    /// Clear all generated instructions (keeps slot allocations).
    pub fn clear_instructions(&mut self)
        ensures
            final(self).slots() == old(self).slots(),
            final(self).spec_slot_count() == old(self).spec_slot_count(),
            final(self).spec_slot_size() == old(self).spec_slot_size(),
            final(self).instrs() == Seq::<SpillInstruction>::empty(),
    {
        let mut m = SpillManager::new(0);
        std::mem::swap(self, &mut m);
        proof {
            use_type_invariant(&m);
        }
        let SpillManager { slot_count, slot_size, spills, mut instructions } = m;
        instructions.clear();
        *self = SpillManager { slot_count, slot_size, spills, instructions };
    }
}

} // verus!

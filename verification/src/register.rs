//! Register definitions and register files.

use vstd::prelude::*;

verus! {

/// A register class (e.g., integer, float).
#[derive(Clone, Copy, Debug, PartialEq, Eq, Hash, PartialOrd, Ord, Structural)]
pub enum RegisterClass {
    Integer,
    Float,
    Vector,
}

/// A physical register.
#[derive(Clone, Copy, Debug, PartialEq, Eq, Hash, PartialOrd, Ord, Structural)]
pub struct Register {
    /// Register number.
    pub number: u8,
    /// Register class.
    pub class: RegisterClass,
}

/// The character of a decimal digit.
pub open spec fn digit_char(d: nat) -> char {
    if d == 0 {
        '0'
    } else if d == 1 {
        '1'
    } else if d == 2 {
        '2'
    } else if d == 3 {
        '3'
    } else if d == 4 {
        '4'
    } else if d == 5 {
        '5'
    } else if d == 6 {
        '6'
    } else if d == 7 {
        '7'
    } else if d == 8 {
        '8'
    } else {
        '9'
    }
}

/// The decimal notation of `n`, without leading zeros.
pub open spec fn decimal(n: nat) -> Seq<char>
    decreases n,
{
    if n < 10 {
        seq![digit_char(n)]
    } else {
        decimal(n / 10) + seq![digit_char(n % 10)]
    }
}

/// The letter that names a register class: `r`, `f` or `v`.
pub open spec fn class_prefix(class: RegisterClass) -> char {
    match class {
        RegisterClass::Integer => 'r',
        RegisterClass::Float => 'f',
        RegisterClass::Vector => 'v',
    }
}

/// How a register is written: its class letter followed by its number.
pub open spec fn register_text(r: Register) -> Seq<char> {
    seq![class_prefix(r.class)] + decimal(r.number as nat)
}

/// The text of a single decimal digit.
fn digit_text(d: u8) -> (s: &'static str)
    requires
        d < 10,
    ensures
        s@ == seq![digit_char(d as nat)],
{
    match d {
        0 => {
            proof {
                reveal_strlit("0");
            }
            "0"
        },
        1 => {
            proof {
                reveal_strlit("1");
            }
            "1"
        },
        2 => {
            proof {
                reveal_strlit("2");
            }
            "2"
        },
        3 => {
            proof {
                reveal_strlit("3");
            }
            "3"
        },
        4 => {
            proof {
                reveal_strlit("4");
            }
            "4"
        },
        5 => {
            proof {
                reveal_strlit("5");
            }
            "5"
        },
        6 => {
            proof {
                reveal_strlit("6");
            }
            "6"
        },
        7 => {
            proof {
                reveal_strlit("7");
            }
            "7"
        },
        8 => {
            proof {
                reveal_strlit("8");
            }
            "8"
        },
        _ => {
            proof {
                reveal_strlit("9");
            }
            "9"
        },
    }
}

/// The text of a class letter.
fn prefix_text(class: RegisterClass) -> (s: &'static str)
    ensures
        s@ == seq![class_prefix(class)],
{
    match class {
        RegisterClass::Integer => {
            proof {
                reveal_strlit("r");
            }
            "r"
        },
        RegisterClass::Float => {
            proof {
                reveal_strlit("f");
            }
            "f"
        },
        RegisterClass::Vector => {
            proof {
                reveal_strlit("v");
            }
            "v"
        },
    }
}

impl Register {
    /// Create a new register.
    pub fn new(number: u8, class: RegisterClass) -> (r: Self)
        ensures
            r.number == number,
            r.class == class,
    {
        Register { number, class }
    }

    /// Create an integer register.
    pub fn integer(number: u8) -> (r: Self)
        ensures
            r.number == number,
            r.class == RegisterClass::Integer,
    {
        Self::new(number, RegisterClass::Integer)
    }

    /// Create a float register.
    pub fn float(number: u8) -> (r: Self)
        ensures
            r.number == number,
            r.class == RegisterClass::Float,
    {
        Self::new(number, RegisterClass::Float)
    }

    /// Returns true if this is an integer register.
    pub fn is_int(&self) -> (b: bool)
        ensures
            b == (self.class == RegisterClass::Integer),
    {
        self.class == RegisterClass::Integer
    }

    /// Returns true if this is a float register.
    pub fn is_float(&self) -> (b: bool)
        ensures
            b == (self.class == RegisterClass::Float),
    {
        self.class == RegisterClass::Float
    }

    /// The register's name: its class letter followed by its number in
    /// decimal, e.g. `r0` or `f3`.
    pub fn to_string(&self) -> (s: String)
        ensures
            s@ == register_text(*self),
    {
        let mut s = String::from_str(prefix_text(self.class));
        let n = self.number;
        if n >= 100 {
            s.append(digit_text(n / 100));
        }
        if n >= 10 {
            s.append(digit_text((n / 10) % 10));
        }
        s.append(digit_text(n % 10));
        proof {
            let k = n as nat;
            if k >= 100 {
                assert(decimal(k) == decimal(k / 10) + seq![digit_char(k % 10)]);
                assert(decimal(k / 10) == decimal(k / 100) + seq![digit_char((k / 10) % 10)]);
                assert(decimal(k / 100) == seq![digit_char(k / 100)]);
            } else if k >= 10 {
                assert(decimal(k) == decimal(k / 10) + seq![digit_char(k % 10)]);
                assert(decimal(k / 10) == seq![digit_char(k / 10)]);
            }
            assert(s@ =~= register_text(*self));
        }
        s
    }
}

/// `count` integer registers numbered from 0.
pub open spec fn int_registers(count: nat) -> Seq<Register> {
    Seq::new(count, |i: int| Register { number: i as u8, class: RegisterClass::Integer })
}

/// `count` float registers numbered from 0.
pub open spec fn float_registers(count: nat) -> Seq<Register> {
    Seq::new(count, |i: int| Register { number: i as u8, class: RegisterClass::Float })
}

/// Register `i` is of class `class` and not allocated.
pub open spec fn is_free(regs: Seq<Register>, flags: Seq<bool>, class: RegisterClass, i: int) -> bool {
    0 <= i < regs.len() && regs[i].class == class && !flags[i]
}

/// Register `i` is the first free register of class `class`.
pub open spec fn is_first_free(regs: Seq<Register>, flags: Seq<bool>, class: RegisterClass, i: int) -> bool {
    is_free(regs, flags, class, i) && forall|j: int| 0 <= j < i ==> !#[trigger] is_free(regs, flags, class, j)
}

/// The allocation flags after freeing `reg`: the flag of its slot is cleared,
/// and nothing changes when `reg` is not in the file.
pub open spec fn released(regs: Seq<Register>, flags: Seq<bool>, reg: Register) -> Seq<bool> {
    if regs.contains(reg) {
        flags.update(regs.index_of(reg), false)
    } else {
        flags
    }
}

/// The number of free registers of class `class` among the first `n`.
pub open spec fn free_count(regs: Seq<Register>, flags: Seq<bool>, class: RegisterClass, n: int) -> nat
    decreases n,
{
    if n <= 0 {
        0
    } else {
        free_count(regs, flags, class, n - 1) + if is_free(regs, flags, class, n - 1) {
            1nat
        } else {
            0nat
        }
    }
}

/// The number of registers of class `class` among the first `n`.
pub open spec fn class_count(regs: Seq<Register>, class: RegisterClass, n: int) -> nat
    decreases n,
{
    if n <= 0 {
        0
    } else {
        class_count(regs, class, n - 1) + if regs[n - 1].class == class {
            1nat
        } else {
            0nat
        }
    }
}

/// Freeing the register that an allocation took restores the flags as they
/// were before the allocation.
pub proof fn lemma_free_undoes_allocate(regs: Seq<Register>, flags: Seq<bool>, class: RegisterClass, i: int)
    requires
        regs.no_duplicates(),
        regs.len() == flags.len(),
        is_free(regs, flags, class, i),
    ensures
        released(regs, flags.update(i, true), regs[i]) == flags,
{
    assert(regs.contains(regs[i]));
    let k = regs.index_of(regs[i]);
    assert(k == i);
    assert(flags.update(i, true).update(i, false) =~= flags);
}

/// Setting a flag changes the free count of the first `n` registers only in
/// the class of the register it belongs to, and only when that register is
/// among the first `n`.
proof fn lemma_free_count_update(
    regs: Seq<Register>,
    flags: Seq<bool>,
    class: RegisterClass,
    i: int,
    c: RegisterClass,
    n: int,
)
    requires
        regs.len() == flags.len(),
        is_free(regs, flags, class, i),
        0 <= n <= regs.len(),
    ensures
        free_count(regs, flags.update(i, true), c, n) + (if c == class && i < n {
            1nat
        } else {
            0nat
        }) == free_count(regs, flags, c, n),
    decreases n,
{
    if n > 0 {
        lemma_free_count_update(regs, flags, class, i, c, n - 1);
    }
}

/// Allocating a free register of a class leaves one fewer free register of
/// that class and as many of every other class.
pub proof fn lemma_allocate_takes_one(regs: Seq<Register>, flags: Seq<bool>, class: RegisterClass, i: int, c: RegisterClass)
    requires
        regs.len() == flags.len(),
        is_free(regs, flags, class, i),
    ensures
        c == class ==> free_count(regs, flags.update(i, true), c, regs.len() as int) + 1 == free_count(
            regs,
            flags,
            c,
            regs.len() as int,
        ),
        c != class ==> free_count(regs, flags.update(i, true), c, regs.len() as int) == free_count(
            regs,
            flags,
            c,
            regs.len() as int,
        ),
{
    lemma_free_count_update(regs, flags, class, i, c, regs.len() as int);
}

/// The free registers of a class are among the registers of that class, and
/// there are none exactly when no register of the class is free.
pub proof fn lemma_free_count_bounds(regs: Seq<Register>, flags: Seq<bool>, class: RegisterClass, n: int)
    requires
        0 <= n <= regs.len(),
        regs.len() == flags.len(),
    ensures
        free_count(regs, flags, class, n) <= class_count(regs, class, n),
        free_count(regs, flags, class, n) == 0 <==> forall|j: int| 0 <= j < n ==> !#[trigger] is_free(regs, flags, class, j),
    decreases n,
{
    if n > 0 {
        lemma_free_count_bounds(regs, flags, class, n - 1);
    }
}

/// A collection of physical registers.
pub struct RegisterFile {
    registers: Vec<Register>,
    /// Which registers are currently allocated.
    allocated: Vec<bool>,
}

/// Appends `count` registers of class `class`, numbered from 0, and as many
/// cleared flags.
fn push_registers(regs: &mut Vec<Register>, flags: &mut Vec<bool>, count: u8, class: RegisterClass)
    ensures
        final(regs)@ == old(regs)@ + Seq::new(
            count as nat,
            |i: int| Register { number: i as u8, class: class },
        ),
        final(flags)@ == old(flags)@ + Seq::new(count as nat, |i: int| false),
{
    let mut i: u8 = 0;
    while i < count
        invariant
            i <= count,
            regs@ == old(regs)@ + Seq::new(i as nat, |k: int| Register { number: k as u8, class: class }),
            flags@ == old(flags)@ + Seq::new(i as nat, |k: int| false),
        decreases count - i,
    {
        regs.push(Register::new(i, class));
        flags.push(false);
        proof {
            assert(regs@ =~= old(regs)@ + Seq::new((i + 1) as nat, |k: int| Register { number: k as u8, class: class }));
            assert(flags@ =~= old(flags)@ + Seq::new((i + 1) as nat, |k: int| false));
        }
        i = i + 1;
    }
}

impl RegisterFile {
    /// As many flags as registers, and no register listed twice.
    #[verifier::type_invariant]
    pub closed spec fn inv(self) -> bool {
        &&& self.registers@.len() == self.allocated@.len()
        &&& self.registers@.no_duplicates()
    }

    /// The registers, in order.
    pub closed spec fn regs(&self) -> Seq<Register> {
        self.registers@
    }

    /// Which registers are allocated, by position.
    pub closed spec fn flags(&self) -> Seq<bool> {
        self.allocated@
    }

    /// A register file that satisfies its invariant has one flag per
    /// register and no register twice.
    pub proof fn lemma_inv(f: RegisterFile)
        requires
            f.inv(),
        ensures
            f.regs().len() == f.flags().len(),
            f.regs().no_duplicates(),
    {
    }

    /// Sets the allocation flag of register `i`.
    fn set_flag(&mut self, i: usize, value: bool)
        requires
            i < old(self).flags().len(),
        ensures
            final(self).regs() == old(self).regs(),
            final(self).flags() == old(self).flags().update(i as int, value),
    {
        let mut f = RegisterFile { registers: Vec::new(), allocated: Vec::new() };
        std::mem::swap(self, &mut f);
        proof {
            use_type_invariant(&f);
        }
        let RegisterFile { registers, mut allocated } = f;
        allocated.set(i, value);
        *self = RegisterFile { registers, allocated };
    }

    /// Create a register file with N integer registers.
    pub fn new_int(count: u8) -> (f: Self)
        ensures
            f.regs() == int_registers(count as nat),
            f.flags() == Seq::new(count as nat, |i: int| false),
    {
        let mut registers: Vec<Register> = Vec::new();
        let mut allocated: Vec<bool> = Vec::new();
        push_registers(&mut registers, &mut allocated, count, RegisterClass::Integer);
        proof {
            assert(registers@ =~= int_registers(count as nat));
        }
        RegisterFile { registers, allocated }
    }

    /// Create a register file with N integer and N float registers.
    pub fn new_with_floats(int_count: u8, float_count: u8) -> (f: Self)
        ensures
            f.regs() == int_registers(int_count as nat) + float_registers(float_count as nat),
            f.flags() == Seq::new((int_count + float_count) as nat, |i: int| false),
    {
        let mut registers: Vec<Register> = Vec::new();
        let mut allocated: Vec<bool> = Vec::new();
        push_registers(&mut registers, &mut allocated, int_count, RegisterClass::Integer);
        push_registers(&mut registers, &mut allocated, float_count, RegisterClass::Float);
        proof {
            assert(registers@ =~= int_registers(int_count as nat) + float_registers(float_count as nat));
            assert(allocated@ =~= Seq::new((int_count + float_count) as nat, |i: int| false));
            assert forall|a: int, b: int| 0 <= a < b < registers@.len() implies registers@[a] != registers@[b] by {
                if b < int_count {
                } else if a >= int_count {
                }
            }
        }
        RegisterFile { registers, allocated }
    }

    /// Allocate a free register of the given class: the first free one in
    /// the file. Returns None if all registers of that class are allocated.
    pub fn allocate(&mut self, class: RegisterClass) -> (r: Option<Register>)
        ensures
            final(self).regs() == old(self).regs(),
            match r {
                None => {
                    &&& final(self).flags() == old(self).flags()
                    &&& forall|i: int| !#[trigger] is_free(old(self).regs(), old(self).flags(), class, i)
                },
                Some(reg) => exists|i: int|
                    #[trigger] is_first_free(old(self).regs(), old(self).flags(), class, i) && reg
                        == old(self).regs()[i] && final(self).flags() == old(self).flags().update(i, true),
            },
    {
        proof {
            use_type_invariant(&*self);
        }
        let mut i: usize = 0;
        while i < self.registers.len()
            invariant
                i <= self.registers.len(),
                self.registers@.len() == self.allocated@.len(),
                self.registers@ == old(self).regs(),
                self.allocated@ == old(self).flags(),
                forall|j: int| 0 <= j < i ==> !#[trigger] is_free(self.registers@, self.allocated@, class, j),
            decreases self.registers.len() - i,
        {
            if self.registers[i].class == class && !self.allocated[i] {
                let reg = self.registers[i];
                self.set_flag(i, true);
                proof {
                    assert(is_first_free(old(self).regs(), old(self).flags(), class, i as int));
                }
                return Some(reg);
            }
            i = i + 1;
        }
        None
    }

    /// Free a previously allocated register; a register that is not in the
    /// file is ignored.
    pub fn free(&mut self, reg: Register)
        ensures
            final(self).regs() == old(self).regs(),
            final(self).flags() == released(old(self).regs(), old(self).flags(), reg),
    {
        proof {
            use_type_invariant(&*self);
        }
        let mut i: usize = 0;
        while i < self.registers.len()
            invariant
                i <= self.registers.len(),
                self.registers@.len() == self.allocated@.len(),
                self.registers@ == old(self).regs(),
                self.allocated@ == old(self).flags(),
                self.registers@.no_duplicates(),
                forall|j: int| 0 <= j < i ==> self.registers@[j] != reg,
            decreases self.registers.len() - i,
        {
            if self.registers[i] == reg {
                self.set_flag(i, false);
                proof {
                    assert(old(self).regs().contains(reg));
                    let k = old(self).regs().index_of(reg);
                    assert(old(self).regs()[k] == reg);
                    assert(k == i);
                }
                return;
            }
            i = i + 1;
        }
    }

    /// Check if a register is allocated.
    pub fn is_allocated(&self, reg: Register) -> (b: bool)
        ensures
            b == (self.regs().contains(reg) && self.flags()[self.regs().index_of(reg)]),
    {
        proof {
            use_type_invariant(self);
        }
        let mut i: usize = 0;
        while i < self.registers.len()
            invariant
                i <= self.registers.len(),
                self.registers@.len() == self.allocated@.len(),
                self.registers@.no_duplicates(),
                forall|j: int| 0 <= j < i ==> self.registers@[j] != reg,
            decreases self.registers.len() - i,
        {
            if self.registers[i] == reg {
                proof {
                    assert(self.regs().contains(reg));
                    let k = self.regs().index_of(reg);
                    assert(self.regs()[k] == reg);
                }
                return self.allocated[i];
            }
            i = i + 1;
        }
        false
    }

    /// Number of available (free) registers of the given class.
    pub fn available(&self, class: RegisterClass) -> (n: usize)
        ensures
            n == free_count(self.regs(), self.flags(), class, self.regs().len() as int),
    {
        proof {
            use_type_invariant(self);
        }
        let mut n: usize = 0;
        let mut i: usize = 0;
        while i < self.registers.len()
            invariant
                i <= self.registers.len(),
                self.registers@.len() == self.allocated@.len(),
                n == free_count(self.registers@, self.allocated@, class, i as int),
                n <= i,
            decreases self.registers.len() - i,
        {
            if self.registers[i].class == class && !self.allocated[i] {
                n = n + 1;
            }
            i = i + 1;
        }
        n
    }

    /// Total registers of the given class.
    pub fn total(&self, class: RegisterClass) -> (n: usize)
        ensures
            n == class_count(self.regs(), class, self.regs().len() as int),
    {
        let mut n: usize = 0;
        let mut i: usize = 0;
        while i < self.registers.len()
            invariant
                i <= self.registers.len(),
                n == class_count(self.registers@, class, i as int),
                n <= i,
            decreases self.registers.len() - i,
        {
            if self.registers[i].class == class {
                n = n + 1;
            }
            i = i + 1;
        }
        n
    }

    /// Returns all registers.
    pub fn registers(&self) -> (r: &[Register])
        ensures
            r@ == self.regs(),
    {
        self.registers.as_slice()
    }
}

} // verus!

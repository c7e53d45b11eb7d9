//! The fused multiply-add primitive `r = a * b + c (mod p)` with range-checked
//! operands, and the region it lays cells out in. Every gadget of the library
//! is built from the operations here.
use crate::field::{p, GOLDILOCKS_MODULUS};
use vstd::prelude::*;

verus! {

/// The constraint system could not place an assignment.
#[derive(Clone, Copy, Debug, PartialEq, Eq, Structural)]
pub enum Error {
    NotEnoughRowsAvailable,
}

/// A cell of the region together with the witness it was assigned.
#[derive(Clone, Copy, Debug)]
pub struct AssignedValue {
    row: usize,
    value: u64,
}

/// A cell that gadgets treat as a condition (0 or 1).
pub type AssignedCondition = AssignedValue;

impl View for AssignedValue {
    type V = nat;

    closed spec fn view(&self) -> nat {
        self.value as nat
    }
}

impl AssignedValue {
    /// The witness held by the cell.
    pub fn value(&self) -> (r: u64)
        ensures
            r == self@,
    {
        self.value
    }

    /// The row of the region the cell was placed in.
    pub fn row(&self) -> usize {
        self.row
    }
}

/// The state of one region under construction: how many rows it has used out
/// of how many it may use, whether every constraint placed so far is met by
/// the witnesses, and whether the range-check table has been loaded.
#[derive(Debug)]
pub struct RegionCtx {
    offset: usize,
    capacity: usize,
    holds: bool,
    table_loaded: bool,
}

impl RegionCtx {
    #[verifier::type_invariant]
    spec fn within_capacity(&self) -> bool {
        self.offset <= self.capacity
    }

    pub closed spec fn rows_used(&self) -> nat {
        self.offset as nat
    }

    pub closed spec fn row_capacity(&self) -> nat {
        self.capacity as nat
    }

    /// Every constraint placed so far is met.
    pub closed spec fn holds(&self) -> bool {
        self.holds
    }

    pub closed spec fn table_loaded(&self) -> bool {
        self.table_loaded
    }

    /// The circuit built so far is satisfiable by its witnesses.
    pub open spec fn satisfied(&self) -> bool {
        self.holds() && self.table_loaded()
    }

    /// `rows` more rows are available.
    pub open spec fn fits(&self, rows: nat) -> bool {
        self.rows_used() + rows <= self.row_capacity()
    }

    /// An empty region of `capacity` rows.
    pub fn new(capacity: usize) -> (r: RegionCtx)
        ensures
            r.rows_used() == 0,
            r.row_capacity() == capacity,
            r.holds(),
            !r.table_loaded(),
    {
        RegionCtx { offset: 0, capacity, holds: true, table_loaded: false }
    }

    pub fn offset(&self) -> (r: usize)
        ensures
            r == self.rows_used(),
    {
        self.offset
    }

    /// How many rows are still available.
    pub fn rows_left(&self) -> (r: usize)
        ensures
            self.rows_used() <= self.row_capacity(),
            r == self.row_capacity() - self.rows_used(),
    {
        proof {
            use_type_invariant(self);
        }
        self.capacity - self.offset
    }

    pub fn is_satisfied(&self) -> (r: bool)
        ensures
            r == self.satisfied(),
    {
        self.holds && self.table_loaded
    }
}

/// What a gadget that takes `rows` rows does to the region: it keeps the
/// capacity and the table, succeeds exactly when the rows are there, and then
/// uses exactly those rows.
pub open spec fn region_step(pre: RegionCtx, post: RegionCtx, rows: nat, ok: bool) -> bool {
    &&& post.row_capacity() == pre.row_capacity()
    &&& post.table_loaded() == pre.table_loaded()
    &&& ok <==> pre.fits(rows)
    &&& ok ==> post.rows_used() == pre.rows_used() + rows
}

/// One operand of the primitive.
#[derive(Clone, Copy, Debug)]
pub enum Term {
    /// A cell assigned earlier.
    Assigned(AssignedValue),
    /// A witness, assigned to a fresh cell.
    Unassigned(u64),
    /// A constant fixed at setup.
    Fixed(u64),
}

pub open spec fn term_value(t: Term) -> nat {
    match t {
        Term::Assigned(w) => w@,
        Term::Unassigned(v) => v as nat,
        Term::Fixed(v) => v as nat,
    }
}

/// The four cells of one application of the primitive.
#[derive(Clone, Copy, Debug)]
pub struct ArithmeticAssigned {
    pub a: AssignedValue,
    pub b: AssignedValue,
    pub c: AssignedValue,
    pub r: AssignedValue,
}

/// The layout of the primitive, fixed once at configuration and shared by
/// every chip of a circuit. Cells here are plain values, so the layout
/// records nothing beyond its own existence.
#[derive(Clone, Copy, Debug, PartialEq, Eq, Structural)]
pub struct ArithmeticChipConfig {}

impl ArithmeticChipConfig {
    pub fn configure() -> ArithmeticChipConfig {
        ArithmeticChipConfig {}
    }
}

pub struct ArithmeticChip {
    pub config: ArithmeticChipConfig,
}

fn term_u64(t: &Term) -> (r: u64)
    ensures
        r == term_value(*t),
{
    match t {
        Term::Assigned(w) => w.value,
        Term::Unassigned(v) => *v,
        Term::Fixed(v) => *v,
    }
}

impl ArithmeticChip {
    pub fn new(config: &ArithmeticChipConfig) -> (r: ArithmeticChip)
        ensures
            r.config == *config,
    {
        ArithmeticChip { config: *config }
    }

    /// Places `r = a * b + c (mod p)` in one row, range-checking the three
    /// operands against the lookup table.
    pub fn apply(&self, ctx: &mut RegionCtx, a: Term, b: Term, c: Term) -> (r: Result<
        ArithmeticAssigned,
        Error,
    >)
        ensures
            region_step(*old(ctx), *final(ctx), 1, r is Ok),
            r is Err ==> *final(ctx) == *old(ctx),
            r matches Ok(w) ==> {
                &&& w.a@ == term_value(a)
                &&& w.b@ == term_value(b)
                &&& w.c@ == term_value(c)
                &&& w.r@ == (term_value(a) * term_value(b) + term_value(c)) % p()
                &&& final(ctx).holds() == (old(ctx).holds() && term_value(a) < p() && term_value(b)
                    < p() && term_value(c) < p())
            },
    {
        if ctx.offset >= ctx.capacity {
            return Err(Error::NotEnoughRowsAvailable);
        }
        let row = ctx.offset;
        let av = term_u64(&a);
        let bv = term_u64(&b);
        let cv = term_u64(&c);
        assert((av as int) * (bv as int) + (cv as int) <= u128::MAX) by (nonlinear_arith)
            requires
                av <= u64::MAX,
                bv <= u64::MAX,
                cv <= u64::MAX,
        ;
        let sum: u128 = (av as u128) * (bv as u128) + (cv as u128);
        let rv = (sum % (GOLDILOCKS_MODULUS as u128)) as u64;
        let in_range = av < GOLDILOCKS_MODULUS && bv < GOLDILOCKS_MODULUS && cv < GOLDILOCKS_MODULUS;
        ctx.offset = row + 1;
        ctx.holds = ctx.holds && in_range;
        Ok(
            ArithmeticAssigned {
                a: AssignedValue { row, value: av },
                b: AssignedValue { row, value: bv },
                c: AssignedValue { row, value: cv },
                r: AssignedValue { row, value: rv },
            },
        )
    }

    /// Places the constant `v` in a fixed cell.
    pub fn assign_fixed(&self, ctx: &mut RegionCtx, v: u64) -> (r: Result<AssignedValue, Error>)
        ensures
            region_step(*old(ctx), *final(ctx), 1, r is Ok),
            r is Err ==> *final(ctx) == *old(ctx),
            r matches Ok(w) ==> w@ == v && final(ctx).holds() == old(ctx).holds(),
    {
        if ctx.offset >= ctx.capacity {
            return Err(Error::NotEnoughRowsAvailable);
        }
        let row = ctx.offset;
        ctx.offset = row + 1;
        Ok(AssignedValue { row, value: v })
    }

    /// Places the witness `v` in a fresh cell, range-checked.
    pub fn assign_value(&self, ctx: &mut RegionCtx, v: u64) -> (r: Result<AssignedValue, Error>)
        ensures
            region_step(*old(ctx), *final(ctx), 1, r is Ok),
            r is Err ==> *final(ctx) == *old(ctx),
            r matches Ok(w) ==> w@ == v && final(ctx).holds() == (old(ctx).holds() && v < p()),
    {
        if ctx.offset >= ctx.capacity {
            return Err(Error::NotEnoughRowsAvailable);
        }
        let row = ctx.offset;
        ctx.offset = row + 1;
        ctx.holds = ctx.holds && v < GOLDILOCKS_MODULUS;
        Ok(AssignedValue { row, value: v })
    }

    /// Constrains two cells to be equal; this takes no row.
    pub fn assert_equal(&self, ctx: &mut RegionCtx, a: &AssignedValue, b: &AssignedValue) -> (r:
        Result<(), Error>)
        ensures
            r is Ok,
            region_step(*old(ctx), *final(ctx), 0, true),
            final(ctx).holds() == (old(ctx).holds() && a@ == b@),
    {
        proof {
            use_type_invariant(&*ctx);
        }
        ctx.holds = ctx.holds && a.value == b.value;
        Ok(())
    }

    /// Loads the range-check table. Loading it a second time leaves the
    /// circuit unsatisfiable.
    pub fn load_table(&self, ctx: &mut RegionCtx) -> (r: Result<(), Error>)
        ensures
            r is Ok,
            final(ctx).rows_used() == old(ctx).rows_used(),
            final(ctx).row_capacity() == old(ctx).row_capacity(),
            final(ctx).table_loaded(),
            final(ctx).holds() == (old(ctx).holds() && !old(ctx).table_loaded()),
    {
        proof {
            use_type_invariant(&*ctx);
        }
        ctx.holds = ctx.holds && !ctx.table_loaded;
        ctx.table_loaded = true;
        Ok(())
    }
}

} // verus!

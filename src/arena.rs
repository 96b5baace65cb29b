//! The handle arena: caller-visible integer handles for the cells of a
//! witness store. A handle is a cell's position; positions are dense and
//! assigned once, so a handle is valid exactly when it is below the number of
//! committed cells.
use vstd::arithmetic::power2::pow2;
use vstd::prelude::*;
use vstd::string::StringSliceAdditionalSpecFns;

use crate::codec::{lemma_hi_lo_unique, HiLo};
use crate::decimal::{decimal_value, is_decimal, parse_decimal};
use crate::error::Error;
use crate::store::{cell_values, native_modulus, WitnessStore};

verus! {

/// A committed cell as the arena hands it out: its position and host value.
#[derive(Clone, Copy, Debug, PartialEq, Eq, Structural)]
pub struct Witness {
    pub position: usize,
    pub value: HiLo,
}

/// `w` is the cell of `s` at its position, with that cell's value.
pub open spec fn is_entry(s: WitnessStore, w: Witness) -> bool {
    w.position < cell_values(s).len() && w.value.value() == cell_values(s)[w.position as int]
}

/// What `externalize` returns: the position of a committed cell, and
/// `Uncommitted` for anything else.
pub open spec fn externalized(s: WitnessStore, w: Witness) -> Result<usize, Error> {
    if is_entry(s, w) {
        Ok(w.position)
    } else {
        Err(Error::Uncommitted)
    }
}

impl WitnessStore {
    /// The number of committed cells; the valid handles are those below it.
    pub fn committed(&self) -> (r: usize)
        ensures
            r == cell_values(*self).len(),
    {
        self.committed_count()
    }

    /// The cell at `handle`, or `OutOfRange` when no cell has been committed
    /// there.
    pub fn resolve(&self, handle: usize) -> (r: Result<Witness, Error>)
        ensures
            r is Ok <==> handle < cell_values(*self).len(),
            r is Ok ==> r->Ok_0.position == handle && is_entry(*self, r->Ok_0),
            r is Err ==> r->Err_0 == Error::OutOfRange,
    {
        if handle < self.committed_count() {
            let value = self.cell_value(handle);
            Ok(Witness { position: handle, value })
        } else {
            Err(Error::OutOfRange)
        }
    }

    /// `resolve` on each handle, in order; `OutOfRange` on the first handle
    /// that names no cell, with no partial result.
    pub fn resolve_many(&self, handles: &Vec<usize>) -> (r: Result<Vec<Witness>, Error>)
        ensures
            r is Ok <==> forall|i: int| 0 <= i < handles@.len() ==> handles@[i] < cell_values(*self).len(),
            r is Ok ==> r->Ok_0@.len() == handles@.len() && forall|i: int|
                0 <= i < handles@.len() ==> (#[trigger] r->Ok_0@[i]).position == handles@[i]
                    && is_entry(*self, r->Ok_0@[i]),
            r is Err ==> r->Err_0 == Error::OutOfRange,
    {
        let mut out: Vec<Witness> = Vec::new();
        let mut i: usize = 0;
        while i < handles.len()
            invariant
                i <= handles@.len(),
                out@.len() == i,
                forall|j: int| 0 <= j < i ==> handles@[j] < cell_values(*self).len(),
                forall|j: int|
                    0 <= j < i ==> (#[trigger] out@[j]).position == handles@[j] && is_entry(*self, out@[j]),
            decreases handles@.len() - i,
        {
            match self.resolve(handles[i]) {
                Ok(w) => out.push(w),
                Err(e) => {
                    return Err(e);
                },
            }
            i = i + 1;
        }
        Ok(out)
    }

    /// The position of a committed cell; `Uncommitted` for a value that is
    /// not the cell of this store at its position.
    pub fn externalize(&self, w: &Witness) -> (r: Result<usize, Error>)
        ensures
            r == externalized(*self, *w),
    {
        if w.position < self.committed_count() {
            let value = self.cell_value(w.position);
            proof {
                if w.value.value() == value.value() {
                    lemma_hi_lo_unique(w.value, value);
                }
            }
            if value.hi == w.value.hi && value.lo == w.value.lo {
                return Ok(w.position);
            }
        }
        Err(Error::Uncommitted)
    }

    /// `externalize` on each value, in order; `Uncommitted` on the first one
    /// that is not a committed cell, with no partial result.
    pub fn externalize_many(&self, ws: &Vec<Witness>) -> (r: Result<Vec<usize>, Error>)
        ensures
            r is Ok <==> forall|i: int| 0 <= i < ws@.len() ==> is_entry(*self, #[trigger] ws@[i]),
            r is Ok ==> r->Ok_0@.len() == ws@.len() && forall|i: int|
                0 <= i < ws@.len() ==> #[trigger] r->Ok_0@[i] == ws@[i].position,
            r is Err ==> r->Err_0 == Error::Uncommitted,
    {
        let mut out: Vec<usize> = Vec::new();
        let mut i: usize = 0;
        while i < ws.len()
            invariant
                i <= ws@.len(),
                out@.len() == i,
                forall|j: int| 0 <= j < i ==> is_entry(*self, #[trigger] ws@[j]),
                forall|j: int| 0 <= j < i ==> #[trigger] out@[j] == ws@[j].position,
            decreases ws@.len() - i,
        {
            match self.externalize(&ws[i]) {
                Ok(h) => out.push(h),
                Err(e) => {
                    return Err(e);
                },
            }
            i = i + 1;
        }
        Ok(out)
    }

    /// Commits `v` as a new witness cell and hands it out. A value that is
    /// not below the native modulus is `ModulusViolation`, and commits nothing.
    pub fn commit_witness(&mut self, v: HiLo) -> (r: Result<Witness, Error>)
        ensures
            v.value() >= native_modulus() <==> r == Err::<Witness, Error>(Error::ModulusViolation),
            v.value() >= native_modulus() ==> cell_values(*final(self)) == cell_values(*old(self)),
            v.value() < native_modulus() ==> cell_values(*final(self)) == cell_values(*old(self)).push(
                v.value() as int,
            ),
            r is Ok ==> r->Ok_0.position == cell_values(*old(self)).len() && r->Ok_0.value == v
                && is_entry(*final(self), r->Ok_0),
            r is Err ==> r->Err_0 == Error::ModulusViolation || r->Err_0 == Error::Uncommitted,
            crate::store::same_setup(*old(self), *final(self)),
            crate::store::satisfied(*final(self)) == crate::store::satisfied(*old(self)),
            crate::store::records_positions(*old(self)) ==> r != Err::<Witness, Error>(Error::Uncommitted),
    {
        if !crate::codec::below_modulus(&v, &crate::store::native_field_modulus()) {
            return Err(Error::ModulusViolation);
        }
        match self.load_witness(v) {
            Some(position) => Ok(Witness { position, value: v }),
            None => Err(Error::Uncommitted),
        }
    }

    /// Commits `v` as a new constant cell and hands it out. A value that is
    /// not below the native modulus is `ModulusViolation`, and commits nothing.
    pub fn commit_constant(&mut self, v: HiLo) -> (r: Result<Witness, Error>)
        ensures
            v.value() >= native_modulus() <==> r == Err::<Witness, Error>(Error::ModulusViolation),
            v.value() >= native_modulus() ==> cell_values(*final(self)) == cell_values(*old(self)),
            v.value() < native_modulus() ==> cell_values(*final(self)) == cell_values(*old(self)).push(
                v.value() as int,
            ),
            r is Ok ==> r->Ok_0.position == cell_values(*old(self)).len() && r->Ok_0.value == v
                && is_entry(*final(self), r->Ok_0),
            r is Err ==> r->Err_0 == Error::ModulusViolation || r->Err_0 == Error::Uncommitted,
            crate::store::same_setup(*old(self), *final(self)),
            crate::store::satisfied(*final(self)) == crate::store::satisfied(*old(self)),
            crate::store::records_positions(*old(self)) ==> r != Err::<Witness, Error>(Error::Uncommitted),
    {
        if !crate::codec::below_modulus(&v, &crate::store::native_field_modulus()) {
            return Err(Error::ModulusViolation);
        }
        match self.load_constant(v) {
            Some(position) => Ok(Witness { position, value: v }),
            None => Err(Error::Uncommitted),
        }
    }
}

impl WitnessStore {
    /// Commits the decimal number `s` as a new witness cell.
    /// `MalformedBigInteger` when `s` is not a decimal number below `2^256`,
    /// `ModulusViolation` when it is not below the native modulus; on both,
    /// nothing is committed.
    pub fn commit_witness_decimal(&mut self, s: &str) -> (r: Result<Witness, Error>)
        ensures
            r == Err::<Witness, Error>(Error::MalformedBigInteger) <==> !(is_decimal(s.spec_bytes())
                && decimal_value(s.spec_bytes()) < pow2(256)),
            r == Err::<Witness, Error>(Error::ModulusViolation) <==> is_decimal(s.spec_bytes())
                && native_modulus() <= decimal_value(s.spec_bytes()) < pow2(256),
            r is Err && r->Err_0 != Error::Uncommitted ==> cell_values(*final(self)) == cell_values(
                *old(self),
            ),
            r is Ok ==> r->Ok_0.value.value() == decimal_value(s.spec_bytes()) && r->Ok_0.position
                == cell_values(*old(self)).len() && is_entry(*final(self), r->Ok_0),
            r is Err ==> r->Err_0 == Error::MalformedBigInteger || r->Err_0 == Error::ModulusViolation
                || r->Err_0 == Error::Uncommitted,
            is_decimal(s.spec_bytes()) && decimal_value(s.spec_bytes()) < native_modulus() ==> cell_values(
                *final(self),
            ) == cell_values(*old(self)).push(decimal_value(s.spec_bytes()) as int),
            crate::store::satisfied(*final(self)) == crate::store::satisfied(*old(self)),
            crate::store::same_setup(*old(self), *final(self)),
            crate::store::records_positions(*old(self)) ==> r != Err::<Witness, Error>(Error::Uncommitted),
    {
        proof {
            crate::codec::lemma_value_bound(crate::store::native_modulus_halves());
        }
        match parse_decimal(s) {
            Ok(v) => self.commit_witness(v),
            Err(e) => Err(e),
        }
    }

    /// Commits the decimal number `s` as a new constant cell, with the same
    /// failures as `commit_witness_decimal`.
    pub fn commit_constant_decimal(&mut self, s: &str) -> (r: Result<Witness, Error>)
        ensures
            r == Err::<Witness, Error>(Error::MalformedBigInteger) <==> !(is_decimal(s.spec_bytes())
                && decimal_value(s.spec_bytes()) < pow2(256)),
            r == Err::<Witness, Error>(Error::ModulusViolation) <==> is_decimal(s.spec_bytes())
                && native_modulus() <= decimal_value(s.spec_bytes()) < pow2(256),
            r is Err && r->Err_0 != Error::Uncommitted ==> cell_values(*final(self)) == cell_values(
                *old(self),
            ),
            r is Ok ==> r->Ok_0.value.value() == decimal_value(s.spec_bytes()) && r->Ok_0.position
                == cell_values(*old(self)).len() && is_entry(*final(self), r->Ok_0),
            r is Err ==> r->Err_0 == Error::MalformedBigInteger || r->Err_0 == Error::ModulusViolation
                || r->Err_0 == Error::Uncommitted,
            is_decimal(s.spec_bytes()) && decimal_value(s.spec_bytes()) < native_modulus() ==> cell_values(
                *final(self),
            ) == cell_values(*old(self)).push(decimal_value(s.spec_bytes()) as int),
            crate::store::satisfied(*final(self)) == crate::store::satisfied(*old(self)),
            crate::store::same_setup(*old(self), *final(self)),
            crate::store::records_positions(*old(self)) ==> r != Err::<Witness, Error>(Error::Uncommitted),
    {
        proof {
            crate::codec::lemma_value_bound(crate::store::native_modulus_halves());
        }
        match parse_decimal(s) {
            Ok(v) => self.commit_constant(v),
            Err(e) => Err(e),
        }
    }
}

/// Handle stability: a value that `resolve` handed out for handle `i`
/// externalizes back to `i`.
pub proof fn lemma_handle_stability(s: WitnessStore, i: usize, w: Witness)
    requires
        w.position == i,
        is_entry(s, w),
    ensures
        externalized(s, w) == Ok::<usize, Error>(i),
{
}

/// Out-of-range rejection: on a store with `n` committed cells no value at
/// position `n` is an entry, so nothing resolves there or externalizes from it.
pub proof fn lemma_out_of_range(s: WitnessStore, w: Witness)
    requires
        w.position >= cell_values(s).len(),
    ensures
        !is_entry(s, w),
        externalized(s, w) == Err::<usize, Error>(Error::Uncommitted),
{
}

/// Commits keep earlier entries: a value that was an entry before a store
/// grew is an entry after.
pub proof fn lemma_entries_persist(s: WitnessStore, t: WitnessStore, w: Witness)
    requires
        crate::store::grows(s, t),
        is_entry(s, w),
    ensures
        is_entry(t, w),
        externalized(t, w) == externalized(s, w),
{
}

} // verus!

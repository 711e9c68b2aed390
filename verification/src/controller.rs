//! The top-level controller: owns the primality table, the pixel buffer and
//! the last-known surface size, and replaces them wholesale whenever the
//! surface reports a new size. The display loop around it only polls the
//! surface and presents the buffer.
use vstd::prelude::*;
use crate::render::indices_ok;
use crate::render::spec_layout;
use crate::render::vec_to_spiral_layout;
use crate::sieve::primes_up_to;
use crate::sieve::sieve_gen;
use crate::spiral::spiral_coords;
use crate::spiral::spiral_step_count;
use crate::table::PrimeTable;

verus! {

/// The renderer asked the table for an entry past its end although the table
/// covered the whole enclosing square: the size reconciliation is broken.
/// Callers must treat this as a defect and stop, not clamp.
#[derive(Debug, Clone, Copy, PartialEq, Eq)]
pub enum UlamError {
    ContractViolation,
}

/// Surface sides the controller accepts; the cap keeps the enclosing square's
/// area within the pixel grid that a buffer index can address.
pub open spec fn size_ok(w: int, h: int) -> bool {
    1 <= w <= 46340 && 1 <= h <= 46340
}

/// The sieve bound the controller maintains for a surface: the area of the
/// enclosing square, and never below the smallest bound a sieve accepts.
pub open spec fn required_bound(w: int, h: int) -> int {
    if spiral_step_count(w, h) >= 2 {
        spiral_step_count(w, h)
    } else {
        2
    }
}

/// A sieve up to `b` keeps all its interim arithmetic within `usize`.
pub open spec fn bound_fits(b: int) -> bool {
    &&& (b / 2) * (b / 2) <= usize::MAX as int
    &&& b + b / 2 <= usize::MAX as int
}

/// A surface size the controller can serve on this machine.
pub open spec fn size_fits(w: int, h: int) -> bool {
    size_ok(w, h) && bound_fits(required_bound(w, h))
}

/// Decides `size_fits` at run time, so that an unverified caller can test the
/// machine limits before handing a size to the controller.
pub fn size_supported(w: usize, h: usize) -> (r: bool)
    ensures
        r == size_fits(w as int, h as int),
{
    if w < 1 || w > 46340 || h < 1 || h > 46340 {
        return false;
    }
    let m: u128 = if w > h {
        w as u128
    } else {
        h as u128
    };
    assert(m * m <= 46340 * 46340) by (nonlinear_arith)
        requires
            1 <= m <= 46340,
    ;
    let b: u128 = if m * m >= 2 {
        m * m
    } else {
        2
    };
    assert(b == required_bound(w as int, h as int));
    assert((b / 2) * (b / 2) <= 0xFFFFFFFFFFFFFFFF) by (nonlinear_arith)
        requires
            b <= 46340 * 46340,
    ;
    (b / 2) * (b / 2) <= usize::MAX as u128 && b + b / 2 <= usize::MAX as u128
}

/// The controller's owned state: the growable primality table, the pixel
/// buffer shown every frame, and the size both were last computed for.
pub struct SpiralApp {
    pub table: PrimeTable,
    pub buf: Vec<u32>,
    pub last_w: usize,
    pub last_h: usize,
}

impl SpiralApp {
    /// The controller's invariant: the table is a correct primality table at
    /// least as large as the enclosing square of the last-known size, every
    /// reconciled spiral index lands inside it, and the buffer is exactly the
    /// rendering of that table at that size.
    pub open spec fn wf(&self) -> bool {
        &&& size_ok(self.last_w as int, self.last_h as int)
        &&& self.table@ == primes_up_to(self.table@.len() as int)
        &&& self.table@.len() >= required_bound(self.last_w as int, self.last_h as int)
        &&& indices_ok(
            spiral_coords(self.last_w as int, self.last_h as int),
            self.last_w as int,
            self.last_h as int,
            self.table@.len() as int,
        )
        &&& self.buf@ == spec_layout(
            self.table@,
            spiral_coords(self.last_w as int, self.last_h as int),
            self.last_w as int,
            self.last_h as int,
        )
    }

    /// Builds the controller for an initial surface size: sieves up to the
    /// enclosing square's area and renders the first buffer.
    pub fn new(w: usize, h: usize) -> (r: Result<SpiralApp, UlamError>)
        requires
            size_fits(w as int, h as int),
        ensures
            match r {
                Ok(app) => app.wf() && app.last_w == w && app.last_h == h
                    && app.table@.len() == required_bound(w as int, h as int),
                Err(_) => !indices_ok(
                    spiral_coords(w as int, h as int),
                    w as int,
                    h as int,
                    required_bound(w as int, h as int),
                ),
            },
    {
        let needed = required_len(w, h);
        let table = sieve_gen(needed);
        match vec_to_spiral_layout(&table, w, h) {
            Some(buf) => Ok(SpiralApp { table, buf, last_w: w, last_h: h }),
            None => Err(UlamError::ContractViolation),
        }
    }

    /// Reacts to the size the surface reports this frame. On a change it
    /// regenerates the table when the new enclosing square outgrows it, and
    /// recomputes the buffer; otherwise everything is reused unchanged. The
    /// table only ever grows, and regrowing changes no earlier primality
    /// answer.
    pub fn on_frame(&mut self, w: usize, h: usize) -> (r: Result<(), UlamError>)
        requires
            old(self).wf(),
            size_fits(w as int, h as int),
        ensures
            final(self).wf(),
            match r {
                Ok(_) => final(self).last_w == w && final(self).last_h == h
                    && final(self).table@.len() == (if required_bound(w as int, h as int)
                        > old(self).table@.len() {
                        required_bound(w as int, h as int)
                    } else {
                        old(self).table@.len() as int
                    })
                    && final(self).buf@ == spec_layout(
                        final(self).table@,
                        spiral_coords(w as int, h as int),
                        w as int,
                        h as int,
                    ),
                Err(_) => *final(self) == *old(self) && !indices_ok(
                    spiral_coords(w as int, h as int),
                    w as int,
                    h as int,
                    if required_bound(w as int, h as int) > old(self).table@.len() {
                        required_bound(w as int, h as int)
                    } else {
                        old(self).table@.len() as int
                    },
                ),
            },
            final(self).table@.len() >= old(self).table@.len(),
            forall|i: int| 0 <= i < old(self).table@.len()
                ==> final(self).table@[i] == old(self).table@[i],
    {
        if self.last_w == w && self.last_h == h {
            return Ok(());
        }
        let needed = required_len(w, h);
        if needed > self.table.len() {
            let table = sieve_gen(needed);
            match vec_to_spiral_layout(&table, w, h) {
                Some(buf) => {
                    self.table = table;
                    self.buf = buf;
                    self.last_w = w;
                    self.last_h = h;
                    Ok(())
                },
                None => Err(UlamError::ContractViolation),
            }
        } else {
            match vec_to_spiral_layout(&self.table, w, h) {
                Some(buf) => {
                    self.buf = buf;
                    self.last_w = w;
                    self.last_h = h;
                    Ok(())
                },
                None => Err(UlamError::ContractViolation),
            }
        }
    }

    /// The pixel buffer to present this frame: `last_w * last_h` row-major
    /// color values.
    pub fn buffer(&self) -> (r: &Vec<u32>)
        ensures
            r@ == self.buf@,
    {
        &self.buf
    }
}

/// The table length `required_bound` asks for, computed at run time.
fn required_len(w: usize, h: usize) -> (r: usize)
    requires
        size_ok(w as int, h as int),
    ensures
        r == required_bound(w as int, h as int),
{
    let m: usize = if w > h {
        w
    } else {
        h
    };
    assert(m * m <= 46340 * 46340) by (nonlinear_arith)
        requires
            1 <= m <= 46340,
    ;
    let mm = m * m;
    if mm >= 2 {
        mm
    } else {
        2
    }
}

} // verus!

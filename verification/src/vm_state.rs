//! The run-time state of the execution engine: a fixed tape of 30,000
//! unsigned byte cells and a single data pointer.
//!
//! There are eight commands:
//! `+` : Increments the value at the current cell by one (wrapping).
//! `-` : Decrements the value at the current cell by one (wrapping).
//! `>` : Moves the data pointer to the next cell (cell on the right).
//! `<` : Moves the data pointer to the previous cell (cell on the left).
//! `.` : Hands out the byte value at the current cell.
//! `,` : Stores a single input byte into the current cell.
//! `[` and `]` act on the instruction pointer alone and are handled by the
//! dispatch loop, not here.
//!
//! Moving the pointer outside the tape is a fault; the move methods refuse
//! it and report failure instead, and the dispatch loop turns that into a
//! fatal run result.

use vstd::prelude::*;

use crate::semantics::{wrap_dec, wrap_inc, TAPE_LEN};

verus! {

/// The tape and data pointer of one run.
pub struct VMState {
    stack: Vec<u8>,
    p: usize,
}

impl VMState {
    /// The tape contents, as a sequence of exactly `TAPE_LEN` cells.
    pub closed spec fn cells(self) -> Seq<u8> {
        self.stack@
    }

    /// The data pointer.
    pub closed spec fn ptr(self) -> int {
        self.p as int
    }

    /// The tape always holds `TAPE_LEN` cells and the pointer stays on it.
    pub closed spec fn wf(self) -> bool {
        &&& self.stack@.len() == TAPE_LEN
        &&& self.p < TAPE_LEN
    }

    /// A fresh tape: every cell zero, the pointer on the first cell.
    pub fn new() -> (vm: VMState)
        ensures
            vm.wf(),
            vm.cells() == Seq::new(TAPE_LEN as nat, |i: int| 0u8),
            vm.ptr() == 0,
    {
        let stack: Vec<u8> = vec![0u8; TAPE_LEN];
        proof {
            assert(stack@ =~= Seq::new(TAPE_LEN as nat, |i: int| 0u8));
        }
        VMState { stack, p: 0 }
    }

    /// `+` : increments the current cell by one, wrapping 255 to 0.
    pub fn inc_val(&mut self)
        requires
            old(self).wf(),
        ensures
            final(self).wf(),
            final(self).cells() == old(self).cells().update(
                old(self).ptr(),
                wrap_inc(old(self).cells()[old(self).ptr()]),
            ),
            final(self).ptr() == old(self).ptr(),
    {
        let v = self.stack[self.p];
        self.stack[self.p] = if v == 255 {
            0
        } else {
            v + 1
        };
    }

    /// `-` : decrements the current cell by one, wrapping 0 to 255.
    pub fn dec_val(&mut self)
        requires
            old(self).wf(),
        ensures
            final(self).wf(),
            final(self).cells() == old(self).cells().update(
                old(self).ptr(),
                wrap_dec(old(self).cells()[old(self).ptr()]),
            ),
            final(self).ptr() == old(self).ptr(),
    {
        let v = self.stack[self.p];
        self.stack[self.p] = if v == 0 {
            255
        } else {
            v - 1
        };
    }

    /// `>` : moves the data pointer one cell to the right.  Reports `false`,
    /// and moves nothing, when the pointer already sits on the last cell.
    pub fn inc_ptr(&mut self) -> (moved: bool)
        requires
            old(self).wf(),
        ensures
            final(self).wf(),
            final(self).cells() == old(self).cells(),
            moved == (old(self).ptr() + 1 < TAPE_LEN),
            final(self).ptr() == if moved {
                old(self).ptr() + 1
            } else {
                old(self).ptr()
            },
    {
        if self.p < TAPE_LEN - 1 {
            self.p = self.p + 1;
            true
        } else {
            false
        }
    }

    /// `<` : moves the data pointer one cell to the left.  Reports `false`,
    /// and moves nothing, when the pointer already sits on the first cell.
    pub fn dec_ptr(&mut self) -> (moved: bool)
        requires
            old(self).wf(),
        ensures
            final(self).wf(),
            final(self).cells() == old(self).cells(),
            moved == (old(self).ptr() > 0),
            final(self).ptr() == if moved {
                old(self).ptr() - 1
            } else {
                old(self).ptr()
            },
    {
        if self.p > 0 {
            self.p = self.p - 1;
            true
        } else {
            false
        }
    }

    /// `.` : hands out the byte value at the current cell.
    pub fn store(&mut self) -> (v: u8)
        requires
            old(self).wf(),
        ensures
            *final(self) == *old(self),
            v == old(self).cells()[old(self).ptr()],
    {
        self.stack[self.p]
    }

    /// `,` : stores one input byte into the current cell.
    pub fn load(&mut self, input: u8)
        requires
            old(self).wf(),
        ensures
            final(self).wf(),
            final(self).cells() == old(self).cells().update(old(self).ptr(), input),
            final(self).ptr() == old(self).ptr(),
    {
        self.stack[self.p] = input;
    }
}

} // verus!

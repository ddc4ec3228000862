//! The loaded program and the instruction pointer that walks it, together
//! with the result value a run hands back to the caller.

use vstd::prelude::*;

verus! {

/// What one run produced: `status` is `None` after a normal run and a
/// short diagnostic otherwise, `std_out` holds every byte the program
/// emitted before it stopped.
#[derive(Debug)]
pub struct ProgOutput {
    pub status: Option<String>,
    pub std_out: Vec<u8>,
}

/// The instruction sequence of one run and the instruction pointer into it.
pub struct ProgState {
    program: Vec<u8>,
    pp: usize,
    len: usize,
}

impl ProgState {
    /// The instruction bytes of the loaded program.
    pub closed spec fn code(self) -> Seq<u8> {
        self.program@
    }

    /// The instruction pointer.
    pub closed spec fn pos(self) -> int {
        self.pp as int
    }

    /// The cached length always equals the program's length.
    pub closed spec fn wf(self) -> bool {
        self.len == self.program@.len()
    }

    /// Takes ownership of an instruction sequence; the instruction pointer
    /// starts at the first instruction.
    pub fn new(input: Vec<u8>) -> (ps: ProgState)
        ensures
            ps.wf(),
            ps.code() == input@,
            ps.pos() == 0,
    {
        let mut ret_val = ProgState { program: input, pp: 0, len: 0 };
        ret_val.set_len();
        ret_val
    }

    fn set_len(&mut self)
        ensures
            final(self).wf(),
            final(self).code() == old(self).code(),
            final(self).pos() == old(self).pos(),
    {
        self.len = self.program.len();
    }

    /// Advances the instruction pointer by one.
    pub fn inc_pp(&mut self)
        requires
            old(self).pos() < usize::MAX,
        ensures
            final(self).wf() == old(self).wf(),
            final(self).code() == old(self).code(),
            final(self).pos() == old(self).pos() + 1,
    {
        self.pp += 1;
    }

    /// The instruction pointer.
    pub fn get_pp(&self) -> (pp: usize)
        ensures
            pp == self.pos(),
    {
        self.pp
    }

    /// Moves the instruction pointer to `ptr`.
    pub fn set_pp(&mut self, ptr: usize)
        ensures
            final(self).wf() == old(self).wf(),
            final(self).code() == old(self).code(),
            final(self).pos() == ptr,
    {
        self.pp = ptr;
    }

    /// The number of instructions in the program.
    pub fn get_len(&self) -> (n: usize)
        requires
            self.wf(),
        ensures
            n == self.code().len(),
    {
        self.len
    }

    /// The instruction under the instruction pointer, or `None` when the
    /// pointer has run off the end of the program.
    pub fn get_val(&mut self) -> (val: Option<u8>)
        requires
            old(self).wf(),
        ensures
            *final(self) == *old(self),
            val == if old(self).pos() < old(self).code().len() {
                Some(old(self).code()[old(self).pos()])
            } else {
                None::<u8>
            },
    {
        if self.pp < self.len {
            Some(self.program[self.pp])
        } else {
            None
        }
    }
}

} // verus!

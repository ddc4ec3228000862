//! The mathematical model of the virtual machine: the instruction alphabet,
//! source filtering, bracket depth and matching, and the small-step machine
//! semantics that the execution engine is proved against.

use vstd::prelude::*;

verus! {

/// Number of cells on the tape.
pub const TAPE_LEN: usize = 30000;

/// `+` increments the current cell, wrapping.
pub const INC_CELL: u8 = 43;

/// `-` decrements the current cell, wrapping.
pub const DEC_CELL: u8 = 45;

/// `>` moves the data pointer one cell to the right.
pub const MOVE_RIGHT: u8 = 62;

/// `<` moves the data pointer one cell to the left.
pub const MOVE_LEFT: u8 = 60;

/// `.` appends the current cell to the output.
pub const OUTPUT: u8 = 46;

/// `,` reads one input byte into the current cell.
pub const INPUT: u8 = 44;

/// `[` jumps past the matching `]` when the current cell is zero.
pub const LOOP_OPEN: u8 = 91;

/// `]` jumps back to the matching `[` when the current cell is non-zero.
pub const LOOP_CLOSE: u8 = 93;

/// The eight instruction bytes; every other byte of a source text is a
/// comment and is dropped by the loader.
pub open spec fn is_instr(b: u8) -> bool {
    ||| b == INC_CELL
    ||| b == DEC_CELL
    ||| b == MOVE_RIGHT
    ||| b == MOVE_LEFT
    ||| b == OUTPUT
    ||| b == INPUT
    ||| b == LOOP_OPEN
    ||| b == LOOP_CLOSE
}

/// The instruction sequence of a source text: its instruction bytes, in
/// order, with every other byte dropped.
pub open spec fn filter_instrs(s: Seq<u8>) -> Seq<u8>
    decreases s.len(),
{
    if s.len() == 0 {
        Seq::empty()
    } else if is_instr(s.last()) {
        filter_instrs(s.drop_last()).push(s.last())
    } else {
        filter_instrs(s.drop_last())
    }
}

/// Appending one byte extends the filtered sequence by that byte exactly
/// when it is an instruction.
pub proof fn lemma_filter_instrs_push(s: Seq<u8>, b: u8)
    ensures
        filter_instrs(s.push(b)) == if is_instr(b) {
            filter_instrs(s).push(b)
        } else {
            filter_instrs(s)
        },
{
    assert(s.push(b).drop_last() =~= s);
    assert(s.push(b).last() == b);
}

/// Every byte of a filtered sequence is an instruction byte.
pub proof fn lemma_filter_instrs_only_instrs(s: Seq<u8>)
    ensures
        forall|i: int| 0 <= i < filter_instrs(s).len() ==> is_instr(#[trigger] filter_instrs(s)[i]),
    decreases s.len(),
{
    if s.len() > 0 {
        lemma_filter_instrs_only_instrs(s.drop_last());
        assert forall|i: int| 0 <= i < filter_instrs(s).len() implies is_instr(
            #[trigger] filter_instrs(s)[i],
        ) by {
            if i < filter_instrs(s.drop_last()).len() {
                assert(filter_instrs(s)[i] == filter_instrs(s.drop_last())[i]);
            } else {
                assert(filter_instrs(s)[i] == s.last());
            }
        }
    }
}

/// Filtering is idempotent: a sequence already made of the eight
/// instruction bytes alone is left exactly as it is, so re-filtering the
/// instruction sequence of any source text gives it back unchanged.
pub proof fn lemma_filter_instrs_idempotent(s: Seq<u8>)
    ensures
        filter_instrs(filter_instrs(s)) == filter_instrs(s),
    decreases s.len(),
{
    lemma_filter_instrs_only_instrs(s);
    lemma_filter_all_instrs(filter_instrs(s));
}

/// A sequence of instruction bytes filters to itself.
pub proof fn lemma_filter_all_instrs(t: Seq<u8>)
    requires
        forall|i: int| 0 <= i < t.len() ==> is_instr(#[trigger] t[i]),
    ensures
        filter_instrs(t) == t,
    decreases t.len(),
{
    if t.len() > 0 {
        lemma_filter_all_instrs(t.drop_last());
        assert(filter_instrs(t.drop_last()).push(t.last()) =~= t);
    }
}

/// The eight instruction characters.
pub open spec fn is_instr_char(c: char) -> bool {
    ||| c == '+'
    ||| c == '-'
    ||| c == '>'
    ||| c == '<'
    ||| c == '.'
    ||| c == ','
    ||| c == '['
    ||| c == ']'
}

/// Character-level filtering of a source text: the instruction characters,
/// in order, each as its (ASCII) byte.
pub open spec fn filter_instr_chars(s: Seq<char>) -> Seq<u8>
    decreases s.len(),
{
    if s.len() == 0 {
        Seq::empty()
    } else if is_instr_char(s[0]) {
        seq![(s[0] as u32) as u8] + filter_instr_chars(s.drop_first())
    } else {
        filter_instr_chars(s.drop_first())
    }
}

/// Filtering distributes over concatenation.
pub proof fn lemma_filter_instrs_concat(a: Seq<u8>, b: Seq<u8>)
    ensures
        filter_instrs(a + b) == filter_instrs(a) + filter_instrs(b),
    decreases b.len(),
{
    if b.len() == 0 {
        assert(a + b =~= a);
        assert(filter_instrs(a) + filter_instrs(b) =~= filter_instrs(a));
    } else {
        lemma_filter_instrs_concat(a, b.drop_last());
        assert((a + b).drop_last() =~= a + b.drop_last());
        assert((a + b).last() == b.last());
        if is_instr(b.last()) {
            assert((filter_instrs(a) + filter_instrs(b.drop_last())).push(b.last())
                =~= filter_instrs(a) + filter_instrs(b.drop_last()).push(b.last()));
        }
    }
}

/// Filtering a single byte keeps it exactly when it is an instruction.
proof fn lemma_filter_instrs_singleton(x: u8)
    ensures
        filter_instrs(seq![x]) == if is_instr(x) {
            seq![x]
        } else {
            Seq::<u8>::empty()
        },
{
    assert(seq![x].len() == 1);
    assert(seq![x].last() == x);
    assert(seq![x].drop_last() =~= Seq::<u8>::empty());
    assert(filter_instrs(Seq::<u8>::empty()) == Seq::<u8>::empty());
    assert(Seq::<u8>::empty().push(x) =~= seq![x]);
}

/// The UTF-8 encoding of one character filters to that character's byte
/// when it is an instruction character, and to nothing otherwise: every
/// byte of a multi-byte encoding has its top bit set, while the eight
/// instruction bytes are all ASCII.
proof fn lemma_filter_encode_scalar(c: char)
    ensures
        filter_instrs(vstd::utf8::encode_scalar(c as u32)) == if is_instr_char(c) {
            seq![(c as u32) as u8]
        } else {
            Seq::<u8>::empty()
        },
{
    let v = c as u32;
    let e = vstd::utf8::encode_scalar(v);
    if vstd::utf8::has_width_1_encoding(v) {
        let b = vstd::utf8::leading_byte_width_1(v);
        assert(b == (v as u8) && v < 128) by (bit_vector)
            requires
                v <= 0x7F,
                b == ((v & 0x7F) as u8),
        ;
        lemma_filter_instrs_singleton(b);
        assert(is_instr_char(c) ==> is_instr(b));
        if !is_instr_char(c) {
            assert(!is_instr(b)) by {
                assert(c != '+' && c != '-' && c != '>' && c != '<' && c != '.' && c != ',' && c
                    != '[' && c != ']');
            }
        }
    } else {
        // a multi-byte encoding: every byte is at least 0x80
        assert(forall|i: int| 0 <= i < e.len() ==> #[trigger] e[i] >= 0x80) by {
            let x2 = vstd::utf8::leading_byte_width_2(v);
            let x3 = vstd::utf8::leading_byte_width_3(v);
            let x4 = vstd::utf8::leading_byte_width_4(v);
            let y1 = vstd::utf8::last_continuation_byte(v);
            let y2 = vstd::utf8::second_last_continuation_byte(v);
            let y3 = vstd::utf8::third_last_continuation_byte(v);
            assert(x2 >= 0x80 && x3 >= 0x80 && x4 >= 0x80 && y1 >= 0x80 && y2 >= 0x80 && y3
                >= 0x80) by (bit_vector)
                requires
                    x2 == (0xC0 | ((v >> 6) & 0x1F) as u8),
                    x3 == (0xE0 | ((v >> 12) & 0x0F) as u8),
                    x4 == (0xF0 | ((v >> 18) & 0x7) as u8),
                    y1 == (0x80 | (v & 0x3F) as u8),
                    y2 == (0x80 | ((v >> 6) & 0x3F) as u8),
                    y3 == (0x80 | ((v >> 12) & 0x3F) as u8),
            ;
        }
        assert(!is_instr_char(c)) by {
            assert(v > 0x7F);
        }
        lemma_filter_high_bytes(e);
    }
}

/// A sequence of bytes with the top bit set filters to nothing.
proof fn lemma_filter_high_bytes(e: Seq<u8>)
    requires
        forall|i: int| 0 <= i < e.len() ==> #[trigger] e[i] >= 0x80,
    ensures
        filter_instrs(e) == Seq::<u8>::empty(),
    decreases e.len(),
{
    if e.len() > 0 {
        lemma_filter_high_bytes(e.drop_last());
        assert(!is_instr(e.last()));
    }
}

/// Byte-level filtering of the UTF-8 encoding of a text agrees with
/// character-level filtering of the text itself: the eight instruction
/// characters are one ASCII byte each, and no byte of any other
/// character's encoding can be mistaken for one of them.
pub proof fn lemma_filter_instrs_of_chars(s: Seq<char>)
    ensures
        filter_instrs(vstd::utf8::encode_utf8(s)) == filter_instr_chars(s),
    decreases s.len(),
{
    if s.len() == 0 {
        assert(vstd::utf8::encode_utf8(s) =~= Seq::<u8>::empty());
    } else {
        lemma_filter_instrs_of_chars(s.drop_first());
        lemma_filter_instrs_concat(
            vstd::utf8::encode_scalar(s[0] as u32),
            vstd::utf8::encode_utf8(s.drop_first()),
        );
        lemma_filter_encode_scalar(s[0]);
        if is_instr_char(s[0]) {
            assert(seq![(s[0] as u32) as u8] + filter_instr_chars(s.drop_first())
                =~= filter_instrs(vstd::utf8::encode_utf8(s)));
        } else {
            assert(Seq::<u8>::empty() + filter_instr_chars(s.drop_first())
                =~= filter_instr_chars(s.drop_first()));
        }
    }
}

/// Contribution of one instruction byte to the bracket nesting depth.
pub open spec fn bracket_delta(b: u8) -> int {
    if b == LOOP_OPEN {
        1
    } else if b == LOOP_CLOSE {
        -1
    } else {
        0
    }
}

/// Bracket nesting depth of the prefix `t[0..k]`: opens minus closes.
pub open spec fn depth(t: Seq<u8>, k: int) -> int
    recommends
        0 <= k <= t.len(),
    decreases k,
{
    if k <= 0 {
        0
    } else {
        depth(t, k - 1) + bracket_delta(t[k - 1])
    }
}

/// Some prefix of `t` holds more closes than opens: a `]` arrives while no
/// `[` is pending.
pub open spec fn has_unmatched_close(t: Seq<u8>) -> bool {
    exists|k: int| 0 <= k <= t.len() && #[trigger] depth(t, k) < 0
}

/// Every close has a pending open, and no open is left pending at the end.
pub open spec fn balanced(t: Seq<u8>) -> bool {
    &&& !has_unmatched_close(t)
    &&& depth(t, t.len() as int) == 0
}

/// The open bracket at `i` and the close bracket at `j` form a matched
/// pair: the depth returns to its value at `i` right after `j`, and stays
/// strictly above it in between.
pub open spec fn is_match(t: Seq<u8>, i: int, j: int) -> bool {
    &&& 0 <= i < j < t.len()
    &&& t[i] == LOOP_OPEN
    &&& t[j] == LOOP_CLOSE
    &&& depth(t, j + 1) == depth(t, i)
    &&& forall|m: int| i < m <= j ==> #[trigger] depth(t, m) > depth(t, i)
}

/// A well-formed jump table for the instruction sequence `t`: every open
/// bracket points at its matching close, every close at its matching open,
/// and every other entry points at itself.
pub open spec fn wf_jumps(t: Seq<u8>, jmp: Seq<usize>) -> bool {
    &&& jmp.len() == t.len()
    &&& forall|i: int|
        0 <= i < t.len() && t[i] == LOOP_OPEN ==> is_match(t, i, #[trigger] jmp[i] as int)
    &&& forall|j: int|
        0 <= j < t.len() && t[j] == LOOP_CLOSE ==> is_match(t, #[trigger] jmp[j] as int, j)
    &&& forall|i: int|
        0 <= i < t.len() && t[i] != LOOP_OPEN && t[i] != LOOP_CLOSE ==> #[trigger] jmp[i] as int
            == i
}

/// Appending a byte leaves the depth of every existing prefix unchanged.
pub proof fn lemma_depth_push(t: Seq<u8>, b: u8, k: int)
    requires
        0 <= k <= t.len(),
    ensures
        depth(t.push(b), k) == depth(t, k),
    decreases k,
{
    if k > 0 {
        lemma_depth_push(t, b, k - 1);
        assert(t.push(b)[k - 1] == t[k - 1]);
    }
}

/// A matched pair stays matched when the sequence is extended.
pub proof fn lemma_is_match_push(t: Seq<u8>, b: u8, i: int, j: int)
    requires
        is_match(t, i, j),
    ensures
        is_match(t.push(b), i, j),
{
    let u = t.push(b);
    lemma_depth_push(t, b, i);
    lemma_depth_push(t, b, j + 1);
    assert forall|m: int| i < m <= j implies #[trigger] depth(u, m) > depth(u, i) by {
        lemma_depth_push(t, b, m);
    }
}

/// An open bracket has at most one matching close.
pub proof fn lemma_match_close_unique(t: Seq<u8>, i: int, j1: int, j2: int)
    requires
        is_match(t, i, j1),
        is_match(t, i, j2),
    ensures
        j1 == j2,
{
    if j1 < j2 {
        assert(depth(t, j1 + 1) > depth(t, i));
    } else if j2 < j1 {
        assert(depth(t, j2 + 1) > depth(t, i));
    }
}

/// A close bracket has at most one matching open.
pub proof fn lemma_match_open_unique(t: Seq<u8>, i1: int, i2: int, j: int)
    requires
        is_match(t, i1, j),
        is_match(t, i2, j),
    ensures
        i1 == i2,
{
    if i1 < i2 {
        assert(depth(t, i2) > depth(t, i1));
        assert(depth(t, j + 1) == depth(t, i1));
    } else if i2 < i1 {
        assert(depth(t, i1) > depth(t, i2));
        assert(depth(t, j + 1) == depth(t, i2));
    }
}

/// The jump table of an instruction sequence is unique: matching pins every
/// bracket entry, and every other entry points at itself.
pub proof fn lemma_wf_jumps_unique(t: Seq<u8>, j1: Seq<usize>, j2: Seq<usize>)
    requires
        wf_jumps(t, j1),
        wf_jumps(t, j2),
    ensures
        j1 == j2,
{
    assert forall|i: int| 0 <= i < t.len() implies j1[i] == j2[i] by {
        if t[i] == LOOP_OPEN {
            lemma_match_close_unique(t, i, j1[i] as int, j2[i] as int);
        } else if t[i] == LOOP_CLOSE {
            lemma_match_open_unique(t, j1[i] as int, j2[i] as int, i);
        }
    }
    assert(j1 =~= j2);
}

/// The jump table is a perfect involutive matching: following a bracket's
/// entry and then that bracket's own entry leads back to where it began.
pub proof fn lemma_jumps_involutive(t: Seq<u8>, jmp: Seq<usize>)
    requires
        wf_jumps(t, jmp),
    ensures
        forall|i: int|
            0 <= i < t.len() && (t[i] == LOOP_OPEN || t[i] == LOOP_CLOSE) ==> jmp[
                #[trigger] jmp[i] as int
            ] as int == i,
{
    assert forall|i: int|
        0 <= i < t.len() && (t[i] == LOOP_OPEN || t[i] == LOOP_CLOSE) implies jmp[
        #[trigger] jmp[i] as int
    ] as int == i by {
        if t[i] == LOOP_OPEN {
            let j = jmp[i] as int;
            assert(is_match(t, i, j));
            lemma_match_open_unique(t, i, jmp[j] as int, j);
        } else {
            let j = jmp[i] as int;
            assert(is_match(t, j, i));
            lemma_match_close_unique(t, j, jmp[j] as int, i);
        }
    }
}

/// How a run ended, or that it is still going.
pub enum MachStatus {
    /// The machine has not halted yet.
    Running,
    /// The instruction pointer ran off the end of the program.
    Done,
    /// `>` was executed on the last tape cell.
    FaultOverflow,
    /// `<` was executed on the first tape cell.
    FaultUnderflow,
}

/// The whole state of a run: tape, data pointer, instruction pointer,
/// output collected so far, and whether the run has ended.
pub ghost struct MachState {
    pub tape: Seq<u8>,
    pub dp: int,
    pub ip: int,
    pub out: Seq<u8>,
    pub status: MachStatus,
}

/// The state every run starts from: a zeroed tape, both pointers at zero,
/// no output.
pub open spec fn init_state() -> MachState {
    MachState {
        tape: Seq::new(TAPE_LEN as nat, |i: int| 0u8),
        dp: 0,
        ip: 0,
        out: Seq::empty(),
        status: MachStatus::Running,
    }
}

/// Increment a cell, wrapping 255 around to 0.
pub open spec fn wrap_inc(v: u8) -> u8 {
    if v == 255 {
        0
    } else {
        (v + 1) as u8
    }
}

/// Decrement a cell, wrapping 0 around to 255.
pub open spec fn wrap_dec(v: u8) -> u8 {
    if v == 0 {
        255
    } else {
        (v - 1) as u8
    }
}

/// One step of the machine over program `code` with jump table `jmp`.
///
/// A halted state is absorbing.  When the instruction pointer is past the
/// end, the machine halts with `Done`.  Otherwise the instruction under the
/// pointer is dispatched; each instruction advances the instruction pointer
/// by one, except that a taken bracket jump moves it to one past the
/// matching bracket.  `,` reads from the run's input stream; a run carries
/// no input bytes, and at end of input a zero byte is stored.
pub open spec fn step(code: Seq<u8>, jmp: Seq<usize>, st: MachState) -> MachState {
    if !(st.status is Running) {
        st
    } else if !(0 <= st.ip < code.len()) {
        MachState { status: MachStatus::Done, ..st }
    } else {
        let b = code[st.ip];
        if b == INC_CELL {
            MachState { tape: st.tape.update(st.dp, wrap_inc(st.tape[st.dp])), ip: st.ip + 1, ..st }
        } else if b == DEC_CELL {
            MachState { tape: st.tape.update(st.dp, wrap_dec(st.tape[st.dp])), ip: st.ip + 1, ..st }
        } else if b == MOVE_RIGHT {
            if st.dp + 1 < TAPE_LEN {
                MachState { dp: st.dp + 1, ip: st.ip + 1, ..st }
            } else {
                MachState { status: MachStatus::FaultOverflow, ..st }
            }
        } else if b == MOVE_LEFT {
            if st.dp > 0 {
                MachState { dp: st.dp - 1, ip: st.ip + 1, ..st }
            } else {
                MachState { status: MachStatus::FaultUnderflow, ..st }
            }
        } else if b == OUTPUT {
            MachState { out: st.out.push(st.tape[st.dp]), ip: st.ip + 1, ..st }
        } else if b == INPUT {
            MachState { tape: st.tape.update(st.dp, 0u8), ip: st.ip + 1, ..st }
        } else if b == LOOP_OPEN {
            if st.tape[st.dp] == 0 {
                MachState { ip: jmp[st.ip] + 1, ..st }
            } else {
                MachState { ip: st.ip + 1, ..st }
            }
        } else if b == LOOP_CLOSE {
            if st.tape[st.dp] != 0 {
                MachState { ip: jmp[st.ip] + 1, ..st }
            } else {
                MachState { ip: st.ip + 1, ..st }
            }
        } else {
            MachState { ip: st.ip + 1, ..st }
        }
    }
}

/// The machine state after `n` steps from `st`.
pub open spec fn steps(code: Seq<u8>, jmp: Seq<usize>, st: MachState, n: nat) -> MachState
    decreases n,
{
    if n == 0 {
        st
    } else {
        step(code, jmp, steps(code, jmp, st, (n - 1) as nat))
    }
}

/// The engine executes at most this many machine steps in one run; no
/// physically realisable run reaches the bound.
pub const STEP_BUDGET: u64 = u64::MAX;

/// The state a run of `code` under `jmp` ends in: the machine is stepped
/// from the initial state until it halts, or until the step budget is
/// spent.  Because a halted state is absorbing, this is the halting state
/// of every run that halts within the budget.
pub open spec fn machine_result(code: Seq<u8>, jmp: Seq<usize>) -> MachState {
    steps(code, jmp, init_state(), STEP_BUDGET as nat)
}

/// Once the machine has halted, further steps change nothing.
pub proof fn lemma_steps_absorbing(code: Seq<u8>, jmp: Seq<usize>, st: MachState, n: nat, m: nat)
    requires
        n <= m,
        !(steps(code, jmp, st, n).status is Running),
    ensures
        steps(code, jmp, st, m) == steps(code, jmp, st, n),
    decreases m,
{
    if m > n {
        lemma_steps_absorbing(code, jmp, st, n, (m - 1) as nat);
    }
}

/// Incrementing a cell `n` times adds `n` modulo 256.
pub open spec fn iter_wrap_inc(v: u8, n: nat) -> u8
    decreases n,
{
    if n == 0 {
        v
    } else {
        wrap_inc(iter_wrap_inc(v, (n - 1) as nat))
    }
}

/// A repeated increment lands on the start value plus the count, modulo
/// the cell size.
pub proof fn lemma_iter_wrap_inc(v: u8, n: nat)
    ensures
        iter_wrap_inc(v, n) as int == (v + n) % 256,
    decreases n,
{
    if n == 0 {
        assert((v as int) % 256 == v as int);
    } else {
        lemma_iter_wrap_inc(v, (n - 1) as nat);
        assert((v + n) % 256 == ((v + n - 1) % 256 + 1) % 256) by {
            let a = v + n - 1;
            assert(a >= 0);
            vstd::arithmetic::div_mod::lemma_mod_adds(a, 1, 256);
        }
    }
}

/// Incrementing a cell 256 times returns it to its start value, and
/// decrementing a zero cell wraps around to 255.
pub proof fn lemma_cell_wrap_around(v: u8)
    ensures
        iter_wrap_inc(v, 256) == v,
        wrap_dec(0) == 255,
{
    lemma_iter_wrap_inc(v, 256);
    assert((v + 256) % 256 == v as int) by {
        vstd::arithmetic::div_mod::lemma_mod_self_0(256);
        vstd::arithmetic::div_mod::lemma_mod_adds(v as int, 256, 256);
        assert((v as int) % 256 == v as int);
    }
}

/// A tape fault halts the machine on the spot and throws nothing away:
/// moving left from the first cell or right from the last cell faults
/// deterministically, and the tape, the data pointer and every output byte
/// already buffered stay exactly as they were.
pub proof fn lemma_fault_preserves_output(code: Seq<u8>, jmp: Seq<usize>, st: MachState)
    requires
        st.status is Running,
        0 <= st.ip < code.len(),
        code[st.ip] == MOVE_RIGHT && st.dp == TAPE_LEN - 1 || code[st.ip] == MOVE_LEFT && st.dp
            == 0,
    ensures
        step(code, jmp, st).status is FaultOverflow <==> code[st.ip] == MOVE_RIGHT,
        step(code, jmp, st).status is FaultUnderflow <==> code[st.ip] == MOVE_LEFT,
        step(code, jmp, st).out == st.out,
        step(code, jmp, st).tape == st.tape,
        step(code, jmp, st).dp == st.dp,
{
}

/// A loop whose guard cell is already zero never executes its body: the
/// step lands one past the matching close bracket and touches neither the
/// tape nor the output.
pub proof fn lemma_zero_guard_skips_body(code: Seq<u8>, jmp: Seq<usize>, st: MachState)
    requires
        st.status is Running,
        0 <= st.ip < code.len(),
        code[st.ip] == LOOP_OPEN,
        st.tape[st.dp] == 0,
    ensures
        step(code, jmp, st).ip == jmp[st.ip] + 1,
        step(code, jmp, st).tape == st.tape,
        step(code, jmp, st).dp == st.dp,
        step(code, jmp, st).out == st.out,
        step(code, jmp, st).status is Running,
{
}

} // verus!

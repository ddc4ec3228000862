//! The virtual machine: the loader that filters a source text and builds
//! the jump table, and the dispatch loop that executes the loaded program.

use vstd::prelude::*;
use vstd::slice::slice_to_vec;
use vstd::string::StringSliceAdditionalSpecFns;

use crate::prog_state::{ProgOutput, ProgState};
use crate::semantics::{
    balanced, bracket_delta, depth, filter_instrs, has_unmatched_close, init_state, is_match, lemma_depth_push, lemma_filter_instrs_push, lemma_is_match_push,
    lemma_steps_absorbing, lemma_wf_jumps_unique, machine_result, step, steps, wf_jumps, MachState,
    MachStatus, DEC_CELL, INC_CELL, INPUT, LOOP_CLOSE, LOOP_OPEN, MOVE_LEFT, MOVE_RIGHT, OUTPUT,
    STEP_BUDGET,
};
use crate::vm_state::VMState;

verus! {

/// Why the loader refused a source text.
#[derive(Clone, Copy, Debug, PartialEq, Eq, Structural)]
pub enum LoadError {
    /// A `[` was never closed.
    UnmatchedOpen,
    /// A `]` arrived with no `[` pending.
    UnmatchedClose,
}

/// The Brainfuck VM: tape state, program state, and the jump table that
/// links every loop bracket with its partner.
pub struct VM {
    vms: VMState,
    prg: ProgState,
    jmps: Vec<usize>,
}

/// The machine state the engine's run-time values stand for while a run is
/// still going.
spec fn live_state(vms: VMState, prg: ProgState, out: Seq<u8>) -> MachState {
    MachState {
        tape: vms.cells(),
        dp: vms.ptr(),
        ip: prg.pos(),
        out: out,
        status: MachStatus::Running,
    }
}

/// What the dispatch loop promises of the run result: the output is the
/// output of the machine run, and the status names how the machine run
/// ended.
pub open spec fn output_matches(code: Seq<u8>, jmp: Seq<usize>, output: ProgOutput) -> bool {
    let m = machine_result(code, jmp);
    &&& output.std_out@ == m.out
    &&& (m.status is Done ==> output.status is None)
    &&& (m.status is FaultOverflow ==> (output.status matches Some(s) && s@ == "Tape overflow"@))
    &&& (m.status is FaultUnderflow ==> (output.status matches Some(s) && s@ == "Tape underflow"@))
    &&& (m.status is Running ==> (output.status matches Some(s) && s@ == "Step limit reached"@))
}

/// A pending open bracket recorded by the loader: it sits at `pos`, at
/// bracket depth `level`, and the depth stays strictly above `level` from
/// there to the end of the text scanned so far.
spec fn pending_open_ok(t: Seq<u8>, pos: int, level: int) -> bool {
    &&& 0 <= pos < t.len()
    &&& t[pos] == LOOP_OPEN
    &&& depth(t, pos) == level
    &&& forall|m: int| pos < m <= t.len() ==> #[trigger] depth(t, m) > level
}

/// The loader's stack of pending opens: entry `s` is the pending open at
/// depth `s`, and the stack is exactly as tall as the current depth.
spec fn pending_stack_ok(t: Seq<u8>, stk: Seq<usize>) -> bool {
    &&& forall|s: int| 0 <= s < stk.len() ==> pending_open_ok(t, #[trigger] stk[s] as int, s)
    &&& stk.len() == depth(t, t.len() as int)
}

/// The jump table built so far: every open bracket not still pending is
/// matched, every close bracket is matched, and every other entry points
/// at itself.
spec fn partial_jumps_ok(t: Seq<u8>, stk: Seq<usize>, jt: Seq<usize>) -> bool {
    &&& jt.len() == t.len()
    &&& forall|i: int|
        0 <= i < t.len() && t[i] == LOOP_OPEN && !stk.contains(i as usize) ==> is_match(
            t,
            i,
            #[trigger] jt[i] as int,
        )
    &&& forall|j: int|
        0 <= j < t.len() && t[j] == LOOP_CLOSE ==> is_match(t, #[trigger] jt[j] as int, j)
    &&& forall|i: int|
        0 <= i < t.len() && t[i] != LOOP_OPEN && t[i] != LOOP_CLOSE ==> #[trigger] jt[i] as int
            == i
}

/// The loader's byte-level contract read at the character level: the
/// instruction sequence of a source string is the character-level
/// filtering of its text.
pub proof fn lemma_source_filter_chars(input: &str)
    ensures
        filter_instrs(input.spec_bytes()) == crate::semantics::filter_instr_chars(input@),
{
    crate::semantics::lemma_filter_instrs_of_chars(input@);
}

/// Appending one byte creates an unmatched close exactly when the text
/// already had one, or the new byte drives the depth below zero.
proof fn lemma_unmatched_close_push(t: Seq<u8>, b: u8)
    ensures
        has_unmatched_close(t.push(b)) == (has_unmatched_close(t) || depth(t, t.len() as int)
            + bracket_delta(b) < 0),
{
    let u = t.push(b);
    assert(u[t.len() as int] == b);
    assert(depth(u, t.len() as int) == depth(t, t.len() as int)) by {
        lemma_depth_push(t, b, t.len() as int);
    }
    if has_unmatched_close(t) {
        let k = choose|k: int| 0 <= k <= t.len() && #[trigger] depth(t, k) < 0;
        lemma_depth_push(t, b, k);
        assert(depth(u, k) < 0);
    }
    if has_unmatched_close(u) {
        let k = choose|k: int| 0 <= k <= u.len() && #[trigger] depth(u, k) < 0;
        if k <= t.len() {
            lemma_depth_push(t, b, k);
            assert(depth(t, k) < 0);
        }
    }
    if depth(t, t.len() as int) + bracket_delta(b) < 0 {
        assert(depth(u, u.len() as int) < 0);
    }
}

impl VM {
    /// Filters the input string down to its instruction bytes and builds
    /// the bidirectional jump table for the loop brackets.
    ///
    /// Returns the instruction sequence together with its (unique)
    /// well-formed jump table when the brackets balance; otherwise reports
    /// an unmatched close if any prefix holds more `]` than `[`, and an
    /// unmatched open if instead some `[` is left pending at the end.
    pub fn parse(input: &str) -> (r: Result<(Vec<u8>, Vec<usize>), LoadError>)
        ensures
            ({
                let t = filter_instrs(input.spec_bytes());
                match r {
                    Ok(p) => balanced(t) && p.0@ == t && wf_jumps(t, p.1@),
                    Err(LoadError::UnmatchedClose) => has_unmatched_close(t),
                    Err(LoadError::UnmatchedOpen) => !has_unmatched_close(t) && depth(
                        t,
                        t.len() as int,
                    ) > 0,
                }
            }),
    {
        let bytes: Vec<u8> = slice_to_vec(input.as_bytes());
        let ghost src = bytes@;
        let n = bytes.len();
        let mut out_str: Vec<u8> = Vec::new();
        let mut jump_tbl: Vec<usize> = Vec::new();
        // "jmps" stores the positions of the opens whose closes are still pending.
        let mut jmps: Vec<usize> = Vec::new();
        let mut match_err = false;
        let mut ci: usize = 0;
        while ci < n
            invariant
                ci <= n,
                n == src.len(),
                bytes@ == src,
                out_str@ == filter_instrs(src.subrange(0, ci as int)),
                match_err == has_unmatched_close(out_str@),
                forall|s: int| 0 <= s < jmps@.len() ==> #[trigger] jmps@[s] < out_str@.len(),
                !match_err ==> pending_stack_ok(out_str@, jmps@),
                !match_err ==> partial_jumps_ok(out_str@, jmps@, jump_tbl@),
                match_err ==> jump_tbl@.len() == out_str@.len(),
            decreases n - ci,
        {
            let chr = bytes[ci];
            let ghost t = out_str@;
            let ghost stk = jmps@;
            let ghost jt = jump_tbl@;
            proof {
                assert(src.subrange(0, ci + 1) =~= src.subrange(0, ci as int).push(chr));
                lemma_filter_instrs_push(src.subrange(0, ci as int), chr);
            }
            if chr == INC_CELL || chr == DEC_CELL || chr == MOVE_RIGHT || chr == MOVE_LEFT || chr
                == OUTPUT || chr == INPUT {
                let idx = out_str.len();
                out_str.push(chr);
                jump_tbl.push(idx);
                proof {
                    let u = t.push(chr);
                    lemma_unmatched_close_push(t, chr);
                    lemma_depth_push(t, chr, t.len() as int);
                    if !match_err {
                        assert(depth(u, u.len() as int) == depth(t, t.len() as int));
                        assert forall|s: int| 0 <= s < jmps@.len() implies pending_open_ok(
                            u,
                            #[trigger] jmps@[s] as int,
                            s,
                        ) by {
                            assert(pending_open_ok(t, jmps@[s] as int, s));
                            assert forall|m: int| jmps@[s] < m <= u.len() implies #[trigger] depth(
                                u,
                                m,
                            ) > s by {
                                if m <= t.len() {
                                    lemma_depth_push(t, chr, m);
                                } else {
                                    assert(depth(u, m) == depth(t, t.len() as int));
                                }
                            }
                            lemma_depth_push(t, chr, jmps@[s] as int);
                        }
                        assert(pending_stack_ok(u, jmps@));
                        assert forall|i: int|
                            0 <= i < u.len() && u[i] == LOOP_OPEN && !jmps@.contains(
                                i as usize,
                            ) implies is_match(u, i, #[trigger] jump_tbl@[i] as int) by {
                            assert(u[i] == t[i]);
                            lemma_is_match_push(t, chr, i, jt[i] as int);
                        }
                        assert forall|j: int|
                            0 <= j < u.len() && u[j] == LOOP_CLOSE implies is_match(
                            u,
                            #[trigger] jump_tbl@[j] as int,
                            j,
                        ) by {
                            assert(u[j] == t[j]);
                            lemma_is_match_push(t, chr, jt[j] as int, j);
                        }
                        assert(partial_jumps_ok(u, jmps@, jump_tbl@));
                    }
                }
            } else if chr == LOOP_OPEN {
                let idx = out_str.len();
                out_str.push(chr);
                jump_tbl.push(idx);
                jmps.push(idx);
                proof {
                    let u = t.push(chr);
                    lemma_unmatched_close_push(t, chr);
                    lemma_depth_push(t, chr, t.len() as int);
                    if !match_err {
                        assert(depth(u, u.len() as int) == depth(t, t.len() as int) + 1);
                        assert forall|s: int| 0 <= s < jmps@.len() implies pending_open_ok(
                            u,
                            #[trigger] jmps@[s] as int,
                            s,
                        ) by {
                            if s < stk.len() {
                                assert(jmps@[s] == stk[s]);
                                assert(pending_open_ok(t, stk[s] as int, s));
                                assert forall|m: int| stk[s] < m <= u.len() implies #[trigger] depth(
                                    u,
                                    m,
                                ) > s by {
                                    if m <= t.len() {
                                        lemma_depth_push(t, chr, m);
                                    }
                                }
                                lemma_depth_push(t, chr, stk[s] as int);
                            } else {
                                assert(jmps@[s] == idx);
                                lemma_depth_push(t, chr, t.len() as int);
                                assert(depth(u, idx as int) == s);
                            }
                        }
                        assert(pending_stack_ok(u, jmps@));
                        assert forall|i: int|
                            0 <= i < u.len() && u[i] == LOOP_OPEN && !jmps@.contains(
                                i as usize,
                            ) implies is_match(u, i, #[trigger] jump_tbl@[i] as int) by {
                            assert(i < t.len() || i == t.len());
                            if i == t.len() {
                                assert(jmps@[jmps@.len() - 1] == idx);
                                assert(jmps@.contains(i as usize));
                            } else {
                                assert(u[i] == t[i]);
                                assert(!stk.contains(i as usize)) by {
                                    if stk.contains(i as usize) {
                                        let s = choose|s: int|
                                            0 <= s < stk.len() && stk[s] == i as usize;
                                        assert(jmps@[s] == i as usize);
                                        assert(jmps@.contains(i as usize));
                                    }
                                }
                                lemma_is_match_push(t, chr, i, jt[i] as int);
                            }
                        }
                        assert forall|j: int|
                            0 <= j < u.len() && u[j] == LOOP_CLOSE implies is_match(
                            u,
                            #[trigger] jump_tbl@[j] as int,
                            j,
                        ) by {
                            assert(u[j] == t[j]);
                            lemma_is_match_push(t, chr, jt[j] as int, j);
                        }
                        assert(partial_jumps_ok(u, jmps@, jump_tbl@));
                    }
                }
            } else if chr == LOOP_CLOSE {
                let idx = out_str.len();
                out_str.push(chr);
                jump_tbl.push(idx);
                let popped = jmps.pop();
                match popped {
                    Some(jmp) => {
                        jump_tbl[jmp] = idx;
                        jump_tbl[idx] = jmp;
                        proof {
                            let u = t.push(chr);
                            lemma_unmatched_close_push(t, chr);
                            lemma_depth_push(t, chr, t.len() as int);
                            if !match_err {
                                let o = jmp as int;
                                let c = idx as int;
                                let lvl = stk.len() - 1;
                                assert(stk[lvl] == jmp);
                                assert(pending_open_ok(t, o, lvl));
                                assert(depth(u, u.len() as int) == lvl);
                                // the new pair (o, c) is matched in u
                                assert(is_match(u, o, c)) by {
                                    lemma_depth_push(t, chr, o);
                                    assert forall|m: int| o < m <= c implies #[trigger] depth(u, m)
                                        > depth(u, o) by {
                                        lemma_depth_push(t, chr, m);
                                    }
                                }
                                // the surviving stack entries are still pending
                                assert forall|s: int| 0 <= s < jmps@.len() implies pending_open_ok(
                                    u,
                                    #[trigger] jmps@[s] as int,
                                    s,
                                ) by {
                                    assert(jmps@[s] == stk[s]);
                                    assert(pending_open_ok(t, stk[s] as int, s));
                                    assert forall|m: int| stk[s] < m <= u.len() implies #[trigger] depth(
                                        u,
                                        m,
                                    ) > s by {
                                        if m <= t.len() {
                                            lemma_depth_push(t, chr, m);
                                        }
                                    }
                                    lemma_depth_push(t, chr, stk[s] as int);
                                }
                                assert(jmps@ =~= stk.drop_last());
                                assert(pending_stack_ok(u, jmps@));
                                // distinct depths make the stack entries distinct,
                                // so o left the stack for good
                                assert(!jmps@.contains(jmp)) by {
                                    if jmps@.contains(jmp) {
                                        let s = choose|s: int|
                                            0 <= s < jmps@.len() && jmps@[s] == jmp;
                                        assert(pending_open_ok(u, o, s));
                                        assert(pending_open_ok(u, o, lvl));
                                    }
                                }
                                assert forall|i: int|
                                    0 <= i < u.len() && u[i] == LOOP_OPEN && !jmps@.contains(
                                        i as usize,
                                    ) implies is_match(u, i, #[trigger] jump_tbl@[i] as int) by {
                                    if i == o {
                                        assert(jump_tbl@[i] == idx);
                                        assert(is_match(u, o, c));
                                    } else if i < t.len() {
                                        assert(u[i] == t[i]);
                                        assert(!stk.contains(i as usize)) by {
                                            if stk.contains(i as usize) {
                                                let s = choose|s: int|
                                                    0 <= s < stk.len() && stk[s] == i as usize;
                                                assert(s < stk.len() - 1 ==> jmps@[s] == stk[s]);
                                                assert(s == stk.len() - 1 ==> stk[s] == jmp);
                                            }
                                        }
                                        assert(jump_tbl@[i] == jt[i]);
                                        lemma_is_match_push(t, chr, i, jt[i] as int);
                                    }
                                }
                                assert forall|j: int|
                                    0 <= j < u.len() && u[j] == LOOP_CLOSE implies is_match(
                                    u,
                                    #[trigger] jump_tbl@[j] as int,
                                    j,
                                ) by {
                                    if j == c {
                                        assert(jump_tbl@[j] == jmp);
                                        assert(is_match(u, o, c));
                                    } else {
                                        assert(u[j] == t[j]);
                                        assert(j != o);
                                        assert(jump_tbl@[j] == jt[j]);
                                        lemma_is_match_push(t, chr, jt[j] as int, j);
                                    }
                                }
                                assert(partial_jumps_ok(u, jmps@, jump_tbl@));
                            }
                        }
                    },
                    None => {
                        match_err = true;
                        proof {
                            let u = t.push(chr);
                            lemma_unmatched_close_push(t, chr);
                            if !has_unmatched_close(t) {
                                assert(stk.len() == 0);
                                assert(depth(t, t.len() as int) == 0);
                                assert(has_unmatched_close(u));
                            }
                        }
                    },
                }
            }
            ci = ci + 1;
        }
        proof {
            assert(src.subrange(0, n as int) =~= src);
        }
        if match_err {
            Err(LoadError::UnmatchedClose)
        } else if jmps.len() > 0 {
            Err(LoadError::UnmatchedOpen)
        } else {
            Ok((out_str, jump_tbl))
        }
    }

    /// The dispatch loop: steps the machine until the instruction pointer
    /// leaves the program, a tape fault strikes, or the step budget is
    /// spent, and hands back the collected output with the run's status.
    fn run(&mut self) -> (output: ProgOutput)
        requires
            old(self).vms.wf(),
            old(self).prg.wf(),
            wf_jumps(old(self).prg.code(), old(self).jmps@),
            old(self).vms.cells() == init_state().tape,
            old(self).vms.ptr() == 0,
            old(self).prg.pos() == 0,
        ensures
            output_matches(old(self).prg.code(), old(self).jmps@, output),
    {
        let ghost code = old(self).prg.code();
        let ghost jmp = old(self).jmps@;
        let std_out: Vec<u8> = Vec::new();
        let mut output = ProgOutput { status: None, std_out: std_out };
        let prog_len = self.prg.get_len();
        let mut fuel: u64 = STEP_BUDGET;
        let ghost mut nsteps: nat = 0;
        proof {
            assert(output.std_out@ =~= Seq::<u8>::empty());
            assert(live_state(self.vms, self.prg, output.std_out@) == init_state());
        }
        loop
            invariant_except_break
                self.vms.wf(),
                self.prg.wf(),
                self.prg.code() == code,
                self.jmps@ == jmp,
                wf_jumps(code, jmp),
                code.len() == prog_len,
                output.status is None,
                nsteps <= STEP_BUDGET,
                fuel == STEP_BUDGET - nsteps,
                steps(code, jmp, init_state(), nsteps) == live_state(
                    self.vms,
                    self.prg,
                    output.std_out@,
                ),
            ensures
                output_matches(code, jmp, output),
            decreases fuel,
        {
            let ghost pre = steps(code, jmp, init_state(), nsteps);
            if fuel == 0 {
                // the budget is spent while the machine is still running
                output.status = Some("Step limit reached".to_owned());
                proof {
                    assert(nsteps == STEP_BUDGET);
                }
                break;
            }
            // Get the program instruction, if there is one left to execute
            let prog_inst = self.prg.get_val();
            match prog_inst {
                None => {
                    // the instruction pointer has left the program: done
                    proof {
                        nsteps = nsteps + 1;
                        assert(steps(code, jmp, init_state(), nsteps) == step(code, jmp, pre));
                        assert(step(code, jmp, pre).status is Done);
                        lemma_steps_absorbing(
                            code,
                            jmp,
                            init_state(),
                            nsteps,
                            STEP_BUDGET as nat,
                        );
                    }
                    break;
                },
                Some(inst) => {
                    fuel = fuel - 1;
                    if inst == INC_CELL {
                        self.vms.inc_val();
                    } else if inst == DEC_CELL {
                        self.vms.dec_val();
                    } else if inst == MOVE_RIGHT {
                        if !self.vms.inc_ptr() {
                            output.status = Some("Tape overflow".to_owned());
                            proof {
                                nsteps = nsteps + 1;
                                assert(steps(code, jmp, init_state(), nsteps) == step(
                                    code,
                                    jmp,
                                    pre,
                                ));
                                assert(step(code, jmp, pre).status is FaultOverflow);
                                lemma_steps_absorbing(
                                    code,
                                    jmp,
                                    init_state(),
                                    nsteps,
                                    STEP_BUDGET as nat,
                                );
                            }
                            break;
                        }
                    } else if inst == MOVE_LEFT {
                        if !self.vms.dec_ptr() {
                            output.status = Some("Tape underflow".to_owned());
                            proof {
                                nsteps = nsteps + 1;
                                assert(steps(code, jmp, init_state(), nsteps) == step(
                                    code,
                                    jmp,
                                    pre,
                                ));
                                assert(step(code, jmp, pre).status is FaultUnderflow);
                                lemma_steps_absorbing(
                                    code,
                                    jmp,
                                    init_state(),
                                    nsteps,
                                    STEP_BUDGET as nat,
                                );
                            }
                            break;
                        }
                    } else if inst == INPUT {
                        // the run carries no input bytes; at end of input a
                        // zero byte is stored
                        self.vms.load(0);
                    } else if inst == OUTPUT {
                        let v = self.vms.store();
                        output.std_out.push(v);
                    } else if inst == LOOP_OPEN {
                        // jump past the matching bracket if the cell is zero
                        if self.vms.store() == 0 {
                            let jump_back = self.prg.get_pp();
                            let jump_to = self.jmps[jump_back];
                            self.prg.set_pp(jump_to);
                        }
                    } else if inst == LOOP_CLOSE {
                        // jump back to the matching bracket if the cell is non-zero
                        if self.vms.store() != 0 {
                            let pp = self.prg.get_pp();
                            let jump_to = self.jmps[pp];
                            self.prg.set_pp(jump_to);
                        }
                    }
                    // We'll increment our program pointer regardless
                    self.prg.inc_pp();
                    proof {
                        nsteps = nsteps + 1;
                        assert(steps(code, jmp, init_state(), nsteps) == step(code, jmp, pre));
                        assert(step(code, jmp, pre) == live_state(
                            self.vms,
                            self.prg,
                            output.std_out@,
                        ));
                    }
                },
            }
        }
        output
    }

    /// Runs the VM on the given source text: loads it, and when the
    /// brackets balance executes it from a fresh tape.
    ///
    /// On a load failure the status carries the diagnostic and the output
    /// is empty; otherwise the output and status are exactly those of the
    /// machine run of the filtered program under its (unique) jump table.
    pub fn run_with_input(input: &str) -> (r: ProgOutput)
        ensures
            ({
                let t = filter_instrs(input.spec_bytes());
                &&& has_unmatched_close(t) ==> (r.status matches Some(m) && m@ == "Unmatched ]"@)
                    && r.std_out@ == Seq::<u8>::empty()
                &&& (!has_unmatched_close(t) && depth(t, t.len() as int) > 0) ==> (
                r.status matches Some(m) && m@ == "Unmatched ["@) && r.std_out@ == Seq::<
                    u8,
                >::empty()
                &&& balanced(t) ==> {
                    &&& exists|jv: Seq<usize>| wf_jumps(t, jv)
                    &&& forall|jv: Seq<usize>| wf_jumps(t, jv) ==> output_matches(t, jv, r)
                }
            }),
    {
        let ghost t = filter_instrs(input.spec_bytes());
        match VM::parse(input) {
            Ok((prg_str, jump_tbl)) => {
                let ghost jv = jump_tbl@;
                let mut bf_prog = VM {
                    vms: VMState::new(),
                    prg: ProgState::new(prg_str),
                    jmps: jump_tbl,
                };
                proof {
                    assert(bf_prog.vms.cells() =~= init_state().tape);
                }
                let output = bf_prog.run();
                proof {
                    assert forall|j2: Seq<usize>| wf_jumps(t, j2) implies output_matches(
                        t,
                        j2,
                        output,
                    ) by {
                        lemma_wf_jumps_unique(t, j2, jv);
                    }
                }
                output
            },
            Err(e) => {
                let msg: &str = match e {
                    LoadError::UnmatchedClose => "Unmatched ]",
                    LoadError::UnmatchedOpen => "Unmatched [",
                };
                let r = ProgOutput { status: Some(msg.to_owned()), std_out: Vec::new() };
                proof {
                    assert(r.std_out@ =~= Seq::<u8>::empty());
                }
                r
            },
        }
    }
}

} // verus!

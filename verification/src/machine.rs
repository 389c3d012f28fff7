//! The executor: a machine that runs a validated program by small steps.
//!
//! The mathematical model is `step_spec`, one instruction of the fetch-
//! decode-execute loop over a `MachineState`, and `run_spec`, its iteration
//! up to a step budget or the end of the program. The executable `Machine`
//! is verified to follow that semantics step for step; `interpret` ties the
//! validator and the executor together.

use vstd::prelude::*;

use crate::brackets::balanced;
use crate::brackets::check_brackets;
use crate::brackets::depth;
use crate::brackets::lemma_balanced_validates;
use crate::brackets::reports_unmatched_at;
use crate::brackets::valid;
use crate::error::BfError;
use crate::error::BfErrorType;
use crate::matching::lemma_scan_close_finds;
use crate::matching::lemma_scan_close_ge;
use crate::matching::lemma_scan_open_finds;
use crate::matching::lemma_scan_open_le;
use crate::matching::scan_close;
use crate::matching::scan_open;

verus! {

/// The mathematical state of a run: the tape, the pointer, the program
/// counter, the input bytes not yet consumed, and the output bytes emitted
/// so far.
#[verifier::ext_equal]
pub ghost struct MachineState {
    pub cells: Seq<u8>,
    pub pointer: int,
    pub pc: int,
    pub input: Seq<u8>,
    pub output: Seq<u8>,
}

/// Pointer movement to the right: wraps from the last cell to cell 0.
pub open spec fn ptr_right(p: int, n: int) -> int {
    if p == n - 1 {
        0
    } else {
        p + 1
    }
}

/// Pointer movement to the left: wraps from cell 0 to the last cell.
pub open spec fn ptr_left(p: int, n: int) -> int {
    if p == 0 {
        n - 1
    } else {
        p - 1
    }
}

/// Cell increment with 8-bit wraparound: 255 becomes 0.
pub open spec fn cell_inc(v: u8) -> u8 {
    if v == 255 {
        0
    } else {
        (v + 1) as u8
    }
}

/// Cell decrement with 8-bit wraparound: 0 becomes 255.
pub open spec fn cell_dec(v: u8) -> u8 {
    if v == 0 {
        255
    } else {
        (v - 1) as u8
    }
}

/// The state a run starts from: a zeroed tape of `n` cells, pointer and
/// program counter at 0, the whole input ahead, no output yet.
pub open spec fn init_state(n: int, input: Seq<u8>) -> MachineState {
    MachineState {
        cells: Seq::new(n as nat, |j: int| 0u8),
        pointer: 0,
        pc: 0,
        input,
        output: Seq::empty(),
    }
}

/// Execution terminates when the program counter passes the program's end.
pub open spec fn is_halted(s: Seq<char>, st: MachineState) -> bool {
    st.pc >= s.len()
}

/// Well-formedness of a state with respect to a program: at least one cell,
/// the pointer on the tape, the program counter within `[0, len]`.
pub open spec fn wf_state(s: Seq<char>, st: MachineState) -> bool {
    &&& st.cells.len() >= 1
    &&& 0 <= st.pointer < st.cells.len()
    &&& 0 <= st.pc <= s.len()
}

/// One instruction of the fetch-decode-execute loop. Loop jumps land just
/// past the matching bracket, found by depth-counted scanning; every other
/// instruction advances the program counter by one. A `,` on exhausted input
/// stores 0.
pub open spec fn step_spec(s: Seq<char>, st: MachineState) -> MachineState
    recommends
        wf_state(s, st),
        !is_halted(s, st),
{
    let c = s[st.pc];
    let n = st.cells.len() as int;
    let v = st.cells[st.pointer];
    if c == '>' {
        MachineState { pointer: ptr_right(st.pointer, n), pc: st.pc + 1, ..st }
    } else if c == '<' {
        MachineState { pointer: ptr_left(st.pointer, n), pc: st.pc + 1, ..st }
    } else if c == '+' {
        MachineState { cells: st.cells.update(st.pointer, cell_inc(v)), pc: st.pc + 1, ..st }
    } else if c == '-' {
        MachineState { cells: st.cells.update(st.pointer, cell_dec(v)), pc: st.pc + 1, ..st }
    } else if c == '.' {
        MachineState { output: st.output.push(v), pc: st.pc + 1, ..st }
    } else if c == ',' {
        if st.input.len() > 0 {
            MachineState {
                cells: st.cells.update(st.pointer, st.input[0]),
                input: st.input.drop_first(),
                pc: st.pc + 1,
                ..st
            }
        } else {
            MachineState { cells: st.cells.update(st.pointer, 0u8), pc: st.pc + 1, ..st }
        }
    } else if c == '[' {
        if v == 0 {
            MachineState { pc: scan_close(s, st.pc + 1, 0) + 1, ..st }
        } else {
            MachineState { pc: st.pc + 1, ..st }
        }
    } else if c == ']' {
        if v != 0 {
            MachineState { pc: scan_open(s, st.pc - 1, 0) + 1, ..st }
        } else {
            MachineState { pc: st.pc + 1, ..st }
        }
    } else {
        MachineState { pc: st.pc + 1, ..st }
    }
}

/// The state after at most `fuel` instructions: iteration of `step_spec`,
/// stopping early when the machine halts.
pub open spec fn run_spec(s: Seq<char>, st: MachineState, fuel: nat) -> MachineState
    decreases fuel,
{
    if fuel == 0 || is_halted(s, st) {
        st
    } else {
        run_spec(s, step_spec(s, st), (fuel - 1) as nat)
    }
}

/// On a balanced program, one step keeps the state well-formed.
pub proof fn lemma_step_preserves_wf(s: Seq<char>, st: MachineState)
    requires
        balanced(s),
        wf_state(s, st),
        !is_halted(s, st),
    ensures
        wf_state(s, step_spec(s, st)),
{
    let c = s[st.pc];
    let v = st.cells[st.pointer];
    if c == '[' && v == 0 {
        assert(depth(s, st.pc + 1) == depth(s, st.pc) + 1);
        lemma_scan_close_finds(s, st.pc + 1, 0);
    } else if c == ']' && v != 0 {
        assert(depth(s, st.pc + 1) == depth(s, st.pc) - 1);
        lemma_scan_open_finds(s, st.pc - 1, 0);
    }
}

/// Running one more step extends the iteration, as long as the machine has
/// not yet halted.
proof fn lemma_run_spec_succ(s: Seq<char>, st: MachineState, fuel: nat)
    requires
        !is_halted(s, run_spec(s, st, fuel)),
    ensures
        run_spec(s, st, fuel + 1) == step_spec(s, run_spec(s, st, fuel)),
    decreases fuel,
{
    if is_halted(s, st) {
        assert(run_spec(s, st, fuel) == st);
        assert(false);
    } else if fuel == 0 {
        assert(run_spec(s, st, fuel) == st);
        assert(run_spec(s, st, 1) == run_spec(s, step_spec(s, st), 0));
        assert(run_spec(s, step_spec(s, st), 0) == step_spec(s, st));
    } else {
        lemma_run_spec_succ(s, step_spec(s, st), (fuel - 1) as nat);
        assert(run_spec(s, st, fuel + 1) == run_spec(s, step_spec(s, st), fuel));
        assert(run_spec(s, st, fuel) == run_spec(s, step_spec(s, st), (fuel - 1) as nat));
    }
}

/// Once halted, more fuel changes nothing.
proof fn lemma_run_spec_halt_absorbs(s: Seq<char>, st: MachineState, fuel: nat, more: nat)
    requires
        is_halted(s, run_spec(s, st, fuel)),
        fuel <= more,
    ensures
        run_spec(s, st, more) == run_spec(s, st, fuel),
    decreases fuel,
{
    if is_halted(s, st) {
        assert(run_spec(s, st, fuel) == st);
        assert(run_spec(s, st, more) == st);
    } else if fuel == 0 {
        assert(run_spec(s, st, fuel) == st);
        assert(false);
    } else {
        lemma_run_spec_halt_absorbs(s, step_spec(s, st), (fuel - 1) as nat, (more - 1) as nat);
    }
}

/// The pointer after `k` moves to the right on a tape of `n` cells.
pub open spec fn move_right_k(p: int, n: int, k: nat) -> int
    decreases k,
{
    if k == 0 {
        p
    } else {
        ptr_right(move_right_k(p, n, (k - 1) as nat), n)
    }
}

/// The pointer after `k` moves to the left on a tape of `n` cells.
pub open spec fn move_left_k(p: int, n: int, k: nat) -> int
    decreases k,
{
    if k == 0 {
        p
    } else {
        ptr_left(move_left_k(p, n, (k - 1) as nat), n)
    }
}

proof fn lemma_move_right_partial(p: int, n: int, k: nat)
    requires
        0 <= p < n,
        k <= n,
    ensures
        move_right_k(p, n, k) == (if p + k < n {
            p + k
        } else {
            p + k - n
        }),
    decreases k,
{
    if k > 0 {
        lemma_move_right_partial(p, n, (k - 1) as nat);
    }
}

proof fn lemma_move_left_partial(p: int, n: int, k: nat)
    requires
        0 <= p < n,
        k <= n,
    ensures
        move_left_k(p, n, k) == (if p - k >= 0 {
            p - k
        } else {
            p - k + n
        }),
    decreases k,
{
    if k > 0 {
        lemma_move_left_partial(p, n, (k - 1) as nat);
    }
}

/// Law: pointer movement is addition modulo `n`, and in particular cyclic
/// with period `n` — `n` moves in either direction return the pointer to its
/// starting cell, and one move in each direction undoes the other.
pub proof fn lemma_pointer_cycle(p: int, n: int)
    requires
        0 <= p < n,
    ensures
        move_right_k(p, n, n as nat) == p,
        move_left_k(p, n, n as nat) == p,
        ptr_left(ptr_right(p, n), n) == p,
        ptr_right(ptr_left(p, n), n) == p,
        ptr_right(p, n) == (p + 1) % n,
        ptr_left(p, n) == (p + n - 1) % n,
{
    lemma_move_right_partial(p, n, n as nat);
    lemma_move_left_partial(p, n, n as nat);
    assert((p + 1) % n == (if p == n - 1 {
        0int
    } else {
        p + 1
    })) by (nonlinear_arith)
        requires
            0 <= p < n,
    ;
    assert((p + n - 1) % n == (if p == 0 {
        n - 1
    } else {
        p - 1
    })) by (nonlinear_arith)
        requires
            0 <= p < n,
    ;
}

/// The cell value after `k` increments.
pub open spec fn inc_k(v: u8, k: nat) -> u8
    decreases k,
{
    if k == 0 {
        v
    } else {
        cell_inc(inc_k(v, (k - 1) as nat))
    }
}

/// The cell value after `k` decrements.
pub open spec fn dec_k(v: u8, k: nat) -> u8
    decreases k,
{
    if k == 0 {
        v
    } else {
        cell_dec(dec_k(v, (k - 1) as nat))
    }
}

proof fn lemma_inc_partial(v: u8, k: nat)
    requires
        k <= 256,
    ensures
        inc_k(v, k) as int == (if v + k < 256 {
            v + k
        } else {
            v + k - 256
        }),
    decreases k,
{
    if k > 0 {
        lemma_inc_partial(v, (k - 1) as nat);
    }
}

proof fn lemma_dec_partial(v: u8, k: nat)
    requires
        k <= 256,
    ensures
        dec_k(v, k) as int == (if v - k >= 0 {
            v - k
        } else {
            v - k + 256
        }),
    decreases k,
{
    if k > 0 {
        lemma_dec_partial(v, (k - 1) as nat);
    }
}

/// Law: cell values form a cycle of order 256 under increment and decrement
/// — 256 of either return the cell to its value, 255 incremented once is 0,
/// 0 decremented once is 255, and each operation undoes the other.
pub proof fn lemma_cell_cycle(v: u8)
    ensures
        inc_k(v, 256) == v,
        dec_k(v, 256) == v,
        cell_inc(255u8) == 0u8,
        cell_dec(0u8) == 255u8,
        cell_dec(cell_inc(v)) == v,
        cell_inc(cell_dec(v)) == v,
{
    lemma_inc_partial(v, 256);
    lemma_dec_partial(v, 256);
}

/// Law: a `[` reached on a zero cell skips its whole loop body in one step,
/// nested loops included. The jump target `j` is the textually matching `]`:
/// the depth stays strictly above the entry level throughout the body and
/// first returns to it just past `j`. The step lands just past `j` and
/// leaves tape, pointer, input and output untouched.
pub proof fn lemma_nested_loop_skip(s: Seq<char>, st: MachineState)
    requires
        balanced(s),
        wf_state(s, st),
        !is_halted(s, st),
        s[st.pc] == '[',
        st.cells[st.pointer] == 0,
    ensures
        ({
            let j = scan_close(s, st.pc + 1, 0);
            let st2 = step_spec(s, st);
            &&& st.pc < j < s.len()
            &&& s[j] == ']'
            &&& depth(s, j + 1) == depth(s, st.pc)
            &&& (forall|k: int| st.pc < k <= j ==> #[trigger] depth(s, k) > depth(s, st.pc))
            &&& st2 == (MachineState { pc: j + 1, ..st })
        }),
{
    assert(depth(s, st.pc + 1) == depth(s, st.pc) + 1);
    lemma_scan_close_finds(s, st.pc + 1, 0);
}

/// A program of `k` copies of the one instruction `c`.
pub open spec fn repeated(c: char, k: int) -> Seq<char> {
    Seq::new(k as nat, |i: int| c)
}

proof fn lemma_run_all_right(n: int, k: nat)
    requires
        1 <= n,
        k <= n,
    ensures
        ({
            let s = repeated('>', n);
            let st0 = init_state(n, Seq::empty());
            run_spec(s, st0, k) == (MachineState {
                pointer: move_right_k(0, n, k),
                pc: k as int,
                ..st0
            })
        }),
    decreases k,
{
    let s = repeated('>', n);
    let st0 = init_state(n, Seq::empty());
    if k > 0 {
        lemma_run_all_right(n, (k - 1) as nat);
        let prev = run_spec(s, st0, (k - 1) as nat);
        assert(!is_halted(s, prev));
        lemma_run_spec_succ(s, st0, (k - 1) as nat);
        assert(s[prev.pc] == '>');
        assert(step_spec(s, prev) =~= (MachineState {
            pointer: move_right_k(0, n, k),
            pc: k as int,
            ..st0
        }));
    }
}

proof fn lemma_run_all_left(n: int, k: nat)
    requires
        1 <= n,
        k <= n,
    ensures
        ({
            let s = repeated('<', n);
            let st0 = init_state(n, Seq::empty());
            run_spec(s, st0, k) == (MachineState {
                pointer: move_left_k(0, n, k),
                pc: k as int,
                ..st0
            })
        }),
    decreases k,
{
    let s = repeated('<', n);
    let st0 = init_state(n, Seq::empty());
    if k > 0 {
        lemma_run_all_left(n, (k - 1) as nat);
        let prev = run_spec(s, st0, (k - 1) as nat);
        assert(!is_halted(s, prev));
        lemma_run_spec_succ(s, st0, (k - 1) as nat);
        assert(s[prev.pc] == '<');
        assert(step_spec(s, prev) =~= (MachineState {
            pointer: move_left_k(0, n, k),
            pc: k as int,
            ..st0
        }));
    }
}

/// Law: on a tape of `n` cells, a program of `n` moves in one direction runs
/// to completion and returns the pointer to its starting cell, leaving the
/// tape untouched — pointer movement is addition modulo the tape size.
pub proof fn lemma_pointer_round_trip(n: int)
    requires
        1 <= n,
    ensures
        ({
            let st0 = init_state(n, Seq::empty());
            let fin_right = run_spec(repeated('>', n), st0, n as nat);
            let fin_left = run_spec(repeated('<', n), st0, n as nat);
            &&& is_halted(repeated('>', n), fin_right)
            &&& fin_right == (MachineState { pc: n, ..st0 })
            &&& is_halted(repeated('<', n), fin_left)
            &&& fin_left == (MachineState { pc: n, ..st0 })
        }),
{
    lemma_run_all_right(n, n as nat);
    lemma_run_all_left(n, n as nat);
    lemma_pointer_cycle(0, n);
    let st0 = init_state(n, Seq::empty());
    assert((MachineState { pointer: 0int, pc: n, ..st0 }) =~= (MachineState { pc: n, ..st0 }));
}

proof fn lemma_run_all_plus(m: int, k: nat)
    requires
        1 <= m,
        k <= m,
    ensures
        ({
            let s = repeated('+', m);
            let st0 = init_state(1, Seq::empty());
            run_spec(s, st0, k) == (MachineState {
                cells: st0.cells.update(0, inc_k(0u8, k)),
                pc: k as int,
                ..st0
            })
        }),
    decreases k,
{
    let s = repeated('+', m);
    let st0 = init_state(1, Seq::empty());
    if k == 0 {
        assert(st0.cells.update(0, inc_k(0u8, 0)) =~= st0.cells);
    } else {
        lemma_run_all_plus(m, (k - 1) as nat);
        let prev = run_spec(s, st0, (k - 1) as nat);
        assert(!is_halted(s, prev));
        lemma_run_spec_succ(s, st0, (k - 1) as nat);
        assert(s[prev.pc] == '+');
        assert(prev.cells[0] == inc_k(0u8, (k - 1) as nat));
        assert(prev.cells.update(0, inc_k(0u8, k)) =~= st0.cells.update(0, inc_k(0u8, k)));
        assert(step_spec(s, prev) =~= (MachineState {
            cells: st0.cells.update(0, inc_k(0u8, k)),
            pc: k as int,
            ..st0
        }));
    }
}

proof fn lemma_run_all_minus(m: int, k: nat)
    requires
        1 <= m,
        k <= m,
    ensures
        ({
            let s = repeated('-', m);
            let st0 = init_state(1, Seq::empty());
            run_spec(s, st0, k) == (MachineState {
                cells: st0.cells.update(0, dec_k(0u8, k)),
                pc: k as int,
                ..st0
            })
        }),
    decreases k,
{
    let s = repeated('-', m);
    let st0 = init_state(1, Seq::empty());
    if k == 0 {
        assert(st0.cells.update(0, dec_k(0u8, 0)) =~= st0.cells);
    } else {
        lemma_run_all_minus(m, (k - 1) as nat);
        let prev = run_spec(s, st0, (k - 1) as nat);
        assert(!is_halted(s, prev));
        lemma_run_spec_succ(s, st0, (k - 1) as nat);
        assert(s[prev.pc] == '-');
        assert(prev.cells[0] == dec_k(0u8, (k - 1) as nat));
        assert(prev.cells.update(0, dec_k(0u8, k)) =~= st0.cells.update(0, dec_k(0u8, k)));
        assert(step_spec(s, prev) =~= (MachineState {
            cells: st0.cells.update(0, dec_k(0u8, k)),
            pc: k as int,
            ..st0
        }));
    }
}

/// Law: a program of 256 increments, or 256 decrements, runs to completion
/// and leaves the tape exactly as it began — cell arithmetic is addition
/// modulo 256.
pub proof fn lemma_cell_round_trip()
    ensures
        ({
            let st0 = init_state(1, Seq::empty());
            let fin_plus = run_spec(repeated('+', 256), st0, 256);
            let fin_minus = run_spec(repeated('-', 256), st0, 256);
            &&& is_halted(repeated('+', 256), fin_plus)
            &&& fin_plus == (MachineState { pc: 256, ..st0 })
            &&& is_halted(repeated('-', 256), fin_minus)
            &&& fin_minus == (MachineState { pc: 256, ..st0 })
        }),
{
    lemma_run_all_plus(256, 256);
    lemma_run_all_minus(256, 256);
    lemma_cell_cycle(0u8);
    let st0 = init_state(1, Seq::empty());
    assert(st0.cells.update(0, inc_k(0u8, 256)) =~= st0.cells);
    assert(st0.cells.update(0, dec_k(0u8, 256)) =~= st0.cells);
    assert((MachineState { cells: st0.cells, pc: 256, ..st0 }) =~= (MachineState {
        pc: 256,
        ..st0
    }));
}

/// Law: a `]` reached on a nonzero cell jumps back in one step to just past
/// the textually matching `[`, nested loops included: the depth stays at or
/// above the loop-body level over the whole span and first drops below it at
/// the `[` itself. Tape, pointer, input and output are untouched.
pub proof fn lemma_loop_back(s: Seq<char>, st: MachineState)
    requires
        balanced(s),
        wf_state(s, st),
        !is_halted(s, st),
        s[st.pc] == ']',
        st.cells[st.pointer] != 0,
    ensures
        ({
            let j = scan_open(s, st.pc - 1, 0);
            let st2 = step_spec(s, st);
            &&& 0 <= j < st.pc
            &&& s[j] == '['
            &&& depth(s, j) == depth(s, st.pc) - 1
            &&& depth(s, j + 1) == depth(s, st.pc)
            &&& (forall|k2: int|
                j <= k2 < st.pc ==> #[trigger] depth(s, k2 + 1) >= depth(s, st.pc))
            &&& st2 == (MachineState { pc: j + 1, ..st })
        }),
{
    assert(depth(s, st.pc + 1) == depth(s, st.pc) - 1);
    lemma_scan_open_finds(s, st.pc - 1, 0);
}

/// The executor's state: a fixed-size tape of 8-bit cells, the cell pointer,
/// the program counter, the pending input and the output emitted so far.
pub struct Machine {
    pub cells: Vec<u8>,
    pub pointer: usize,
    pub pc: usize,
    pub input: Vec<u8>,
    pub output: Vec<u8>,
}

impl View for Machine {
    type V = MachineState;

    open spec fn view(&self) -> MachineState {
        MachineState {
            cells: self.cells@,
            pointer: self.pointer as int,
            pc: self.pc as int,
            input: self.input@,
            output: self.output@,
        }
    }
}

impl Machine {
    /// A fresh machine over `cells_size` zeroed cells, about to execute the
    /// first instruction, with `input` ahead of it.
    pub fn new(cells_size: usize, input: Vec<u8>) -> (m: Machine)
        requires
            cells_size >= 1,
        ensures
            m@ == init_state(cells_size as int, input@),
    {
        let mut cells: Vec<u8> = Vec::new();
        let mut i: usize = 0;
        while i < cells_size
            invariant
                i <= cells_size,
                cells@ == Seq::new(i as nat, |j: int| 0u8),
            decreases cells_size - i,
        {
            let ghost before = cells@;
            cells.push(0);
            proof {
                assert(cells@ =~= Seq::new((i + 1) as nat, |j: int| 0u8));
            }
            i += 1;
        }
        let m = Machine { cells, pointer: 0, pc: 0, input, output: Vec::new() };
        proof {
            assert(m@ =~= init_state(cells_size as int, m.input@));
        }
        m
    }

    /// Whether the program counter has passed the end of `program`.
    pub fn halted(&self, program: &Vec<char>) -> (r: bool)
        ensures
            r == is_halted(program@, self@),
    {
        self.pc >= program.len()
    }

    /// The output emitted so far.
    pub fn output(&self) -> (r: &Vec<u8>)
        ensures
            r@ == self@.output,
    {
        &self.output
    }

    /// The output emitted so far, surrendering the machine.
    pub fn into_output(self) -> (r: Vec<u8>)
        ensures
            r@ == self@.output,
    {
        self.output
    }

    /// Execute exactly one instruction, following `step_spec`.
    pub fn step(&mut self, program: &Vec<char>)
        requires
            balanced(program@),
            wf_state(program@, old(self)@),
            !is_halted(program@, old(self)@),
        ensures
            final(self)@ == step_spec(program@, old(self)@),
            wf_state(program@, final(self)@),
    {
        proof {
            lemma_step_preserves_wf(program@, old(self)@);
        }
        let ghost s = program@;
        let ghost pre = self@;
        proof {
            assert(program.len() == program@.len());
        }
        let c = program[self.pc];
        if c == '>' {
            if self.pointer == self.cells.len() - 1 {
                self.pointer = 0;
            } else {
                self.pointer = self.pointer + 1;
            }
            self.pc = self.pc + 1;
        } else if c == '<' {
            if self.pointer == 0 {
                self.pointer = self.cells.len() - 1;
            } else {
                self.pointer = self.pointer - 1;
            }
            self.pc = self.pc + 1;
        } else if c == '+' {
            let v = self.cells[self.pointer];
            if v == 255 {
                self.cells[self.pointer] = 0;
            } else {
                self.cells[self.pointer] = v + 1;
            }
            self.pc = self.pc + 1;
        } else if c == '-' {
            let v = self.cells[self.pointer];
            if v == 0 {
                self.cells[self.pointer] = 255;
            } else {
                self.cells[self.pointer] = v - 1;
            }
            self.pc = self.pc + 1;
        } else if c == '.' {
            let v = self.cells[self.pointer];
            self.output.push(v);
            self.pc = self.pc + 1;
        } else if c == ',' {
            if self.input.len() > 0 {
                let b = self.input.remove(0);
                self.cells[self.pointer] = b;
                proof {
                    assert(self.input@ =~= pre.input.drop_first());
                }
            } else {
                self.cells[self.pointer] = 0;
            }
            self.pc = self.pc + 1;
        } else if c == '[' {
            if self.cells[self.pointer] == 0 {
                proof {
                    assert(depth(s, pre.pc + 1) == depth(s, pre.pc) + 1);
                    lemma_scan_close_finds(s, pre.pc + 1, 0);
                }
                let ghost mm = scan_close(s, pre.pc + 1, 0);
                let mut k: usize = self.pc + 1;
                let mut d: usize = 0;
                while !(d == 0 && program[k] == ']')
                    invariant
                        s == program@,
                        s.len() <= usize::MAX,
                        pre.pc + 1 <= k as int <= mm,
                        mm < s.len(),
                        d <= k,
                        scan_close(s, k as int, d as int) == mm,
                    decreases mm - k,
                {
                    let ch = program[k];
                    proof {
                        if ch == '[' {
                            assert(scan_close(s, k as int, d as int) == scan_close(
                                s,
                                k as int + 1,
                                d as int + 1,
                            ));
                            lemma_scan_close_ge(s, k as int + 1, d as int + 1);
                        } else if ch == ']' {
                            assert(scan_close(s, k as int, d as int) == scan_close(
                                s,
                                k as int + 1,
                                d as int - 1,
                            ));
                            lemma_scan_close_ge(s, k as int + 1, d as int - 1);
                        } else {
                            assert(scan_close(s, k as int, d as int) == scan_close(
                                s,
                                k as int + 1,
                                d as int,
                            ));
                            lemma_scan_close_ge(s, k as int + 1, d as int);
                        }
                    }
                    if ch == '[' {
                        d = d + 1;
                    } else if ch == ']' {
                        d = d - 1;
                    }
                    k = k + 1;
                }
                self.pc = k + 1;
            } else {
                self.pc = self.pc + 1;
            }
        } else if c == ']' {
            if self.cells[self.pointer] != 0 {
                proof {
                    assert(depth(s, pre.pc + 1) == depth(s, pre.pc) - 1);
                    assert(depth(s, 0) == 0);
                    lemma_scan_open_finds(s, pre.pc - 1, 0);
                }
                let ghost mm = scan_open(s, pre.pc - 1, 0);
                let mut k: usize = self.pc - 1;
                let mut d: usize = 0;
                while !(d == 0 && program[k] == '[')
                    invariant
                        s == program@,
                        s.len() <= usize::MAX,
                        0 <= mm <= k as int,
                        k as int <= pre.pc - 1,
                        k < s.len(),
                        pre.pc <= s.len(),
                        k as int + d as int <= pre.pc - 1,
                        scan_open(s, k as int, d as int) == mm,
                    decreases k,
                {
                    let ch = program[k];
                    proof {
                        if ch == ']' {
                            assert(scan_open(s, k as int, d as int) == scan_open(
                                s,
                                k as int - 1,
                                d as int + 1,
                            ));
                            lemma_scan_open_le(s, k as int - 1, d as int + 1);
                        } else if ch == '[' {
                            assert(scan_open(s, k as int, d as int) == scan_open(
                                s,
                                k as int - 1,
                                d as int - 1,
                            ));
                            lemma_scan_open_le(s, k as int - 1, d as int - 1);
                        } else {
                            assert(scan_open(s, k as int, d as int) == scan_open(
                                s,
                                k as int - 1,
                                d as int,
                            ));
                            lemma_scan_open_le(s, k as int - 1, d as int);
                        }
                    }
                    if ch == ']' {
                        d = d + 1;
                    } else if ch == '[' {
                        d = d - 1;
                    }
                    k = k - 1;
                }
                self.pc = k + 1;
            } else {
                self.pc = self.pc + 1;
            }
        } else {
            self.pc = self.pc + 1;
        }
        proof {
            assert(self@ =~= step_spec(s, pre));
        }
    }

    /// Execute up to `max_steps` instructions, following `run_spec`, and
    /// report whether the program has halted.
    pub fn run(&mut self, program: &Vec<char>, max_steps: u64) -> (done: bool)
        requires
            balanced(program@),
            wf_state(program@, old(self)@),
        ensures
            final(self)@ == run_spec(program@, old(self)@, max_steps as nat),
            wf_state(program@, final(self)@),
            done == is_halted(program@, final(self)@),
    {
        let mut i: u64 = 0;
        while i < max_steps && self.pc < program.len()
            invariant
                i <= max_steps,
                balanced(program@),
                wf_state(program@, self@),
                self@ == run_spec(program@, old(self)@, i as nat),
            decreases max_steps - i,
        {
            proof {
                lemma_run_spec_succ(program@, old(self)@, i as nat);
            }
            self.step(program);
            i = i + 1;
        }
        proof {
            if i < max_steps {
                lemma_run_spec_halt_absorbs(program@, old(self)@, i as nat, max_steps as nat);
            }
        }
        self.pc >= program.len()
    }
}

/// Validate `program`, then execute it on a fresh tape of `cells_size`
/// zeroed cells with `input` ahead, for at most `max_steps` instructions.
///
/// Returns the error `check_brackets` reports when validation fails;
/// otherwise `Some` output of the halted run, or `None` if the run has not
/// halted within the step budget.
pub fn interpret(program: &Vec<char>, cells_size: usize, input: Vec<u8>, max_steps: u64) -> (r:
    Result<Option<Vec<u8>>, BfError>)
    requires
        cells_size >= 1,
    ensures
        r is Ok <==> valid(program@),
        r matches Err(e) ==> e.error_type == BfErrorType::UnmatchedBrackets
            && reports_unmatched_at(program@, e.location as int),
        r matches Ok(opt) ==> ({
            let fin = run_spec(program@, init_state(cells_size as int, input@), max_steps as nat);
            match opt {
                Some(out) => is_halted(program@, fin) && out@ == fin.output,
                None => !is_halted(program@, fin),
            }
        }),
{
    match check_brackets(program) {
        Err(e) => {
            return Err(e);
        },
        Ok(()) => {},
    }
    proof {
        lemma_balanced_validates(program@);
    }
    let mut m = Machine::new(cells_size, input);
    let done = m.run(program, max_steps);
    if done {
        Ok(Some(m.into_output()))
    } else {
        Ok(None)
    }
}

} // verus!

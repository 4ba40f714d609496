use vstd::prelude::*;

use vstd::arithmetic::div_mod::lemma_div_basics_2;
use vstd::arithmetic::div_mod::lemma_div_is_ordered;
use vstd::arithmetic::div_mod::lemma_div_is_ordered_by_denominator;
use vstd::arithmetic::div_mod::lemma_div_nonincreasing;
use vstd::arithmetic::div_mod::lemma_div_pos_is_pos;

use crate::errors::InterpreterError;
use crate::instructions::ByteCode;
use crate::state::Variable;

verus! {

/// The abstract machine state: the instruction pointer and the mixed
/// stack of anonymous operands and named variables, in push order.
pub ghost struct MachineState {
    pub ip: nat,
    pub stack: Seq<Variable>,
}

/// What one dispatch step does: either the machine moves on, or the
/// run halts with a result and the machine state it halted in.
pub ghost enum StepResult {
    Next(MachineState),
    Halt(Result<i32, InterpreterError>, MachineState),
}

/// Every run starts from instruction zero with an empty stack.
pub open spec fn initial_state() -> MachineState {
    MachineState { ip: 0, stack: Seq::empty() }
}

pub open spec fn anonymous(value: i32) -> Variable {
    Variable { identifier: None, value }
}

/// Forward scan: the value of the first cell at or after index `i`
/// that carries `id`.
pub open spec fn find_var_from(stack: Seq<Variable>, id: char, i: int) -> Option<i32>
    decreases stack.len() - i,
{
    if i < 0 || i >= stack.len() {
        None
    } else if stack[i].identifier == Some(id) {
        Some(stack[i].value)
    } else {
        find_var_from(stack, id, i + 1)
    }
}

/// The value of the first cell carrying `id`, scanning from the bottom.
pub open spec fn find_var(stack: Seq<Variable>, id: char) -> Option<i32> {
    find_var_from(stack, id, 0)
}

/// The write rule: if any cell carries `id`, every cell carrying `id`
/// takes the new value in place; otherwise a new binding is appended.
/// No cell is ever removed or reordered by a write.
pub open spec fn write_var(stack: Seq<Variable>, id: char, value: i32) -> Seq<Variable> {
    if find_var(stack, id) is Some {
        stack.map_values(
            (|c: Variable| if c.identifier == Some(id) {
                Variable { identifier: Some(id), value }
            } else {
                c
            }),
        )
    } else {
        stack.push(Variable { identifier: Some(id), value })
    }
}

/// The push rule: an anonymous cell always appends; a named cell goes
/// through the write rule.
pub open spec fn push_cell(stack: Seq<Variable>, identifier: Option<char>, value: i32) -> Seq<Variable> {
    match identifier {
        Some(id) => write_var(stack, id, value),
        None => stack.push(anonymous(value)),
    }
}

/// Two's-complement wraparound of `i32` addition.
pub open spec fn wrap_add(a: i32, b: i32) -> i32 {
    if a + b > i32::MAX {
        (a + b - 0x1_0000_0000) as i32
    } else if a + b < i32::MIN {
        (a + b + 0x1_0000_0000) as i32
    } else {
        (a + b) as i32
    }
}

/// Two's-complement wraparound of `i32` subtraction.
pub open spec fn wrap_sub(a: i32, b: i32) -> i32 {
    if a - b > i32::MAX {
        (a - b - 0x1_0000_0000) as i32
    } else if a - b < i32::MIN {
        (a - b + 0x1_0000_0000) as i32
    } else {
        (a - b) as i32
    }
}

/// Two's-complement wraparound of `i32` multiplication.
pub open spec fn wrap_mul(a: i32, b: i32) -> i32 {
    if (a * b) % 0x1_0000_0000 > i32::MAX {
        ((a * b) % 0x1_0000_0000 - 0x1_0000_0000) as i32
    } else {
        ((a * b) % 0x1_0000_0000) as i32
    }
}

/// Rust's truncating integer division, written over the Euclidean `/`
/// of specifications. Meaningful for `b != 0`.
pub open spec fn trunc_div(a: int, b: int) -> int {
    if a == 0 {
        0
    } else if a > 0 && b > 0 {
        a / b
    } else if a < 0 && b < 0 {
        (a * -1) / (b * -1)
    } else if a < 0 {
        ((a * -1) / b) * -1
    } else {
        (a / (b * -1)) * -1
    }
}

/// `i32` division as the engine performs it: the divisor is nonzero,
/// and the one quotient that overflows (`i32::MIN / -1`) wraps back to
/// `i32::MIN`.
pub open spec fn wrap_div(a: i32, b: i32) -> i32 {
    if a == i32::MIN && b == -1 {
        i32::MIN
    } else {
        trunc_div(a as int, b as int) as i32
    }
}

/// The opcodes that pop two operands and push one result.
pub open spec fn is_binary_op(op: ByteCode) -> bool {
    ||| op is Add
    ||| op is Sub
    ||| op is Mul
    ||| op is Div
    ||| op is Greater
    ||| op is Lower
    ||| op is Eq
    ||| op is GreaterEq
    ||| op is LowerEq
}

/// The value a binary opcode pushes: `a` is the first cell popped (the
/// top of the stack), `b` the second.
pub open spec fn binary_op_value(op: ByteCode, a: i32, b: i32) -> i32 {
    match op {
        ByteCode::Add => wrap_add(a, b),
        ByteCode::Sub => wrap_sub(a, b),
        ByteCode::Mul => wrap_mul(a, b),
        ByteCode::Div => wrap_div(a, b),
        ByteCode::Greater => if a > b { 1 } else { 0 },
        ByteCode::Lower => if a < b { 1 } else { 0 },
        ByteCode::Eq => if a == b { 1 } else { 0 },
        ByteCode::GreaterEq => if a >= b { 1 } else { 0 },
        ByteCode::LowerEq => if a <= b { 1 } else { 0 },
        _ => 0,
    }
}

/// Move the pointer to the next instruction; a pointer that would land
/// at or past the end halts the run instead.
pub open spec fn advanced(code: Seq<ByteCode>, s: MachineState) -> StepResult {
    if s.ip + 1 >= code.len() {
        StepResult::Halt(
            Err(InterpreterError::InvalidPointerAddress),
            MachineState { ip: s.ip + 1, stack: s.stack },
        )
    } else {
        StepResult::Next(MachineState { ip: s.ip + 1, stack: s.stack })
    }
}

/// Set the pointer to an absolute target, validated the same way.
pub open spec fn jumped(code: Seq<ByteCode>, s: MachineState, target: u32) -> StepResult {
    if target >= code.len() {
        StepResult::Halt(
            Err(InterpreterError::InvalidPointerAddress),
            MachineState { ip: target as nat, stack: s.stack },
        )
    } else {
        StepResult::Next(MachineState { ip: target as nat, stack: s.stack })
    }
}

/// One fetch-dispatch-execute step, the heart of the engine. A failed
/// pop is not rolled back: the halting state keeps the losses.
pub open spec fn step(code: Seq<ByteCode>, s: MachineState) -> StepResult {
    if s.ip >= code.len() {
        StepResult::Halt(Err(InterpreterError::InvalidPointerAddress), s)
    } else {
        match code[s.ip as int] {
            ByteCode::Return => if s.stack.len() == 0 {
                StepResult::Halt(Err(InterpreterError::StackUnderflow), s)
            } else {
                StepResult::Halt(
                    Ok(s.stack.last().value),
                    MachineState { ip: s.ip, stack: s.stack.drop_last() },
                )
            },
            ByteCode::LoadVal(v) => advanced(
                code,
                MachineState { ip: s.ip, stack: s.stack.push(anonymous(v)) },
            ),
            ByteCode::WriteVar(id) => if s.stack.len() == 0 {
                StepResult::Halt(Err(InterpreterError::StackUnderflow), s)
            } else {
                advanced(
                    code,
                    MachineState {
                        ip: s.ip,
                        stack: push_cell(s.stack.drop_last(), Some(id), s.stack.last().value),
                    },
                )
            },
            ByteCode::ReadVar(id) => match find_var(s.stack, id) {
                None => StepResult::Halt(
                    Err(InterpreterError::UnknownVariable { identifier: id }),
                    s,
                ),
                Some(v) => advanced(
                    code,
                    MachineState { ip: s.ip, stack: s.stack.push(anonymous(v)) },
                ),
            },
            ByteCode::Jump(target) => jumped(code, s, target),
            ByteCode::JumpI(target) => if s.stack.len() == 0 {
                StepResult::Halt(Err(InterpreterError::StackUnderflow), s)
            } else if s.stack.last().value == 1 {
                jumped(code, MachineState { ip: s.ip, stack: s.stack.drop_last() }, target)
            } else {
                advanced(code, MachineState { ip: s.ip, stack: s.stack.drop_last() })
            },
            op => if s.stack.len() < 2 {
                StepResult::Halt(
                    Err(InterpreterError::StackUnderflow),
                    MachineState { ip: s.ip, stack: Seq::empty() },
                )
            } else {
                let a = s.stack[s.stack.len() - 1].value;
                let b = s.stack[s.stack.len() - 2].value;
                let rest = s.stack.take(s.stack.len() - 2);
                if op is Div && b == 0 {
                    StepResult::Halt(
                        Err(InterpreterError::DivisionByZero),
                        MachineState { ip: s.ip, stack: rest },
                    )
                } else {
                    advanced(
                        code,
                        MachineState {
                            ip: s.ip,
                            stack: rest.push(anonymous(binary_op_value(op, a, b))),
                        },
                    )
                }
            },
        }
    }
}

/// Run the machine for at most `fuel` steps: `Some` of the result and
/// the halting state if the run halts within the fuel, `None` if not.
pub open spec fn run_fuel(
    code: Seq<ByteCode>,
    s: MachineState,
    fuel: nat,
) -> Option<(Result<i32, InterpreterError>, MachineState)>
    decreases fuel,
{
    match step(code, s) {
        StepResult::Halt(r, h) => Some((r, h)),
        StepResult::Next(s2) => if fuel == 0 {
            None
        } else {
            run_fuel(code, s2, (fuel - 1) as nat)
        },
    }
}

/// A run of `code` from the initial state halts with this result and
/// this final machine state.
pub open spec fn terminates_with(
    code: Seq<ByteCode>,
    outcome: (Result<i32, InterpreterError>, MachineState),
) -> bool {
    exists|fuel: nat| run_fuel(code, initial_state(), fuel) == Some(outcome)
}

/// The machine halts on `code` at all: some amount of fuel is enough.
/// Supplied instructions that loop forever are outside this, and a
/// run of them is the caller's responsibility, not the engine's.
pub open spec fn halts(code: Seq<ByteCode>) -> bool {
    exists|fuel: nat| run_fuel(code, initial_state(), fuel) is Some
}

/// The quotient of a truncating `i32` division stays in range except
/// for `i32::MIN / -1`.
pub proof fn lemma_trunc_div_in_range(a: i32, b: i32)
    requires
        b != 0,
        !(a == i32::MIN && b == -1),
    ensures
        i32::MIN <= trunc_div(a as int, b as int) <= i32::MAX,
{
    let x = a as int;
    let d = b as int;
    if x == 0 {
    } else if x > 0 && d > 0 {
        lemma_div_pos_is_pos(x, d);
        lemma_div_nonincreasing(x, d);
    } else if x < 0 && d < 0 {
        let nx = x * -1;
        let nd = d * -1;
        lemma_div_pos_is_pos(nx, nd);
        if nd >= 2 {
            lemma_div_is_ordered(nx, 0x8000_0000, nd);
            lemma_div_is_ordered_by_denominator(0x8000_0000, 2, nd);
            assert(0x8000_0000int / 2int == 0x4000_0000int) by (nonlinear_arith);
        } else {
            lemma_div_basics_2(nx);
        }
    } else if x < 0 {
        let nx = x * -1;
        lemma_div_pos_is_pos(nx, d);
        lemma_div_is_ordered_by_denominator(nx, 1, d);
        lemma_div_basics_2(nx);
    } else {
        let nd = d * -1;
        lemma_div_pos_is_pos(x, nd);
        lemma_div_nonincreasing(x, nd);
    }
}

/// If the machine states reached by the loop and by the fueled runner
/// agree, one more `Next` step keeps them agreeing.
pub proof fn lemma_inv_step(
    code: Seq<ByteCode>,
    init: MachineState,
    pre: MachineState,
    post: MachineState,
    steps: nat,
)
    requires
        forall|fuel: nat| #[trigger] run_fuel(code, pre, fuel) == run_fuel(code, init, steps + fuel),
        step(code, pre) == StepResult::Next(post),
    ensures
        forall|fuel: nat| #[trigger] run_fuel(code, post, fuel) == run_fuel(
            code,
            init,
            (steps + 1) + fuel,
        ),
{
    assert forall|fuel: nat| #[trigger] run_fuel(code, post, fuel) == run_fuel(
        code,
        init,
        (steps + 1) + fuel,
    ) by {
        assert(run_fuel(code, pre, fuel + 1) == run_fuel(code, init, steps + (fuel + 1)));
        assert(run_fuel(code, pre, fuel + 1) == run_fuel(code, post, fuel));
        assert(steps + (fuel + 1) == (steps + 1) + fuel);
    }
}

/// If the machine states agree and the next step halts, the fueled
/// runner halts from the initial state with the same outcome.
pub proof fn lemma_inv_halt(
    code: Seq<ByteCode>,
    init: MachineState,
    pre: MachineState,
    r: Result<i32, InterpreterError>,
    h: MachineState,
    steps: nat,
)
    requires
        forall|fuel: nat| #[trigger] run_fuel(code, pre, fuel) == run_fuel(code, init, steps + fuel),
        step(code, pre) == StepResult::Halt(r, h),
    ensures
        run_fuel(code, init, steps) == Some((r, h)),
{
    assert(run_fuel(code, pre, 0) == Some((r, h)));
    assert(run_fuel(code, pre, 0) == run_fuel(code, init, steps + 0));
}

/// If the machine states agree and the next step halts, the whole run
/// from the initial state halts with that outcome.
pub proof fn lemma_halt_terminates(
    code: Seq<ByteCode>,
    pre: MachineState,
    r: Result<i32, InterpreterError>,
    h: MachineState,
    steps: nat,
)
    requires
        forall|fuel: nat| #[trigger] run_fuel(code, pre, fuel) == run_fuel(
            code,
            initial_state(),
            steps + fuel,
        ),
        step(code, pre) == StepResult::Halt(r, h),
    ensures
        terminates_with(code, (r, h)),
{
    lemma_inv_halt(code, initial_state(), pre, r, h, steps);
    assert(run_fuel(code, initial_state(), steps) == Some((r, h)));
}

/// One `Next` step peels one unit of fuel off the runner.
pub proof fn lemma_step_fuel(code: Seq<ByteCode>, s: MachineState, s2: MachineState, fuel: nat)
    requires
        step(code, s) == StepResult::Next(s2),
    ensures
        run_fuel(code, s, fuel + 1) == run_fuel(code, s2, fuel),
{
    assert((fuel + 1 - 1) as nat == fuel);
}

/// A known outcome is the only outcome: determinism, packaged for
/// reasoning about one concrete instruction sequence.
pub proof fn lemma_pins_result(
    code: Seq<ByteCode>,
    o: (Result<i32, InterpreterError>, MachineState),
)
    requires
        terminates_with(code, o),
    ensures
        halts(code),
        forall|o2: (Result<i32, InterpreterError>, MachineState)| #[trigger]
            terminates_with(code, o2) ==> o2 == o,
{
    let fuel = choose|fuel: nat| run_fuel(code, initial_state(), fuel) == Some(o);
    assert(run_fuel(code, initial_state(), fuel) is Some);
    assert forall|o2: (Result<i32, InterpreterError>, MachineState)| #[trigger]
        terminates_with(code, o2) implies o2 == o by {
        lemma_outcome_unique(code, o2, o);
    }
}

/// Once a run has halted, more fuel changes nothing.
pub proof fn lemma_run_fuel_monotonic(code: Seq<ByteCode>, s: MachineState, fuel1: nat, fuel2: nat)
    requires
        fuel1 <= fuel2,
        run_fuel(code, s, fuel1) is Some,
    ensures
        run_fuel(code, s, fuel2) == run_fuel(code, s, fuel1),
    decreases fuel1,
{
    match step(code, s) {
        StepResult::Halt(r, h) => {},
        StepResult::Next(s2) => {
            lemma_run_fuel_monotonic(code, s2, (fuel1 - 1) as nat, (fuel2 - 1) as nat);
        },
    }
}

/// The machine is deterministic: two fueled runs that both halt halted
/// with the same result in the same state.
pub proof fn lemma_run_fuel_agrees(code: Seq<ByteCode>, s: MachineState, fuel1: nat, fuel2: nat)
    requires
        run_fuel(code, s, fuel1) is Some,
        run_fuel(code, s, fuel2) is Some,
    ensures
        run_fuel(code, s, fuel1) == run_fuel(code, s, fuel2),
{
    if fuel1 <= fuel2 {
        lemma_run_fuel_monotonic(code, s, fuel1, fuel2);
    } else {
        lemma_run_fuel_monotonic(code, s, fuel2, fuel1);
    }
}

/// An instruction sequence halts with at most one outcome.
pub proof fn lemma_outcome_unique(
    code: Seq<ByteCode>,
    o1: (Result<i32, InterpreterError>, MachineState),
    o2: (Result<i32, InterpreterError>, MachineState),
)
    requires
        terminates_with(code, o1),
        terminates_with(code, o2),
    ensures
        o1 == o2,
{
    let fuel1 = choose|fuel: nat| run_fuel(code, initial_state(), fuel) == Some(o1);
    let fuel2 = choose|fuel: nat| run_fuel(code, initial_state(), fuel) == Some(o2);
    lemma_run_fuel_agrees(code, initial_state(), fuel1, fuel2);
}

} // verus!

use vstd::prelude::*;

use vstd::arithmetic::div_mod::lemma_fundamental_div_mod_converse_mod;
use vstd::arithmetic::div_mod::lemma_small_mod;

use crate::errors::InterpreterError;
use crate::instructions::ByteCode;
use crate::semantics::MachineState;
use crate::semantics::StepResult;
use crate::semantics::anonymous;
use crate::semantics::binary_op_value;
use crate::semantics::find_var;
use crate::semantics::find_var_from;
use crate::semantics::halts;
use crate::semantics::initial_state;
use crate::semantics::is_binary_op;
use crate::semantics::lemma_pins_result;
use crate::semantics::lemma_step_fuel;
use crate::semantics::run_fuel;
use crate::semantics::step;
use crate::semantics::terminates_with;
use crate::semantics::trunc_div;
use crate::semantics::wrap_add;
use crate::semantics::wrap_div;
use crate::semantics::wrap_mul;
use crate::semantics::wrap_sub;
use crate::semantics::write_var;
use crate::state::Variable;

verus! {

pub open spec fn load_constant_program(v: i32) -> Seq<ByteCode> {
    seq![ByteCode::LoadVal(v), ByteCode::Return]
}

/// Law: running `[load-constant v, return]` yields exactly `v`.
pub proof fn lemma_load_constant_returns(v: i32)
    ensures
        halts(load_constant_program(v)),
        forall|o: (Result<i32, InterpreterError>, MachineState)| #[trigger]
            terminates_with(load_constant_program(v), o) ==> o.0 == Ok::<i32, InterpreterError>(v),
{
    let code = load_constant_program(v);
    let s0 = initial_state();
    let s1 = MachineState { ip: 1, stack: seq![anonymous(v)] };
    let fin = MachineState { ip: 1, stack: Seq::<Variable>::empty() };
    assert(step(code, s0) == StepResult::Next(s1));
    assert(s1.stack.drop_last() =~= Seq::<Variable>::empty());
    assert(step(code, s1) == StepResult::Halt(Ok::<i32, InterpreterError>(v), fin));
    lemma_step_fuel(code, s0, s1, 0);
    assert(run_fuel(code, s0, 1) == Some((Ok::<i32, InterpreterError>(v), fin)));
    assert(terminates_with(code, (Ok::<i32, InterpreterError>(v), fin)));
    lemma_pins_result(code, (Ok::<i32, InterpreterError>(v), fin));
}

pub open spec fn bare_return_program() -> Seq<ByteCode> {
    seq![ByteCode::Return]
}

/// Law: `[return]` on the empty stack fails with `StackUnderflow`.
pub proof fn lemma_return_on_empty_underflows()
    ensures
        halts(bare_return_program()),
        forall|o: (Result<i32, InterpreterError>, MachineState)| #[trigger]
            terminates_with(bare_return_program(), o) ==> o.0 == Err::<i32, InterpreterError>(
                InterpreterError::StackUnderflow,
            ),
{
    let code = bare_return_program();
    let s0 = initial_state();
    let res = Err::<i32, InterpreterError>(InterpreterError::StackUnderflow);
    assert(step(code, s0) == StepResult::Halt(res, s0));
    assert(run_fuel(code, s0, 0) == Some((res, s0)));
    assert(terminates_with(code, (res, s0)));
    lemma_pins_result(code, (res, s0));
}

pub open spec fn read_unknown_program(id: char) -> Seq<ByteCode> {
    seq![ByteCode::ReadVar(id), ByteCode::Return]
}

/// Law: reading an identifier that was never written fails with
/// `UnknownVariable` carrying that identifier.
pub proof fn lemma_read_unknown_variable(id: char)
    ensures
        halts(read_unknown_program(id)),
        forall|o: (Result<i32, InterpreterError>, MachineState)| #[trigger]
            terminates_with(read_unknown_program(id), o) ==> o.0 == Err::<i32, InterpreterError>(
                InterpreterError::UnknownVariable { identifier: id },
            ),
{
    let code = read_unknown_program(id);
    let s0 = initial_state();
    let res = Err::<i32, InterpreterError>(InterpreterError::UnknownVariable { identifier: id });
    assert(step(code, s0) == StepResult::Halt(res, s0));
    assert(run_fuel(code, s0, 0) == Some((res, s0)));
    assert(terminates_with(code, (res, s0)));
    lemma_pins_result(code, (res, s0));
}

pub open spec fn write_read_program(v: i32, id: char) -> Seq<ByteCode> {
    seq![
        ByteCode::LoadVal(v),
        ByteCode::WriteVar(id),
        ByteCode::ReadVar(id),
        ByteCode::Return,
    ]
}

/// Law: writing an identifier and reading it back round-trips the
/// value.
pub proof fn lemma_write_read_round_trip(v: i32, id: char)
    ensures
        halts(write_read_program(v, id)),
        forall|o: (Result<i32, InterpreterError>, MachineState)| #[trigger]
            terminates_with(write_read_program(v, id), o) ==> o.0 == Ok::<i32, InterpreterError>(
                v,
            ),
{
    let code = write_read_program(v, id);
    let s0 = initial_state();
    let named = Variable { identifier: Some(id), value: v };
    let s1 = MachineState { ip: 1, stack: seq![anonymous(v)] };
    let s2 = MachineState { ip: 2, stack: seq![named] };
    let s3 = MachineState { ip: 3, stack: seq![named, anonymous(v)] };
    let fin = MachineState { ip: 3, stack: seq![named] };
    let res = Ok::<i32, InterpreterError>(v);
    assert(step(code, s0) == StepResult::Next(s1));
    assert(s1.stack.drop_last() =~= Seq::<Variable>::empty());
    assert(step(code, s1) == StepResult::Next(s2));
    assert(code[2] == ByteCode::ReadVar(id));
    assert(crate::semantics::find_var(s2.stack, id) == Some(v));
    assert(s2.stack.push(anonymous(v)) =~= s3.stack);
    assert(step(code, s2) == StepResult::Next(s3));
    assert(s3.stack.drop_last() =~= seq![named]);
    assert(step(code, s3) == StepResult::Halt(res, fin));
    assert(run_fuel(code, s3, 0) == Some((res, fin)));
    lemma_step_fuel(code, s2, s3, 0);
    lemma_step_fuel(code, s1, s2, 1);
    lemma_step_fuel(code, s0, s1, 2);
    assert(run_fuel(code, s0, 3) == Some((res, fin)));
    assert(terminates_with(code, (res, fin)));
    lemma_pins_result(code, (res, fin));
}

pub open spec fn binary_op_program(a: i32, b: i32, op: ByteCode) -> Seq<ByteCode> {
    seq![ByteCode::LoadVal(a), ByteCode::LoadVal(b), op, ByteCode::Return]
}

/// Law: `[load a, load b, op, return]` pops `b` first (the top of the
/// stack) and `a` second, and returns the op's value for exactly
/// those operands.
pub proof fn lemma_binary_op_returns(a: i32, b: i32, op: ByteCode)
    requires
        is_binary_op(op),
        op is Div ==> a != 0,
    ensures
        halts(binary_op_program(a, b, op)),
        forall|o: (Result<i32, InterpreterError>, MachineState)| #[trigger]
            terminates_with(binary_op_program(a, b, op), o) ==> o.0 == Ok::<i32, InterpreterError>(
                binary_op_value(op, b, a),
            ),
{
    let code = binary_op_program(a, b, op);
    let s0 = initial_state();
    let s1 = MachineState { ip: 1, stack: seq![anonymous(a)] };
    let s2 = MachineState { ip: 2, stack: seq![anonymous(a), anonymous(b)] };
    let r = binary_op_value(op, b, a);
    let s3 = MachineState { ip: 3, stack: seq![anonymous(r)] };
    let fin = MachineState { ip: 3, stack: Seq::<Variable>::empty() };
    let res = Ok::<i32, InterpreterError>(r);
    assert(step(code, s0) == StepResult::Next(s1));
    assert(s1.stack.push(anonymous(b)) =~= s2.stack);
    assert(step(code, s1) == StepResult::Next(s2));
    assert(s2.stack[1] == anonymous(b));
    assert(s2.stack[0] == anonymous(a));
    assert(s2.stack.take(0).push(anonymous(r)) =~= s3.stack);
    assert(step(code, s2) == StepResult::Next(s3));
    assert(s3.stack.drop_last() =~= Seq::<Variable>::empty());
    assert(step(code, s3) == StepResult::Halt(res, fin));
    assert(run_fuel(code, s3, 0) == Some((res, fin)));
    lemma_step_fuel(code, s2, s3, 0);
    lemma_step_fuel(code, s1, s2, 1);
    lemma_step_fuel(code, s0, s1, 2);
    assert(run_fuel(code, s0, 3) == Some((res, fin)));
    assert(terminates_with(code, (res, fin)));
    lemma_pins_result(code, (res, fin));
}

/// Law: addition returns `a + b` whenever that sum fits in `i32`.
pub proof fn lemma_addition_returns(a: i32, b: i32)
    requires
        i32::MIN <= a + b <= i32::MAX,
    ensures
        halts(binary_op_program(a, b, ByteCode::Add)),
        forall|o: (Result<i32, InterpreterError>, MachineState)| #[trigger]
            terminates_with(binary_op_program(a, b, ByteCode::Add), o) ==> o.0 == Ok::<
                i32,
                InterpreterError,
            >((a + b) as i32),
{
    lemma_binary_op_returns(a, b, ByteCode::Add);
    assert(wrap_add(b, a) == (a + b) as i32);
}

/// Law: subtraction returns `b - a` (top of stack minus the next
/// cell) whenever that difference fits in `i32`.
pub proof fn lemma_subtraction_returns(a: i32, b: i32)
    requires
        i32::MIN <= b - a <= i32::MAX,
    ensures
        halts(binary_op_program(a, b, ByteCode::Sub)),
        forall|o: (Result<i32, InterpreterError>, MachineState)| #[trigger]
            terminates_with(binary_op_program(a, b, ByteCode::Sub), o) ==> o.0 == Ok::<
                i32,
                InterpreterError,
            >((b - a) as i32),
{
    lemma_binary_op_returns(a, b, ByteCode::Sub);
    assert(wrap_sub(b, a) == (b - a) as i32);
}

/// Law: multiplication returns `a * b` whenever that product fits in
/// `i32`.
pub proof fn lemma_multiplication_returns(a: i32, b: i32)
    requires
        i32::MIN <= a * b <= i32::MAX,
    ensures
        halts(binary_op_program(a, b, ByteCode::Mul)),
        forall|o: (Result<i32, InterpreterError>, MachineState)| #[trigger]
            terminates_with(binary_op_program(a, b, ByteCode::Mul), o) ==> o.0 == Ok::<
                i32,
                InterpreterError,
            >((a * b) as i32),
{
    lemma_binary_op_returns(a, b, ByteCode::Mul);
    let x = b as int * a as int;
    assert(b as int * a as int == a as int * b as int) by (nonlinear_arith);
    if x >= 0 {
        lemma_small_mod(x as nat, 0x1_0000_0000nat);
    } else {
        lemma_fundamental_div_mod_converse_mod(x, 0x1_0000_0000, -1, x + 0x1_0000_0000);
    }
    assert(wrap_mul(b, a) == (a * b) as i32);
}

/// Law: division returns the truncating quotient `b / a` (top of
/// stack divided by the next cell).
pub proof fn lemma_division_returns(a: i32, b: i32)
    requires
        a != 0,
        !(b == i32::MIN && a == -1),
    ensures
        halts(binary_op_program(a, b, ByteCode::Div)),
        forall|o: (Result<i32, InterpreterError>, MachineState)| #[trigger]
            terminates_with(binary_op_program(a, b, ByteCode::Div), o) ==> o.0 == Ok::<
                i32,
                InterpreterError,
            >(trunc_div(b as int, a as int) as i32),
{
    lemma_binary_op_returns(a, b, ByteCode::Div);
    assert(wrap_div(b, a) == trunc_div(b as int, a as int) as i32);
}

/// A conditional loop: write `initial_value` to `v`, `nb_iter` to
/// `n`, zero to `i`; skip the body when `n` is zero; otherwise
/// increment `v` and `i` until `i` reaches `n`; read `v` back and
/// return it.
pub open spec fn counting_program(initial_value: i32, nb_iter: i32) -> Seq<ByteCode> {
    seq![
        ByteCode::LoadVal(initial_value),
        ByteCode::WriteVar('v'),
        ByteCode::LoadVal(nb_iter),
        ByteCode::WriteVar('n'),
        ByteCode::LoadVal(0),
        ByteCode::WriteVar('i'),
        ByteCode::ReadVar('n'),
        ByteCode::LoadVal(0),
        ByteCode::Eq,
        ByteCode::JumpI(22),
        ByteCode::ReadVar('v'),
        ByteCode::LoadVal(1),
        ByteCode::Add,
        ByteCode::WriteVar('v'),
        ByteCode::ReadVar('i'),
        ByteCode::LoadVal(1),
        ByteCode::Add,
        ByteCode::WriteVar('i'),
        ByteCode::ReadVar('n'),
        ByteCode::ReadVar('i'),
        ByteCode::Lower,
        ByteCode::JumpI(10),
        ByteCode::ReadVar('v'),
        ByteCode::Return,
    ]
}

/// The three bindings the counting program keeps on the stack, in
/// push order: the running value, the iteration count, the counter.
pub open spec fn counting_stack(nb_iter: i32, running: i32, counter: i32) -> Seq<Variable> {
    seq![
        Variable { identifier: Some('v'), value: running },
        Variable { identifier: Some('n'), value: nb_iter },
        Variable { identifier: Some('i'), value: counter },
    ]
}

/// From the head of the loop body with `j` increments done, the
/// counting program halts with `initial_value + nb_iter`.
proof fn lemma_counting_loop_body(iv: i32, nb: i32, j: i32)
    requires
        0 <= j < nb,
        iv + nb <= i32::MAX,
    ensures
        exists|fuel: nat|
            #[trigger] run_fuel(
                counting_program(iv, nb),
                MachineState { ip: 10, stack: counting_stack(nb, (iv + j) as i32, j) },
                fuel,
            ) == Some(
                (
                    Ok::<i32, InterpreterError>((iv + nb) as i32),
                    MachineState { ip: 23, stack: counting_stack(nb, (iv + nb) as i32, nb) },
                ),
            ),
    decreases nb - j,
{
    reveal_with_fuel(find_var_from, 5);
    let code = counting_program(iv, nb);
    let x = (iv + j) as i32;
    let x1 = (iv + j + 1) as i32;
    let j1 = (j + 1) as i32;
    let base = counting_stack(nb, x, j);
    let base1 = counting_stack(nb, x1, j);
    let base2 = counting_stack(nb, x1, j1);
    let outcome = (
        Ok::<i32, InterpreterError>((iv + nb) as i32),
        MachineState { ip: 23, stack: counting_stack(nb, (iv + nb) as i32, nb) },
    );
    let s10 = MachineState { ip: 10, stack: base };
    let s11 = MachineState { ip: 11, stack: base.push(anonymous(x)) };
    let s12 = MachineState { ip: 12, stack: base.push(anonymous(x)).push(anonymous(1)) };
    let s13 = MachineState { ip: 13, stack: base.push(anonymous(x1)) };
    let s14 = MachineState { ip: 14, stack: base1 };
    let s15 = MachineState { ip: 15, stack: base1.push(anonymous(j)) };
    let s16 = MachineState { ip: 16, stack: base1.push(anonymous(j)).push(anonymous(1)) };
    let s17 = MachineState { ip: 17, stack: base1.push(anonymous(j1)) };
    let s18 = MachineState { ip: 18, stack: base2 };
    let s19 = MachineState { ip: 19, stack: base2.push(anonymous(nb)) };
    let s20 = MachineState { ip: 20, stack: base2.push(anonymous(nb)).push(anonymous(j1)) };
    let t: i32 = if j1 < nb { 1 } else { 0 };
    let s21 = MachineState { ip: 21, stack: base2.push(anonymous(t)) };

    assert(find_var(base, 'v') == Some(x));
    assert(step(code, s10) == StepResult::Next(s11));
    assert(step(code, s11) == StepResult::Next(s12));
    assert(s12.stack.take(3) =~= base);
    assert(s12.stack[4] == anonymous(1));
    assert(s12.stack[3] == anonymous(x));
    assert(wrap_add(1, x) == x1);
    assert(s12.stack.take(3).push(anonymous(wrap_add(1, x))) =~= s13.stack);
    assert(step(code, s12) == StepResult::Next(s13));
    assert(s13.stack.drop_last() =~= base);
    assert(write_var(base, 'v', x1) =~= base1);
    assert(step(code, s13) == StepResult::Next(s14));
    assert(find_var(base1, 'i') == Some(j));
    assert(step(code, s14) == StepResult::Next(s15));
    assert(step(code, s15) == StepResult::Next(s16));
    assert(s16.stack.take(3) =~= base1);
    assert(s16.stack[4] == anonymous(1));
    assert(s16.stack[3] == anonymous(j));
    assert(wrap_add(1, j) == j1);
    assert(s16.stack.take(3).push(anonymous(wrap_add(1, j))) =~= s17.stack);
    assert(step(code, s16) == StepResult::Next(s17));
    assert(s17.stack.drop_last() =~= base1);
    assert(write_var(base1, 'i', j1) =~= base2);
    assert(step(code, s17) == StepResult::Next(s18));
    assert(find_var(base2, 'n') == Some(nb));
    assert(step(code, s18) == StepResult::Next(s19));
    assert(find_var(base2.push(anonymous(nb)), 'i') == Some(j1));
    assert(s19.stack.push(anonymous(j1)) =~= s20.stack);
    assert(step(code, s19) == StepResult::Next(s20));
    assert(s20.stack.take(3) =~= base2);
    assert(s20.stack[4] == anonymous(j1));
    assert(s20.stack[3] == anonymous(nb));
    assert(binary_op_value(ByteCode::Lower, j1, nb) == t);
    assert(s20.stack.take(3).push(anonymous(t)) =~= s21.stack);
    assert(step(code, s20) == StepResult::Next(s21));
    assert(s21.stack.drop_last() =~= base2);

    if j1 < nb {
        assert(step(code, s21) == StepResult::Next(MachineState { ip: 10, stack: base2 }));
        lemma_counting_loop_body(iv, nb, j1);
        assert(counting_stack(nb, (iv + j1) as i32, j1) =~= base2);
        let f = choose|fuel: nat|
            run_fuel(code, MachineState { ip: 10, stack: base2 }, fuel) == Some(outcome);
        lemma_step_fuel(code, s21, MachineState { ip: 10, stack: base2 }, f);
        lemma_step_fuel(code, s20, s21, f + 1);
        lemma_step_fuel(code, s19, s20, f + 2);
        lemma_step_fuel(code, s18, s19, f + 3);
        lemma_step_fuel(code, s17, s18, f + 4);
        lemma_step_fuel(code, s16, s17, f + 5);
        lemma_step_fuel(code, s15, s16, f + 6);
        lemma_step_fuel(code, s14, s15, f + 7);
        lemma_step_fuel(code, s13, s14, f + 8);
        lemma_step_fuel(code, s12, s13, f + 9);
        lemma_step_fuel(code, s11, s12, f + 10);
        lemma_step_fuel(code, s10, s11, f + 11);
        assert(run_fuel(code, s10, f + 12) == Some(outcome));
    } else {
        let s22 = MachineState { ip: 22, stack: base2 };
        let s23 = MachineState { ip: 23, stack: base2.push(anonymous(x1)) };
        assert(step(code, s21) == StepResult::Next(s22));
        assert(find_var(base2, 'v') == Some(x1));
        assert(step(code, s22) == StepResult::Next(s23));
        assert(s23.stack.drop_last() =~= base2);
        assert(x1 == (iv + nb) as i32);
        assert(base2 =~= counting_stack(nb, (iv + nb) as i32, nb));
        assert(step(code, s23) == StepResult::Halt(outcome.0, outcome.1));
        assert(run_fuel(code, s23, 0) == Some(outcome));
        lemma_step_fuel(code, s22, s23, 0);
        lemma_step_fuel(code, s21, s22, 1);
        lemma_step_fuel(code, s20, s21, 2);
        lemma_step_fuel(code, s19, s20, 3);
        lemma_step_fuel(code, s18, s19, 4);
        lemma_step_fuel(code, s17, s18, 5);
        lemma_step_fuel(code, s16, s17, 6);
        lemma_step_fuel(code, s15, s16, 7);
        lemma_step_fuel(code, s14, s15, 8);
        lemma_step_fuel(code, s13, s14, 9);
        lemma_step_fuel(code, s12, s13, 10);
        lemma_step_fuel(code, s11, s12, 11);
        lemma_step_fuel(code, s10, s11, 12);
        assert(run_fuel(code, s10, 13) == Some(outcome));
    }
}

/// Law: the counting loop returns `initial_value + nb_iter` whenever
/// that sum fits in `i32`, including `nb_iter == 0` through the
/// skip-jump path.
pub proof fn lemma_counting_loop_returns(initial_value: i32, nb_iter: i32)
    requires
        0 <= nb_iter,
        initial_value + nb_iter <= i32::MAX,
    ensures
        halts(counting_program(initial_value, nb_iter)),
        forall|o: (Result<i32, InterpreterError>, MachineState)| #[trigger]
            terminates_with(counting_program(initial_value, nb_iter), o) ==> o.0 == Ok::<
                i32,
                InterpreterError,
            >((initial_value + nb_iter) as i32),
{
    reveal_with_fuel(find_var_from, 5);
    let iv = initial_value;
    let nb = nb_iter;
    let code = counting_program(iv, nb);
    let nv = Variable { identifier: Some('v'), value: iv };
    let nn = Variable { identifier: Some('n'), value: nb };
    let base0 = counting_stack(nb, iv, 0);
    let s0 = initial_state();
    let s1 = MachineState { ip: 1, stack: seq![anonymous(iv)] };
    let s2 = MachineState { ip: 2, stack: seq![nv] };
    let s3 = MachineState { ip: 3, stack: seq![nv].push(anonymous(nb)) };
    let s4 = MachineState { ip: 4, stack: seq![nv, nn] };
    let s5 = MachineState { ip: 5, stack: seq![nv, nn].push(anonymous(0)) };
    let s6 = MachineState { ip: 6, stack: base0 };
    let s7 = MachineState { ip: 7, stack: base0.push(anonymous(nb)) };
    let s8 = MachineState { ip: 8, stack: base0.push(anonymous(nb)).push(anonymous(0)) };
    let e: i32 = if nb == 0 { 1 } else { 0 };
    let s9 = MachineState { ip: 9, stack: base0.push(anonymous(e)) };

    assert(step(code, s0) == StepResult::Next(s1));
    assert(s1.stack.drop_last() =~= Seq::<Variable>::empty());
    assert(find_var(Seq::<Variable>::empty(), 'v') is None);
    assert(Seq::<Variable>::empty().push(nv) =~= s2.stack);
    assert(step(code, s1) == StepResult::Next(s2));
    assert(step(code, s2) == StepResult::Next(s3));
    assert(s3.stack.drop_last() =~= seq![nv]);
    assert(find_var(seq![nv], 'n') is None);
    assert(seq![nv].push(nn) =~= s4.stack);
    assert(step(code, s3) == StepResult::Next(s4));
    assert(step(code, s4) == StepResult::Next(s5));
    assert(s5.stack.drop_last() =~= seq![nv, nn]);
    assert(find_var(seq![nv, nn], 'i') is None);
    assert(seq![nv, nn].push(Variable { identifier: Some('i'), value: 0 }) =~= base0);
    assert(step(code, s5) == StepResult::Next(s6));
    assert(find_var(base0, 'n') == Some(nb));
    assert(step(code, s6) == StepResult::Next(s7));
    assert(s7.stack.push(anonymous(0)) =~= s8.stack);
    assert(step(code, s7) == StepResult::Next(s8));
    assert(s8.stack.take(3) =~= base0);
    assert(s8.stack[4] == anonymous(0));
    assert(s8.stack[3] == anonymous(nb));
    assert(binary_op_value(ByteCode::Eq, 0, nb) == e);
    assert(s8.stack.take(3).push(anonymous(e)) =~= s9.stack);
    assert(step(code, s8) == StepResult::Next(s9));
    assert(s9.stack.drop_last() =~= base0);

    if nb == 0 {
        let s22 = MachineState { ip: 22, stack: base0 };
        let s23 = MachineState { ip: 23, stack: base0.push(anonymous(iv)) };
        let outcome = (
            Ok::<i32, InterpreterError>((iv + nb) as i32),
            MachineState { ip: 23, stack: counting_stack(nb, (iv + nb) as i32, nb) },
        );
        assert(step(code, s9) == StepResult::Next(s22));
        assert(find_var(base0, 'v') == Some(iv));
        assert(step(code, s22) == StepResult::Next(s23));
        assert(s23.stack.drop_last() =~= base0);
        assert((iv + nb) as i32 == iv);
        assert(base0 =~= counting_stack(nb, (iv + nb) as i32, nb));
        assert(step(code, s23) == StepResult::Halt(outcome.0, outcome.1));
        assert(run_fuel(code, s23, 0) == Some(outcome));
        lemma_step_fuel(code, s22, s23, 0);
        lemma_step_fuel(code, s9, s22, 1);
        lemma_step_fuel(code, s8, s9, 2);
        lemma_step_fuel(code, s7, s8, 3);
        lemma_step_fuel(code, s6, s7, 4);
        lemma_step_fuel(code, s5, s6, 5);
        lemma_step_fuel(code, s4, s5, 6);
        lemma_step_fuel(code, s3, s4, 7);
        lemma_step_fuel(code, s2, s3, 8);
        lemma_step_fuel(code, s1, s2, 9);
        lemma_step_fuel(code, s0, s1, 10);
        assert(run_fuel(code, s0, 11) == Some(outcome));
        assert(terminates_with(code, outcome));
        lemma_pins_result(code, outcome);
    } else {
        let s10 = MachineState { ip: 10, stack: base0 };
        let outcome = (
            Ok::<i32, InterpreterError>((iv + nb) as i32),
            MachineState { ip: 23, stack: counting_stack(nb, (iv + nb) as i32, nb) },
        );
        assert(step(code, s9) == StepResult::Next(s10));
        lemma_counting_loop_body(iv, nb, 0);
        assert(counting_stack(nb, (iv + 0) as i32, 0) =~= base0);
        let f = choose|fuel: nat| run_fuel(code, s10, fuel) == Some(outcome);
        assert(run_fuel(code, s10, f) == Some(outcome));
        lemma_step_fuel(code, s9, s10, f);
        lemma_step_fuel(code, s8, s9, f + 1);
        lemma_step_fuel(code, s7, s8, f + 2);
        lemma_step_fuel(code, s6, s7, f + 3);
        lemma_step_fuel(code, s5, s6, f + 4);
        lemma_step_fuel(code, s4, s5, f + 5);
        lemma_step_fuel(code, s3, s4, f + 6);
        lemma_step_fuel(code, s2, s3, f + 7);
        lemma_step_fuel(code, s1, s2, f + 8);
        lemma_step_fuel(code, s0, s1, f + 9);
        assert(run_fuel(code, s0, f + 10) == Some(outcome));
        assert(terminates_with(code, outcome));
        lemma_pins_result(code, outcome);
    }
}

/// Law: a jump whose target lies at or past the end of the sequence
/// halts the run with `InvalidPointerAddress`.
pub proof fn lemma_jump_out_of_range(code: Seq<ByteCode>, s: MachineState, target: u32)
    requires
        s.ip < code.len(),
        code[s.ip as int] == ByteCode::Jump(target),
        target >= code.len(),
    ensures
        step(code, s) == StepResult::Halt(
            Err::<i32, InterpreterError>(InterpreterError::InvalidPointerAddress),
            MachineState { ip: target as nat, stack: s.stack },
        ),
{
}

/// Law: a conditional jump that is taken to a target at or past the
/// end of the sequence halts the run with `InvalidPointerAddress`.
pub proof fn lemma_jump_if_true_out_of_range(code: Seq<ByteCode>, s: MachineState, target: u32)
    requires
        s.ip < code.len(),
        code[s.ip as int] == ByteCode::JumpI(target),
        s.stack.len() > 0,
        s.stack.last().value == 1,
        target >= code.len(),
    ensures
        step(code, s) == StepResult::Halt(
            Err::<i32, InterpreterError>(InterpreterError::InvalidPointerAddress),
            MachineState { ip: target as nat, stack: s.stack.drop_last() },
        ),
{
}

} // verus!

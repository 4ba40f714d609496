pub mod errors;
pub mod instructions;
pub mod laws;
pub mod semantics;
pub mod state;

use vstd::prelude::*;

use vstd::arithmetic::div_mod::lemma_div_basics_2;

use crate::errors::InterpreterError;
use crate::instructions::ByteCode;
use crate::semantics::MachineState;
use crate::semantics::StepResult;
use crate::semantics::advanced;
use crate::semantics::binary_op_value;
use crate::semantics::find_var;
use crate::semantics::find_var_from;
use crate::semantics::halts;
use crate::semantics::initial_state;
use crate::semantics::lemma_halt_terminates;
use crate::semantics::lemma_inv_step;
use crate::semantics::lemma_run_fuel_monotonic;
use crate::semantics::lemma_trunc_div_in_range;
use crate::semantics::push_cell;
use crate::semantics::run_fuel;
use crate::semantics::step;
use crate::semantics::terminates_with;
use crate::semantics::wrap_div;
use crate::semantics::write_var;
use crate::state::Variable;

verus! {

/// `i32` division with the engine's wraparound rule: the divisor is
/// nonzero, and `i32::MIN / -1` wraps back to `i32::MIN`.
fn div_wrapping(a: i32, b: i32) -> (q: i32)
    requires
        b != 0,
    ensures
        q == wrap_div(a, b),
{
    proof {
        if a == i32::MIN && b == -1 {
            lemma_div_basics_2(a as int * -1);
        } else {
            lemma_trunc_div_in_range(a, b);
        }
    }
    match a.checked_div(b) {
        Some(q) => q,
        None => i32::MIN,
    }
}

/// The execution engine: an instruction pointer plus one mixed stack
/// region that holds both anonymous operands and named variables.
pub struct Interpreter {
    pub instruction_pointer: u32,
    pub stack: Vec<Variable>,
}

impl View for Interpreter {
    type V = MachineState;

    open spec fn view(&self) -> MachineState {
        MachineState { ip: self.instruction_pointer as nat, stack: self.stack@ }
    }
}

impl Interpreter {
    pub fn new() -> (r: Self)
        ensures
            r.instruction_pointer == 0,
            r.stack@ == Seq::<Variable>::empty(),
    {
        Self { instruction_pointer: 0, stack: Vec::new() }
    }

    /// Empty the stack without touching the instruction pointer;
    /// exposed for reuse scenarios.
    pub fn clear_stack(&mut self)
        ensures
            final(self).stack@ == Seq::<Variable>::empty(),
            final(self).instruction_pointer == old(self).instruction_pointer,
    {
        self.stack = Vec::new();
    }

    /// Push a value to the stack under the push rule: an anonymous
    /// value always appends a new cell; a named value updates every
    /// cell already carrying the identifier, in place, or appends a
    /// new binding when none does. Never fails.
    #[verifier::loop_isolation(false)]
    pub fn push_to_stack(&mut self, identifier: Option<char>, value: i32) -> (r: Result<
        (),
        InterpreterError,
    >)
        ensures
            r is Ok,
            final(self).stack@ == push_cell(old(self).stack@, identifier, value),
            final(self).instruction_pointer == old(self).instruction_pointer,
    {
        match identifier {
            Some(id) => {
                let mut exists_id = false;
                let mut i: usize = 0;
                while i < self.stack.len()
                    invariant
                        i <= self.stack.len(),
                        self == old(self),
                        exists_id ==> find_var(self.stack@, id) is Some,
                        !exists_id ==> find_var(self.stack@, id) == find_var_from(
                            self.stack@,
                            id,
                            i as int,
                        ),
                    decreases self.stack.len() - i,
                {
                    let cell_matches = match self.stack[i].identifier {
                        Some(c) => c == id,
                        None => false,
                    };
                    if cell_matches {
                        exists_id = true;
                    }
                    i += 1;
                }
                if exists_id {
                    let ghost orig = self.stack@;
                    let mut i: usize = 0;
                    while i < self.stack.len()
                        invariant
                            i <= self.stack.len(),
                            self.stack@.len() == orig.len(),
                            self.instruction_pointer == old(self).instruction_pointer,
                            forall|j: int|
                                0 <= j < i ==> self.stack@[j] == (if orig[j].identifier == Some(
                                    id,
                                ) {
                                    Variable { identifier: Some(id), value }
                                } else {
                                    orig[j]
                                }),
                            forall|j: int| i <= j < orig.len() ==> self.stack@[j] == orig[j],
                        decreases self.stack@.len() - i,
                    {
                        let cell_matches = match self.stack[i].identifier {
                            Some(c) => c == id,
                            None => false,
                        };
                        if cell_matches {
                            self.stack[i] = Variable { identifier: Some(id), value };
                        }
                        i += 1;
                    }
                    proof {
                        assert(self.stack@ =~= write_var(orig, id, value));
                    }
                } else {
                    self.stack.push(Variable { identifier: Some(id), value });
                }
            },
            None => self.stack.push(Variable { identifier: None, value }),
        }
        Ok(())
    }

    /// Pop exactly `nb_items` cells, most recently pushed first. A pop
    /// attempted on an empty stack fails with `StackUnderflow`, and the
    /// cells already popped by then are not restored.
    #[verifier::loop_isolation(false)]
    pub fn get_from_stack(&mut self, nb_items: u32) -> (r: Result<Vec<Variable>, InterpreterError>)
        ensures
            final(self).instruction_pointer == old(self).instruction_pointer,
            old(self).stack@.len() >= nb_items ==> {
                &&& r is Ok
                &&& r->Ok_0@.len() == nb_items
                &&& (forall|j: int|
                    0 <= j < nb_items ==> r->Ok_0@[j] == old(self).stack@[old(
                        self,
                    ).stack@.len() - 1 - j])
                &&& final(self).stack@ == old(self).stack@.take(
                    old(self).stack@.len() - nb_items,
                )
            },
            old(self).stack@.len() < nb_items ==> {
                &&& r == Err::<Vec<Variable>, InterpreterError>(InterpreterError::StackUnderflow)
                &&& final(self).stack@ == Seq::<Variable>::empty()
            },
    {
        let mut values: Vec<Variable> = Vec::new();
        let mut k: u32 = 0;
        while k < nb_items
            invariant
                k <= nb_items,
                self.instruction_pointer == old(self).instruction_pointer,
                old(self).stack@.len() >= k,
                self.stack@ == old(self).stack@.take(old(self).stack@.len() - k),
                values@.len() == k,
                forall|j: int|
                    0 <= j < k ==> values@[j] == old(self).stack@[old(self).stack@.len() - 1 - j],
            decreases nb_items - k,
        {
            match self.stack.pop() {
                None => {
                    proof {
                        assert(self.stack@ =~= Seq::<Variable>::empty());
                    }
                    return Err(InterpreterError::StackUnderflow);
                },
                Some(val) => {
                    proof {
                        assert(old(self).stack@.take(old(self).stack@.len() - k).drop_last()
                            =~= old(self).stack@.take(old(self).stack@.len() - (k + 1)));
                    }
                    values.push(val);
                },
            }
            k += 1;
        }
        Ok(values)
    }

    /// Advance the instruction pointer by one; a pointer that lands at
    /// or past the end of the sequence fails validation.
    fn advance_ip(&mut self, bytecode_len: u32) -> (r: Result<(), InterpreterError>)
        requires
            old(self).instruction_pointer < u32::MAX,
        ensures
            final(self).instruction_pointer == old(self).instruction_pointer + 1,
            final(self).stack@ == old(self).stack@,
            r == (if old(self).instruction_pointer + 1 >= bytecode_len {
                Err::<(), InterpreterError>(InterpreterError::InvalidPointerAddress)
            } else {
                Ok::<(), InterpreterError>(())
            }),
    {
        self.instruction_pointer += 1;
        if self.instruction_pointer >= bytecode_len {
            Err(InterpreterError::InvalidPointerAddress)
        } else {
            Ok(())
        }
    }

    /// Set the instruction pointer to an absolute position, as the
    /// jump instructions do, validated the same way.
    fn set_ip(&mut self, destination: u32, bytecode_len: u32) -> (r: Result<(), InterpreterError>)
        ensures
            final(self).instruction_pointer == destination,
            final(self).stack@ == old(self).stack@,
            r == (if destination >= bytecode_len {
                Err::<(), InterpreterError>(InterpreterError::InvalidPointerAddress)
            } else {
                Ok::<(), InterpreterError>(())
            }),
    {
        self.instruction_pointer = destination;
        if self.instruction_pointer >= bytecode_len {
            Err(InterpreterError::InvalidPointerAddress)
        } else {
            Ok(())
        }
    }

    /// Reset the machine and execute `bytecode` until a `return`
    /// instruction or an error. On `return`, one cell is popped and
    /// its value is the result; an empty stack there is a
    /// `StackUnderflow`. The outcome and the machine state left
    /// behind are exactly what the fueled specification machine halts
    /// with from the initial state. The caller owes a sequence on
    /// which the machine halts: bytecode correctness, including
    /// freedom from endless loops, is the caller's responsibility.
    #[verifier::loop_isolation(false)]
    pub fn run(&mut self, bytecode: Vec<ByteCode>) -> (r: Result<i32, InterpreterError>)
        requires
            bytecode@.len() <= u32::MAX,
            halts(bytecode@),
        ensures
            terminates_with(bytecode@, (r, final(self)@)),
    {
        self.instruction_pointer = 0;
        self.clear_stack();
        let bytecode_len = bytecode.len() as u32;
        let ghost code = bytecode@;
        let ghost total: nat = choose|fuel: nat| run_fuel(code, initial_state(), fuel) is Some;
        let ghost mut steps: nat = 0;
        proof {
            assert(self@ == initial_state());
        }
        loop
            invariant
                steps <= total,
                run_fuel(code, initial_state(), total) is Some,
                forall|fuel: nat| #[trigger] run_fuel(code, self@, fuel) == run_fuel(
                    code,
                    initial_state(),
                    steps + fuel,
                ),
            decreases total - steps,
        {
            // fetch, validating the pointer
            if self.instruction_pointer >= bytecode_len {
                proof {
                    lemma_halt_terminates(
                        code,
                        self@,
                        Err(InterpreterError::InvalidPointerAddress),
                        self@,
                        steps,
                    );
                }
                return Err(InterpreterError::InvalidPointerAddress);
            }
            let ghost pre = self@;
            let instr = bytecode[self.instruction_pointer as usize];
            let mut advance = true;
            match instr {
                ByteCode::Return => {
                    let return_val = self.stack.pop();
                    match return_val {
                        Some(val) => {
                            proof {
                                lemma_halt_terminates(code, pre, Ok(val.value), self@, steps);
                            }
                            return Ok(val.value);
                        },
                        None => {
                            proof {
                                lemma_halt_terminates(
                                    code,
                                    pre,
                                    Err(InterpreterError::StackUnderflow),
                                    self@,
                                    steps,
                                );
                            }
                            return Err(InterpreterError::StackUnderflow);
                        },
                    }
                },
                ByteCode::LoadVal(val) => {
                    self.push_to_stack(None, val)?;
                    proof {
                        assert(step(code, pre) == advanced(
                            code,
                            MachineState { ip: pre.ip, stack: self.stack@ },
                        ));
                    }
                },
                ByteCode::WriteVar(id) => {
                    let val = self.stack.pop();
                    match val {
                        None => {
                            proof {
                                lemma_halt_terminates(
                                    code,
                                    pre,
                                    Err(InterpreterError::StackUnderflow),
                                    self@,
                                    steps,
                                );
                            }
                            return Err(InterpreterError::StackUnderflow);
                        },
                        Some(v) => {
                            self.push_to_stack(Some(id), v.value)?;
                            proof {
                                assert(step(code, pre) == advanced(
                                    code,
                                    MachineState { ip: pre.ip, stack: self.stack@ },
                                ));
                            }
                        },
                    }
                },
                ByteCode::ReadVar(id) => {
                    // forward scan for the first cell carrying the identifier
                    let mut found: Option<i32> = None;
                    let mut i: usize = 0;
                    while found.is_none() && i < self.stack.len()
                        invariant
                            i <= self.stack.len(),
                            found is None ==> find_var(self.stack@, id) == find_var_from(
                                self.stack@,
                                id,
                                i as int,
                            ),
                            found is Some ==> find_var(self.stack@, id) == found,
                        decreases self.stack@.len() - i,
                    {
                        let cell = self.stack[i];
                        let cell_matches = match cell.identifier {
                            Some(c) => c == id,
                            None => false,
                        };
                        if cell_matches {
                            found = Some(cell.value);
                        }
                        i += 1;
                    }
                    match found {
                        None => {
                            proof {
                                lemma_halt_terminates(
                                    code,
                                    pre,
                                    Err(InterpreterError::UnknownVariable { identifier: id }),
                                    self@,
                                    steps,
                                );
                            }
                            return Err(InterpreterError::UnknownVariable { identifier: id });
                        },
                        Some(v) => {
                            self.push_to_stack(None, v)?;
                            proof {
                                assert(step(code, pre) == advanced(
                                    code,
                                    MachineState { ip: pre.ip, stack: self.stack@ },
                                ));
                            }
                        },
                    }
                },
                ByteCode::Jump(destination) => {
                    match self.set_ip(destination, bytecode_len) {
                        Ok(()) => {
                            advance = false;
                            proof {
                                assert(step(code, pre) == StepResult::Next(self@));
                            }
                        },
                        Err(e) => {
                            proof {
                                lemma_halt_terminates(
                                    code,
                                    pre,
                                    Err(InterpreterError::InvalidPointerAddress),
                                    self@,
                                    steps,
                                );
                            }
                            return Err(e);
                        },
                    }
                },
                ByteCode::JumpI(destination) => {
                    match self.get_from_stack(1) {
                        Err(e) => {
                            proof {
                                assert(pre.stack =~= Seq::<Variable>::empty());
                                lemma_halt_terminates(
                                    code,
                                    pre,
                                    Err(InterpreterError::StackUnderflow),
                                    self@,
                                    steps,
                                );
                            }
                            return Err(e);
                        },
                        Ok(vals) => {
                            if vals[0].value == 1 {
                                match self.set_ip(destination, bytecode_len) {
                                    Ok(()) => {
                                        advance = false;
                                        proof {
                                            assert(step(code, pre) == StepResult::Next(self@));
                                        }
                                    },
                                    Err(e) => {
                                        proof {
                                            lemma_halt_terminates(
                                                code,
                                                pre,
                                                Err(InterpreterError::InvalidPointerAddress),
                                                self@,
                                                steps,
                                            );
                                        }
                                        return Err(e);
                                    },
                                }
                            } else {
                                proof {
                                    assert(step(code, pre) == advanced(
                                        code,
                                        MachineState { ip: pre.ip, stack: self.stack@ },
                                    ));
                                }
                            }
                        },
                    }
                },
                ByteCode::Add
                | ByteCode::Sub
                | ByteCode::Mul
                | ByteCode::Div
                | ByteCode::Greater
                | ByteCode::Lower
                | ByteCode::Eq
                | ByteCode::GreaterEq
                | ByteCode::LowerEq => {
                    match self.get_from_stack(2) {
                        Err(e) => {
                            proof {
                                lemma_halt_terminates(
                                    code,
                                    pre,
                                    Err(InterpreterError::StackUnderflow),
                                    self@,
                                    steps,
                                );
                            }
                            return Err(e);
                        },
                        Ok(vals) => {
                            let a = vals[0].value;
                            let b = vals[1].value;
                            let result = match instr {
                                ByteCode::Add => a.wrapping_add(b),
                                ByteCode::Sub => a.wrapping_sub(b),
                                ByteCode::Mul => a.wrapping_mul(b),
                                ByteCode::Div => {
                                    if b == 0 {
                                        proof {
                                            lemma_halt_terminates(
                                                code,
                                                pre,
                                                Err(InterpreterError::DivisionByZero),
                                                self@,
                                                steps,
                                            );
                                        }
                                        return Err(InterpreterError::DivisionByZero);
                                    }
                                    div_wrapping(a, b)
                                },
                                ByteCode::Greater => if a > b {
                                    1
                                } else {
                                    0
                                },
                                ByteCode::Lower => if a < b {
                                    1
                                } else {
                                    0
                                },
                                ByteCode::Eq => if a == b {
                                    1
                                } else {
                                    0
                                },
                                ByteCode::GreaterEq => if a >= b {
                                    1
                                } else {
                                    0
                                },
                                ByteCode::LowerEq => if a <= b {
                                    1
                                } else {
                                    0
                                },
                                _ => 0,
                            };
                            proof {
                                assert(result == binary_op_value(instr, a, b));
                            }
                            self.push_to_stack(None, result)?;
                            proof {
                                assert(step(code, pre) == advanced(
                                    code,
                                    MachineState { ip: pre.ip, stack: self.stack@ },
                                ));
                            }
                        },
                    }
                },
            }
            if advance {
                match self.advance_ip(bytecode_len) {
                    Err(e) => {
                        proof {
                            lemma_halt_terminates(
                                code,
                                pre,
                                Err(InterpreterError::InvalidPointerAddress),
                                self@,
                                steps,
                            );
                        }
                        return Err(e);
                    },
                    Ok(()) => {
                        proof {
                            assert(step(code, pre) == StepResult::Next(self@));
                            assert(run_fuel(code, pre, 0) == run_fuel(
                                code,
                                initial_state(),
                                steps + 0,
                            ));
                            if steps >= total {
                                lemma_run_fuel_monotonic(code, initial_state(), total, steps);
                            }
                            lemma_inv_step(code, initial_state(), pre, self@, steps);
                            steps = steps + 1;
                        }
                    },
                }
            } else {
                proof {
                    assert(step(code, pre) == StepResult::Next(self@));
                    assert(run_fuel(code, pre, 0) == run_fuel(code, initial_state(), steps + 0));
                    if steps >= total {
                        lemma_run_fuel_monotonic(code, initial_state(), total, steps);
                    }
                    lemma_inv_step(code, initial_state(), pre, self@, steps);
                    steps = steps + 1;
                }
            }
        }
    }
}

} // verus!

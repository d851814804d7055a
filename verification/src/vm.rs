//! The stack-based virtual machine, verified against a specification-level
//! execution semantics (`spec_run`).

use vstd::prelude::*;

use crate::chunk::{Chunk, OpCode, SegFault, SegOut, binary_exact, op_in_bounds, seg_exec, seg_step};
use crate::compiler::{Diagnostic, Parser};
use crate::value::{Rational, Value, pair_fits, rat_neg_exact, rat_of_pair};

verus! {

/// Every way a run can fail. The first failure aborts execution; nothing is
/// retried.
#[derive(Clone, Copy, Debug, PartialEq, Eq, Structural)]
pub enum RuntimeError {
    /// `Return` found an empty operand stack.
    EmptyStackOnReturn,
    /// `Constant(i)` pointed past the end of the constant pool; the offending
    /// index is carried along for diagnostics.
    InvalidConstantIndex(usize),
    /// `Negate` found an empty operand stack.
    EmptyStackOnNegate,
    /// A binary instruction found fewer than two operands.
    StackUnderflowOnBinary,
    /// The right operand of `Divide` was exactly zero.
    DivisionByZero,
    /// An exact arithmetic result left the machine range of the number type.
    NumericOverflow,
    /// Execution ran past the last instruction without meeting `Return`.
    MissingReturn,
}

impl RuntimeError {
    /// The diagnostic message for this failure: a distinct text per variant.
    pub fn message(&self) -> (r: &'static str)
        ensures
            self is EmptyStackOnReturn ==> r@ == "Stack is empty, cannot return."@,
            self is InvalidConstantIndex ==> r@ == "Invalid constant index."@,
            self is EmptyStackOnNegate ==> r@ == "Stack empty for Negate."@,
            self is StackUnderflowOnBinary ==> r@
                == "Not enough values on the stack for binary operation."@,
            self is DivisionByZero ==> r@ == "Division by zero."@,
            self is NumericOverflow ==> r@ == "Numeric result out of range."@,
            self is MissingReturn ==> r@ == "Attempted to read past end of bytecode."@,
    {
        match self {
            RuntimeError::EmptyStackOnReturn => "Stack is empty, cannot return.",
            RuntimeError::InvalidConstantIndex(_) => "Invalid constant index.",
            RuntimeError::EmptyStackOnNegate => "Stack empty for Negate.",
            RuntimeError::StackUnderflowOnBinary => "Not enough values on the stack for binary operation.",
            RuntimeError::DivisionByZero => "Division by zero.",
            RuntimeError::NumericOverflow => "Numeric result out of range.",
            RuntimeError::MissingReturn => "Attempted to read past end of bytecode.",
        }
    }
}

/// What one complete execution comes to.
#[derive(Clone, Copy, Debug, PartialEq, Eq, Structural)]
pub enum ExecOutcome {
    /// `Return` popped this script result.
    Success(Value),
    /// Execution aborted with this failure.
    Failure(RuntimeError),
}

/// The `Result` a run returns, read as an outcome.
pub open spec fn outcome_of(r: Result<Value, RuntimeError>) -> ExecOutcome {
    match r {
        Ok(v) => ExecOutcome::Success(v),
        Err(e) => ExecOutcome::Failure(e),
    }
}

/// Whether an opcode is one of the four binary arithmetic instructions.
pub open spec fn is_binary_op(op: OpCode) -> bool {
    op is Add || op is Subtract || op is Multiply || op is Divide
}

/// The specification-level fetch-decode-execute semantics: what running
/// `code` against `pool` from instruction `ip` with the given operand stack
/// comes to. The virtual machine is proved to return exactly this outcome.
pub open spec fn spec_run(code: Seq<OpCode>, pool: Seq<Value>, ip: int, stack: Seq<Value>)
    -> ExecOutcome
    decreases code.len() - ip,
{
    if ip < 0 || ip >= code.len() {
        ExecOutcome::Failure(RuntimeError::MissingReturn)
    } else {
        match code[ip] {
            OpCode::Return => {
                if stack.len() == 0 {
                    ExecOutcome::Failure(RuntimeError::EmptyStackOnReturn)
                } else {
                    ExecOutcome::Success(stack.last())
                }
            },
            OpCode::Constant(i) => {
                if i >= pool.len() {
                    ExecOutcome::Failure(RuntimeError::InvalidConstantIndex(i))
                } else {
                    spec_run(code, pool, ip + 1, stack.push(pool[i as int]))
                }
            },
            OpCode::Negate => {
                if stack.len() == 0 {
                    ExecOutcome::Failure(RuntimeError::EmptyStackOnNegate)
                } else {
                    match stack.last() {
                        Value::Number(n) => {
                            if pair_fits(rat_neg_exact(n)) {
                                spec_run(
                                    code,
                                    pool,
                                    ip + 1,
                                    stack.drop_last().push(
                                        Value::Number(rat_of_pair(rat_neg_exact(n))),
                                    ),
                                )
                            } else {
                                ExecOutcome::Failure(RuntimeError::NumericOverflow)
                            }
                        },
                    }
                }
            },
            _ => {
                if stack.len() < 2 {
                    ExecOutcome::Failure(RuntimeError::StackUnderflowOnBinary)
                } else {
                    match (stack[stack.len() - 2], stack.last()) {
                        (Value::Number(a), Value::Number(b)) => {
                            if code[ip] is Divide && b.num == 0 {
                                ExecOutcome::Failure(RuntimeError::DivisionByZero)
                            } else if pair_fits(binary_exact(code[ip], a, b)) {
                                spec_run(
                                    code,
                                    pool,
                                    ip + 1,
                                    stack.drop_last().drop_last().push(
                                        Value::Number(rat_of_pair(binary_exact(code[ip], a, b))),
                                    ),
                                )
                            } else {
                                ExecOutcome::Failure(RuntimeError::NumericOverflow)
                            }
                        },
                    }
                }
            },
        }
    }
}

/// In a well-formed chunk every emitted `Constant(i)` satisfies
/// `i < pool.len()` — so at execution time, from any instruction and any
/// operand stack, the out-of-range-constant failure can never arise.
pub proof fn lemma_wf_no_invalid_constant(
    code: Seq<OpCode>,
    pool: Seq<Value>,
    ip: int,
    stack: Seq<Value>,
)
    requires
        forall|i: int| 0 <= i < code.len() ==> op_in_bounds(#[trigger] code[i], pool.len() as int),
    ensures
        forall|idx: usize| spec_run(code, pool, ip, stack) != ExecOutcome::Failure(
            RuntimeError::InvalidConstantIndex(idx),
        ),
    decreases code.len() - ip,
{
    if 0 <= ip < code.len() {
        match code[ip] {
            OpCode::Return => {},
            OpCode::Constant(i) => {
                lemma_wf_no_invalid_constant(code, pool, ip + 1, stack.push(pool[i as int]));
            },
            OpCode::Negate => {
                if stack.len() > 0 {
                    match stack.last() {
                        Value::Number(n) => {
                            if pair_fits(rat_neg_exact(n)) {
                                lemma_wf_no_invalid_constant(
                                    code,
                                    pool,
                                    ip + 1,
                                    stack.drop_last().push(
                                        Value::Number(rat_of_pair(rat_neg_exact(n))),
                                    ),
                                );
                            }
                        },
                    }
                }
            },
            _ => {
                if stack.len() >= 2 {
                    match (stack[stack.len() - 2], stack.last()) {
                        (Value::Number(a), Value::Number(b)) => {
                            if !(code[ip] is Divide && b.num == 0) && pair_fits(
                                binary_exact(code[ip], a, b),
                            ) {
                                lemma_wf_no_invalid_constant(
                                    code,
                                    pool,
                                    ip + 1,
                                    stack.drop_last().drop_last().push(
                                        Value::Number(rat_of_pair(binary_exact(code[ip], a, b))),
                                    ),
                                );
                            }
                        },
                    }
                }
            },
        }
    }
}

/// Why a whole interpretation failed: the compiler refused the source (with
/// at least one diagnostic), or execution hit a run-time failure. The two
/// taxonomies never mix.
#[derive(Debug, PartialEq)]
pub enum InterpretError {
    /// Compilation failed; every recorded diagnostic, in order.
    Compile(Vec<Diagnostic>),
    /// The compiled chunk failed at run time.
    Runtime(RuntimeError),
}

/// The runtime failure a segment abort stands for.
pub open spec fn fault_error(f: SegFault) -> RuntimeError {
    match f {
        SegFault::BadConstant(i) => RuntimeError::InvalidConstantIndex(i),
        SegFault::EmptyNegate => RuntimeError::EmptyStackOnNegate,
        SegFault::Underflow => RuntimeError::StackUnderflowOnBinary,
        SegFault::DivZero => RuntimeError::DivisionByZero,
        SegFault::Overflow => RuntimeError::NumericOverflow,
        SegFault::SawReturn => RuntimeError::MissingReturn,
    }
}

/// Running a chunk is running its body as a straight-line segment and then
/// handing the top of what is left to the final `Return`: the fetch-decode
/// semantics and the segment semantics agree step for step.
pub proof fn lemma_spec_run_is_seg_exec(
    code: Seq<OpCode>,
    pool: Seq<Value>,
    ip: int,
    stack: Seq<Value>,
)
    requires
        0 <= ip < code.len(),
        code[code.len() - 1] is Return,
    ensures
        match seg_exec(code.subrange(ip, code.len() - 1), pool, stack) {
            SegOut::More(st) => spec_run(code, pool, ip, stack) == (if st.len() >= 1 {
                ExecOutcome::Success(st.last())
            } else {
                ExecOutcome::Failure(RuntimeError::EmptyStackOnReturn)
            }),
            SegOut::Abort(e) => e !is SawReturn ==> spec_run(code, pool, ip, stack)
                == ExecOutcome::Failure(fault_error(e)),
        },
    decreases code.len() - ip,
{
    let seg = code.subrange(ip, code.len() - 1);
    if ip == code.len() - 1 {
        assert(seg.len() == 0);
    } else {
        assert(seg[0] == code[ip]);
        assert(code.subrange(ip + 1, code.len() - 1) =~= seg.drop_first());
        match seg_step(code[ip], pool, stack) {
            SegOut::More(st) => {
                lemma_spec_run_is_seg_exec(code, pool, ip + 1, st);
            },
            SegOut::Abort(_) => {},
        }
    }
}

/// A `Divide` whose right operand denotes zero always aborts execution with
/// the division-by-zero failure: no value — in particular no infinity, which
/// no rational can denote — is ever produced or pushed past it.
pub proof fn lemma_divide_by_zero_reports(
    code: Seq<OpCode>,
    pool: Seq<Value>,
    ip: int,
    stack: Seq<Value>,
)
    requires
        0 <= ip < code.len(),
        code[ip] is Divide,
        stack.len() >= 2,
        stack.last()->0.num == 0,
    ensures
        spec_run(code, pool, ip, stack) == ExecOutcome::Failure(RuntimeError::DivisionByZero),
{
}

/// The outcome is the script's value, or division by zero, or numeric
/// overflow — never a stack underflow, a constant fetched out of range, or a
/// run past the end of the code.
pub open spec fn clean_outcome(o: ExecOutcome) -> bool {
    ||| o matches ExecOutcome::Success(_)
    ||| o == ExecOutcome::Failure(RuntimeError::DivisionByZero)
    ||| o == ExecOutcome::Failure(RuntimeError::NumericOverflow)
}

/// Execution of a stack-safe straight-line segment that ends in `Return`
/// can only end cleanly: each instruction finds its operands, every
/// constant index points into the pool, and the final `Return` finds the
/// result.
proof fn lemma_spec_run_safe(code: Seq<OpCode>, pool: Seq<Value>, ip: int, stack: Seq<Value>)
    requires
        0 <= ip < code.len(),
        code[code.len() - 1] is Return,
        crate::chunk::seg_safe(code.subrange(ip, code.len() - 1), stack.len() as int),
        stack.len() + crate::chunk::seg_net(code.subrange(ip, code.len() - 1)) >= 1,
        forall|i: int| 0 <= i < code.len() ==> op_in_bounds(#[trigger] code[i], pool.len() as int),
    ensures
        clean_outcome(spec_run(code, pool, ip, stack)),
    decreases code.len() - ip,
{
    let seg = code.subrange(ip, code.len() - 1);
    if ip == code.len() - 1 {
        assert(seg.len() == 0);
        assert(stack.len() >= 1);
    } else {
        assert(seg[0] == code[ip]);
        let seg2 = code.subrange(ip + 1, code.len() - 1);
        assert(seg2 =~= seg.drop_first());
        match code[ip] {
            OpCode::Return => {
                assert(false);
            },
            OpCode::Constant(i) => {
                assert(i < pool.len());
                lemma_spec_run_safe(code, pool, ip + 1, stack.push(pool[i as int]));
            },
            OpCode::Negate => {
                match stack.last() {
                    Value::Number(n) => {
                        if pair_fits(rat_neg_exact(n)) {
                            lemma_spec_run_safe(
                                code,
                                pool,
                                ip + 1,
                                stack.drop_last().push(Value::Number(rat_of_pair(rat_neg_exact(n)))),
                            );
                        }
                    },
                }
            },
            _ => {
                match (stack[stack.len() - 2], stack.last()) {
                    (Value::Number(a), Value::Number(b)) => {
                        if !(code[ip] is Divide && b.num == 0) && pair_fits(
                            binary_exact(code[ip], a, b),
                        ) {
                            lemma_spec_run_safe(
                                code,
                                pool,
                                ip + 1,
                                stack.drop_last().drop_last().push(
                                    Value::Number(rat_of_pair(binary_exact(code[ip], a, b))),
                                ),
                            );
                        }
                    },
                }
            },
        }
    }
}

/// A law of the whole pipeline: a well-formed chunk whose body (everything
/// before the final `Return`) is stack-safe from depth 0 and leaves one
/// value behind executes cleanly — the outcome is the script's value, or
/// division by zero, or numeric overflow, never an underflow, an unknown
/// fetch, or an out-of-range constant. The compiler's `compile` promises
/// exactly these premises of every chunk it hands out.
pub proof fn lemma_compiled_chunk_runs_clean(c: Chunk)
    requires
        c.wf(),
        c.code@.len() > 0,
        c.code@.last() is Return,
        crate::chunk::seg_safe(c.code@.subrange(0, c.code@.len() - 1), 0),
        crate::chunk::seg_net(c.code@.subrange(0, c.code@.len() - 1)) >= 1,
    ensures
        clean_outcome(spec_run(c.code@, c.constants@, 0, Seq::<Value>::empty())),
{
    if c.code@.len() == 1 {
        assert(c.code@.subrange(0, 0).len() == 0);
        assert(false);
    } else {
        lemma_spec_run_safe(c.code@, c.constants@, 0, Seq::<Value>::empty());
    }
}

/// The virtual machine: an instruction pointer and an operand stack, reset at
/// the start of each run and owned exclusively for its duration.
pub struct VM {
    /// Offset of the next instruction to fetch.
    pub ip: usize,
    /// The operand stack, sole runtime storage for intermediate values.
    pub stack: Vec<Value>,
}

impl VM {
    /// A fresh machine.
    pub fn new() -> (r: VM)
        ensures
            r.ip == 0,
            r.stack@ == Seq::<Value>::empty(),
    {
        VM { ip: 0, stack: Vec::new() }
    }

    /// Compiles one expression and, only if compilation recorded no error,
    /// executes the chunk. The whole pipeline's contract: the call succeeds
    /// exactly when the source parses as one expression followed by end of
    /// input, and then the returned value is exactly the expression's value
    /// under the machine-exact number model (`sp_compile_at`); a compile
    /// failure hands back the diagnostics; a run-time failure is exactly the
    /// arithmetic failure — division by zero, or a result out of the number
    /// type's range — that the evaluation runs into.
    pub fn interpret(&mut self, source: String) -> (r: Result<Value, InterpretError>)
        requires
            source@.len() < usize::MAX,
        ensures
            r matches Err(InterpretError::Compile(_)) ==> final(self).stack@ == old(self).stack@
                && final(self).ip == old(self).ip,
            ({
                let sp = crate::compiler::sp_compile_at(source@);
                match r {
                    Ok(v) => sp.ok && sp.val == crate::chunk::EvalRes::Val(v->0),
                    Err(InterpretError::Compile(ds)) => !sp.ok && ds@.len() > 0,
                    Err(InterpretError::Runtime(e)) => sp.ok && ((e
                        == RuntimeError::DivisionByZero && sp.val is DivByZero) || (e
                        == RuntimeError::NumericOverflow && sp.val is Overflow)),
                }
            }),
    {
        let mut parser = Parser::new(source);
        let compiled = parser.compile();
        match compiled {
            Err(ds) => Err(InterpretError::Compile(ds)),
            Ok(chunk) => {
                let result = self.run(&chunk);
                proof {
                    let body = chunk.code@.subrange(0, chunk.code@.len() - 1);
                    let sp = crate::compiler::sp_compile_at(source@);
                    lemma_spec_run_is_seg_exec(
                        chunk.code@,
                        chunk.constants@,
                        0,
                        Seq::<Value>::empty(),
                    );
                    assert(seg_exec(body, chunk.constants@, Seq::<Value>::empty())
                        == crate::chunk::eval_out(Seq::<Value>::empty(), sp.val));
                    match sp.val {
                        crate::chunk::EvalRes::Val(v) => {
                            assert(Seq::<Value>::empty().push(Value::Number(v)).last()
                                == Value::Number(v));
                        },
                        _ => {},
                    }
                }
                match result {
                    Ok(v) => Ok(v),
                    Err(e) => Err(InterpretError::Runtime(e)),
                }
            },
        }
    }

    /// Executes a completed chunk and returns the script result (the value
    /// `Return` pops) or the first run-time failure — exactly the outcome the
    /// specification semantics assigns to the chunk.
    pub fn run(&mut self, chunk: &Chunk) -> (r: Result<Value, RuntimeError>)
        ensures
            outcome_of(r) == spec_run(
                chunk.code@,
                chunk.constants@,
                0,
                Seq::<Value>::empty(),
            ),
    {
        self.ip = 0;
        self.stack.clear();
        loop
            invariant
                self.ip <= chunk.code@.len(),
                spec_run(chunk.code@, chunk.constants@, self.ip as int, self.stack@) == spec_run(
                    chunk.code@,
                    chunk.constants@,
                    0,
                    Seq::<Value>::empty(),
                ),
            decreases chunk.code@.len() - self.ip,
        {
            let instruction = match self.read_byte(chunk) {
                None => {
                    return Err(RuntimeError::MissingReturn);
                },
                Some(op) => op,
            };
            match instruction {
                OpCode::Return => {
                    match self.stack.pop() {
                        None => {
                            return Err(RuntimeError::EmptyStackOnReturn);
                        },
                        Some(result) => {
                            return Ok(result);
                        },
                    }
                },
                OpCode::Constant(index) => {
                    if index >= chunk.constants.len() {
                        return Err(RuntimeError::InvalidConstantIndex(index));
                    }
                    let c = chunk.constants[index];
                    self.stack.push(c);
                },
                OpCode::Negate => {
                    match self.stack.pop() {
                        None => {
                            return Err(RuntimeError::EmptyStackOnNegate);
                        },
                        Some(Value::Number(n)) => {
                            match n.checked_neg() {
                                None => {
                                    return Err(RuntimeError::NumericOverflow);
                                },
                                Some(m) => {
                                    self.stack.push(Value::Number(m));
                                },
                            }
                        },
                    }
                },
                OpCode::Add | OpCode::Subtract | OpCode::Multiply | OpCode::Divide => {
                    match self.perform_binary_numeric_op(instruction) {
                        Ok(()) => {},
                        Err(e) => {
                            return Err(e);
                        },
                    }
                },
            }
        }
    }

    /// Fetches the instruction under the instruction pointer and moves the
    /// pointer past it, or reports that the pointer has run off the end.
    fn read_byte(&mut self, chunk: &Chunk) -> (r: Option<OpCode>)
        ensures
            final(self).stack@ == old(self).stack@,
            old(self).ip < chunk.code@.len() ==> r == Some(chunk.code@[old(self).ip as int])
                && final(self).ip == old(self).ip + 1,
            old(self).ip >= chunk.code@.len() ==> r is None && final(self).ip == old(self).ip,
    {
        if self.ip >= chunk.code.len() {
            None
        } else {
            let op = chunk.code[self.ip];
            self.ip = self.ip + 1;
            Some(op)
        }
    }

    /// Pops the right then the left operand, applies the binary arithmetic
    /// instruction `op`, and pushes the result; `Divide` rejects a zero right
    /// operand before anything is computed.
    fn perform_binary_numeric_op(&mut self, op: OpCode) -> (r: Result<(), RuntimeError>)
        requires
            is_binary_op(op),
        ensures
            match r {
                Ok(()) => {
                    &&& old(self).stack@.len() >= 2
                    &&& ({
                        let a = old(self).stack@[old(self).stack@.len() - 2]->0;
                        let b = old(self).stack@.last()->0;
                        &&& !(op is Divide && b.num == 0)
                        &&& pair_fits(binary_exact(op, a, b))
                        &&& final(self).stack@ == old(self).stack@.drop_last().drop_last().push(
                            Value::Number(rat_of_pair(binary_exact(op, a, b))),
                        )
                    })
                },
                Err(e) => {
                    &&& final(self).stack@ == old(self).stack@
                    &&& ({
                        if old(self).stack@.len() < 2 {
                            e == RuntimeError::StackUnderflowOnBinary
                        } else {
                            let a = old(self).stack@[old(self).stack@.len() - 2]->0;
                            let b = old(self).stack@.last()->0;
                            if op is Divide && b.num == 0 {
                                e == RuntimeError::DivisionByZero
                            } else {
                                e == RuntimeError::NumericOverflow && !pair_fits(
                                    binary_exact(op, a, b),
                                )
                            }
                        }
                    })
                },
            },
            final(self).ip == old(self).ip,
    {
        if self.stack.len() < 2 {
            return Err(RuntimeError::StackUnderflowOnBinary);
        }
        let ghost stack0 = self.stack@;
        let b = match self.stack[self.stack.len() - 1] {
            Value::Number(b) => b,
        };
        let a = match self.stack[self.stack.len() - 2] {
            Value::Number(a) => a,
        };
        if let OpCode::Divide = op {
            if b.is_zero() {
                return Err(RuntimeError::DivisionByZero);
            }
        }
        let computed = match op {
            OpCode::Add => a.checked_add(b),
            OpCode::Subtract => a.checked_sub(b),
            OpCode::Multiply => a.checked_mul(b),
            _ => a.checked_div(b),
        };
        match computed {
            None => Err(RuntimeError::NumericOverflow),
            Some(v) => {
                let _ = self.stack.pop();
                let _ = self.stack.pop();
                self.stack.push(Value::Number(v));
                proof {
                    assert(self.stack@ =~= stack0.drop_last().drop_last().push(
                        Value::Number(v),
                    ));
                }
                Ok(())
            },
        }
    }
}

} // verus!

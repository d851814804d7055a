//! The bytecode container: an append-only instruction stream, a parallel
//! line-number stream, and a constant pool.

use vstd::prelude::*;

use crate::value::{
    Rational, Value, pair_fits, rat_add_exact, rat_div_exact, rat_mul_exact, rat_neg_exact,
    rat_of_pair, rat_sub_exact, value_wf,
};

verus! {

/// One bytecode instruction. `Constant` carries an index into the chunk's
/// constant pool as its operand.
#[derive(Clone, Copy, Debug, PartialEq, Eq, Structural)]
pub enum OpCode {
    Negate,
    Return,
    Constant(usize),
    Add,
    Subtract,
    Multiply,
    Divide,
}

/// Whether an instruction refers only to constants below `pool_len`.
pub open spec fn op_in_bounds(op: OpCode, pool_len: int) -> bool {
    match op {
        OpCode::Constant(i) => i < pool_len,
        _ => true,
    }
}

/// The net change one instruction makes to the operand stack depth.
/// (`Return` ends execution; its entry is never used by the segment
/// predicates below, which exclude it.)
pub open spec fn op_effect(op: OpCode) -> int {
    match op {
        OpCode::Constant(_) => 1,
        OpCode::Negate => 0,
        OpCode::Return => 0,
        _ => -1,
    }
}

/// The net stack effect of a straight-line segment of instructions.
pub open spec fn seg_net(s: Seq<OpCode>) -> int
    decreases s.len(),
{
    if s.len() == 0 {
        0
    } else {
        op_effect(s[0]) + seg_net(s.drop_first())
    }
}

/// Whether a straight-line segment, entered at operand-stack depth `d`,
/// always finds the operands each instruction pops — and contains no
/// `Return`, so execution runs it to the end.
pub open spec fn seg_safe(s: Seq<OpCode>, d: int) -> bool
    decreases s.len(),
{
    if s.len() == 0 {
        true
    } else {
        match s[0] {
            OpCode::Constant(_) => seg_safe(s.drop_first(), d + 1),
            OpCode::Negate => d >= 1 && seg_safe(s.drop_first(), d),
            OpCode::Return => false,
            _ => d >= 2 && seg_safe(s.drop_first(), d - 1),
        }
    }
}

/// The effect and safety of a one-instruction segment, spelled out.
pub proof fn lemma_seg_single(op: OpCode)
    ensures
        seg_net(seq![op]) == op_effect(op),
        forall|d: int| seg_safe(seq![op], d) == (match op {
            OpCode::Constant(_) => true,
            OpCode::Negate => d >= 1,
            OpCode::Return => false,
            _ => d >= 2,
        }),
{
    let s = seq![op];
    assert(s.drop_first() =~= Seq::<OpCode>::empty());
    assert(seg_net(Seq::<OpCode>::empty()) == 0);
    assert forall|d: int| seg_safe(s, d) == (match op {
        OpCode::Constant(_) => true,
        OpCode::Negate => d >= 1,
        OpCode::Return => false,
        _ => d >= 2,
    }) by {
        assert(seg_safe(Seq::<OpCode>::empty(), d + 1));
        assert(seg_safe(Seq::<OpCode>::empty(), d));
        assert(seg_safe(Seq::<OpCode>::empty(), d - 1));
    }
}

/// Safe segments compose: run `a` from depth `d`, then `b` from the depth
/// `a` leaves behind.
pub proof fn lemma_seg_concat(a: Seq<OpCode>, b: Seq<OpCode>, d: int)
    requires
        seg_safe(a, d),
        seg_safe(b, d + seg_net(a)),
    ensures
        seg_safe(a + b, d),
        seg_net(a + b) == seg_net(a) + seg_net(b),
    decreases a.len(),
{
    if a.len() == 0 {
        assert(a + b =~= b);
    } else {
        assert((a + b)[0] == a[0]);
        assert((a + b).drop_first() =~= a.drop_first() + b);
        match a[0] {
            OpCode::Constant(_) => lemma_seg_concat(a.drop_first(), b, d + 1),
            OpCode::Negate => lemma_seg_concat(a.drop_first(), b, d),
            OpCode::Return => {},
            _ => lemma_seg_concat(a.drop_first(), b, d - 1),
        }
    }
}

/// The exact (numerator, denominator) a binary arithmetic instruction asks
/// for. Meaningful for the four arithmetic opcodes only.
pub open spec fn binary_exact(op: OpCode, a: Rational, b: Rational) -> (int, int) {
    match op {
        OpCode::Add => rat_add_exact(a, b),
        OpCode::Subtract => rat_sub_exact(a, b),
        OpCode::Multiply => rat_mul_exact(a, b),
        OpCode::Divide => rat_div_exact(a, b),
        _ => (0, 0),
    }
}

/// What evaluating an expression comes to under the machine-exact number
/// model: a rational value, or the one arithmetic failure it runs into
/// first.
pub ghost enum EvalRes {
    /// The exact value.
    Val(Rational),
    /// A division whose right operand denotes zero.
    DivByZero,
    /// An exact result outside the machine range of the number type.
    Overflow,
}

/// Negation under the machine-exact model: failures pass through.
pub open spec fn eval_neg(v: EvalRes) -> EvalRes {
    match v {
        EvalRes::Val(r) => if pair_fits(rat_neg_exact(r)) {
            EvalRes::Val(rat_of_pair(rat_neg_exact(r)))
        } else {
            EvalRes::Overflow
        },
        _ => v,
    }
}

/// A binary arithmetic instruction under the machine-exact model: the left
/// operand's failure first (its code runs first), then the right's, then a
/// zero right divisor, then the range of the exact result.
pub open spec fn eval_bin(op: OpCode, l: EvalRes, r: EvalRes) -> EvalRes {
    match l {
        EvalRes::Val(a) => match r {
            EvalRes::Val(b) => {
                if op is Divide && b.num == 0 {
                    EvalRes::DivByZero
                } else if pair_fits(binary_exact(op, a, b)) {
                    EvalRes::Val(rat_of_pair(binary_exact(op, a, b)))
                } else {
                    EvalRes::Overflow
                }
            },
            _ => r,
        },
        _ => l,
    }
}

/// Why a straight-line segment aborted.
pub ghost enum SegFault {
    /// A `Constant` whose index points past the pool.
    BadConstant(usize),
    /// `Negate` on an empty stack.
    EmptyNegate,
    /// A binary instruction with fewer than two operands.
    Underflow,
    /// A division whose right operand denotes zero.
    DivZero,
    /// An exact result outside the machine range.
    Overflow,
    /// A `Return` inside the segment (segments end before `Return`).
    SawReturn,
}

/// The stack after a straight-line segment, or the first abort.
pub ghost enum SegOut {
    /// The segment ran to its end, leaving this stack.
    More(Seq<Value>),
    /// The segment aborted.
    Abort(SegFault),
}

/// One instruction's effect on the stack, mirroring the virtual machine's
/// checks in their order.
pub open spec fn seg_step(op: OpCode, pool: Seq<Value>, stack: Seq<Value>) -> SegOut {
    match op {
        OpCode::Return => SegOut::Abort(SegFault::SawReturn),
        OpCode::Constant(i) => {
            if i >= pool.len() {
                SegOut::Abort(SegFault::BadConstant(i))
            } else {
                SegOut::More(stack.push(pool[i as int]))
            }
        },
        OpCode::Negate => {
            if stack.len() == 0 {
                SegOut::Abort(SegFault::EmptyNegate)
            } else {
                match stack.last() {
                    Value::Number(n) => {
                        if pair_fits(rat_neg_exact(n)) {
                            SegOut::More(
                                stack.drop_last().push(Value::Number(rat_of_pair(rat_neg_exact(n)))),
                            )
                        } else {
                            SegOut::Abort(SegFault::Overflow)
                        }
                    },
                }
            }
        },
        _ => {
            if stack.len() < 2 {
                SegOut::Abort(SegFault::Underflow)
            } else {
                match (stack[stack.len() - 2], stack.last()) {
                    (Value::Number(a), Value::Number(b)) => {
                        if op is Divide && b.num == 0 {
                            SegOut::Abort(SegFault::DivZero)
                        } else if pair_fits(binary_exact(op, a, b)) {
                            SegOut::More(
                                stack.drop_last().drop_last().push(
                                    Value::Number(rat_of_pair(binary_exact(op, a, b))),
                                ),
                            )
                        } else {
                            SegOut::Abort(SegFault::Overflow)
                        }
                    },
                }
            }
        },
    }
}

/// Running a straight-line segment: instruction by instruction, stopping at
/// the first abort.
pub open spec fn seg_exec(code: Seq<OpCode>, pool: Seq<Value>, stack: Seq<Value>) -> SegOut
    decreases code.len(),
{
    if code.len() == 0 {
        SegOut::More(stack)
    } else {
        match seg_step(code[0], pool, stack) {
            SegOut::More(st) => seg_exec(code.drop_first(), pool, st),
            SegOut::Abort(e) => SegOut::Abort(e),
        }
    }
}

/// What a segment evaluating to `v` leaves behind, starting from `stack`.
pub open spec fn eval_out(stack: Seq<Value>, v: EvalRes) -> SegOut {
    match v {
        EvalRes::Val(r) => SegOut::More(stack.push(Value::Number(r))),
        EvalRes::DivByZero => SegOut::Abort(SegFault::DivZero),
        EvalRes::Overflow => SegOut::Abort(SegFault::Overflow),
    }
}

/// The segment computes exactly `v`, whatever stack it starts from.
pub open spec fn evaluates(code: Seq<OpCode>, pool: Seq<Value>, v: EvalRes) -> bool {
    forall|stack: Seq<Value>| seg_exec(code, pool, stack) == eval_out(stack, v)
}

/// With one extra value on the stack — the left operand — the segment
/// computes exactly `v` (the right operand's code followed by the operator).
pub open spec fn evaluates_infix(code: Seq<OpCode>, pool: Seq<Value>, lv: Rational, v: EvalRes)
    -> bool {
    forall|stack: Seq<Value>|
        seg_exec(code, pool, stack.push(Value::Number(lv))) == eval_out(stack, v)
}

/// Segments execute one after the other.
pub proof fn lemma_seg_exec_concat(a: Seq<OpCode>, b: Seq<OpCode>, pool: Seq<Value>, stack: Seq<Value>)
    ensures
        seg_exec(a + b, pool, stack) == (match seg_exec(a, pool, stack) {
            SegOut::More(st) => seg_exec(b, pool, st),
            SegOut::Abort(e) => SegOut::Abort(e),
        }),
    decreases a.len(),
{
    if a.len() == 0 {
        assert(a + b =~= b);
    } else {
        assert((a + b)[0] == a[0]);
        assert((a + b).drop_first() =~= a.drop_first() + b);
        match seg_step(a[0], pool, stack) {
            SegOut::More(st) => {
                lemma_seg_exec_concat(a.drop_first(), b, pool, st);
            },
            SegOut::Abort(_) => {},
        }
    }
}

/// A one-instruction segment does exactly its step.
pub proof fn lemma_seg_exec_single(op: OpCode, pool: Seq<Value>)
    ensures
        forall|stack: Seq<Value>| seg_exec(seq![op], pool, stack) == (match seg_step(
            op,
            pool,
            stack,
        ) {
            SegOut::More(st) => SegOut::More(st),
            SegOut::Abort(e) => SegOut::Abort(e),
        }),
{
    assert forall|stack: Seq<Value>| seg_exec(seq![op], pool, stack) == (match seg_step(
        op,
        pool,
        stack,
    ) {
        SegOut::More(st) => SegOut::More(st),
        SegOut::Abort(e) => SegOut::Abort(e),
    }) by {
        assert(seq![op].drop_first() =~= Seq::<OpCode>::empty());
        match seg_step(op, pool, stack) {
            SegOut::More(st) => {
                assert(seg_exec(Seq::<OpCode>::empty(), pool, st) == SegOut::More(st));
            },
            SegOut::Abort(_) => {},
        }
    }
}

/// Whether every constant an instruction sequence names lies below `n`.
pub open spec fn code_in_bounds(code: Seq<OpCode>, n: int) -> bool {
    forall|i: int| 0 <= i < code.len() ==> op_in_bounds(#[trigger] code[i], n)
}

/// A segment whose constants all lie inside the pool reads the grown pool
/// exactly as it read the old one.
pub proof fn lemma_seg_exec_pool_extend(
    code: Seq<OpCode>,
    pool: Seq<Value>,
    pool2: Seq<Value>,
    stack: Seq<Value>,
)
    requires
        pool.len() <= pool2.len(),
        forall|i: int| 0 <= i < pool.len() ==> pool2[i] == #[trigger] pool[i],
        code_in_bounds(code, pool.len() as int),
    ensures
        seg_exec(code, pool2, stack) == seg_exec(code, pool, stack),
    decreases code.len(),
{
    if code.len() > 0 {
        assert(code_in_bounds(code.drop_first(), pool.len() as int));
        assert(seg_step(code[0], pool2, stack) == seg_step(code[0], pool, stack));
        match seg_step(code[0], pool, stack) {
            SegOut::More(st) => {
                lemma_seg_exec_pool_extend(code.drop_first(), pool, pool2, st);
            },
            SegOut::Abort(_) => {},
        }
    }
}

/// Evaluating segments compose: after `a` computes `v`, `b` — needing the
/// one value `a` left on the stack — computes `w`; a failure in `a` is the
/// whole segment's result.
pub proof fn lemma_evaluates_chain(
    a: Seq<OpCode>,
    b: Seq<OpCode>,
    pool: Seq<Value>,
    v: EvalRes,
    w: EvalRes,
)
    requires
        evaluates(a, pool, v),
        match v {
            EvalRes::Val(l) => evaluates_infix(b, pool, l, w),
            _ => w == v,
        },
    ensures
        evaluates(a + b, pool, w),
{
    assert forall|stack: Seq<Value>| seg_exec(a + b, pool, stack) == eval_out(stack, w) by {
        lemma_seg_exec_concat(a, b, pool, stack);
        assert(seg_exec(a, pool, stack) == eval_out(stack, v));
        match v {
            EvalRes::Val(l) => {
                assert(seg_exec(b, pool, stack.push(Value::Number(l))) == eval_out(stack, w));
            },
            _ => {},
        }
    }
}

/// A segment whose constants lie inside the pool evaluates the same over
/// any extension of that pool.
pub proof fn lemma_evaluates_pool_extend(
    code: Seq<OpCode>,
    pool: Seq<Value>,
    pool2: Seq<Value>,
    v: EvalRes,
)
    requires
        evaluates(code, pool, v),
        pool.len() <= pool2.len(),
        forall|i: int| 0 <= i < pool.len() ==> pool2[i] == #[trigger] pool[i],
        code_in_bounds(code, pool.len() as int),
    ensures
        evaluates(code, pool2, v),
{
    assert forall|stack: Seq<Value>| seg_exec(code, pool2, stack) == eval_out(stack, v) by {
        lemma_seg_exec_pool_extend(code, pool, pool2, stack);
    }
}

/// Two chunks holding the same streams and pool.
pub open spec fn same_chunk(a: Chunk, b: Chunk) -> bool {
    a.code@ == b.code@ && a.constants@ == b.constants@ && a.line_numbers@ == b.line_numbers@
}

/// The compiled artifact handed from the compiler to the virtual machine.
#[derive(Debug)]
pub struct Chunk {
    /// The ordered instruction stream.
    pub code: Vec<OpCode>,
    /// The constant pool; indices are stable once assigned.
    pub constants: Vec<Value>,
    /// One source line per instruction, index-aligned with `code`.
    pub line_numbers: Vec<usize>,
}

impl Chunk {
    /// Well-formedness: the line-number stream runs in lock-step with the
    /// instruction stream, every `Constant(i)` points into the pool, and
    /// every pooled value is itself well-formed.
    pub open spec fn wf(self) -> bool {
        &&& self.code@.len() == self.line_numbers@.len()
        &&& forall|i: int|
            0 <= i < self.code@.len() ==> op_in_bounds(
                #[trigger] self.code@[i],
                self.constants@.len() as int,
            )
        &&& forall|i: int| 0 <= i < self.constants@.len() ==> value_wf(#[trigger] self.constants@[i])
    }

    /// An empty container, trivially well-formed.
    pub fn new() -> (r: Chunk)
        ensures
            r.code@ == Seq::<OpCode>::empty(),
            r.constants@ == Seq::<Value>::empty(),
            r.line_numbers@ == Seq::<usize>::empty(),
            r.wf(),
    {
        Chunk { code: Vec::new(), constants: Vec::new(), line_numbers: Vec::new() }
    }

    /// Appends a value to the constant pool and returns its new, never-reused
    /// index. The pool only ever grows, so indices handed out earlier keep
    /// pointing at the same values.
    pub fn add_constant(&mut self, constant: Value) -> (index: usize)
        ensures
            final(self).constants@ == old(self).constants@.push(constant),
            index == old(self).constants@.len(),
            final(self).code@ == old(self).code@,
            final(self).line_numbers@ == old(self).line_numbers@,
            old(self).wf() && value_wf(constant) ==> final(self).wf(),
    {
        self.constants.push(constant);
        self.constants.len() - 1
    }

    /// Appends an instruction together with its source line, keeping the two
    /// streams in lock-step.
    pub fn write_chunk(&mut self, op: OpCode, current_line_number: usize)
        ensures
            final(self).code@ == old(self).code@.push(op),
            final(self).line_numbers@ == old(self).line_numbers@.push(current_line_number),
            final(self).constants@ == old(self).constants@,
            final(self).code@.len() == final(self).line_numbers@.len() <==> old(self).code@.len()
                == old(self).line_numbers@.len(),
            old(self).wf() && op_in_bounds(op, old(self).constants@.len() as int)
                ==> final(self).wf(),
    {
        self.code.push(op);
        self.line_numbers.push(current_line_number);
    }
}

} // verus!

//! The compiler to stack operations and the stack machine that runs them.
//!
//! Compilation is a post-order walk of the tree, so the machine meets the
//! operands of every binary node in the same left-before-right order as the
//! interpreter; `lemma_backends_agree` proves that the two back ends return
//! the same result on every tree.

use vstd::prelude::*;
use crate::ast::{spec_eval, spec_eval_checked, spec_fits, Expression, SpecExpr};
use crate::value::{
    can_add, can_mul, can_sub, spec_add, spec_mul, spec_sub, val_fits, SpecVal, Value,
};

verus! {

/// Mathematical model of one stack operation.
pub enum SpecOp {
    Push(SpecVal),
    Add,
    Subtract,
    Multiply,
}

/// One straight-line stack operation; the instruction set has no jumps.
#[derive(Clone, Copy, Debug, PartialEq, Eq, Structural)]
pub enum StackOp {
    Push(Value),
    Add,
    Subtract,
    Multiply,
}

pub open spec fn op_view(op: StackOp) -> SpecOp {
    match op {
        StackOp::Push(v) => SpecOp::Push(v@),
        StackOp::Add => SpecOp::Add,
        StackOp::Subtract => SpecOp::Subtract,
        StackOp::Multiply => SpecOp::Multiply,
    }
}

impl View for StackOp {
    type V = SpecOp;

    open spec fn view(&self) -> SpecOp {
        op_view(*self)
    }
}

/// The models of an operation sequence.
pub open spec fn op_views(ops: Seq<StackOp>) -> Seq<SpecOp> {
    Seq::new(ops.len(), |i: int| ops[i]@)
}

/// The models of a value stack.
pub open spec fn value_views(vs: Seq<Value>) -> Seq<SpecVal> {
    Seq::new(vs.len(), |i: int| vs[i]@)
}

/// How a run of the machine can end: a final stack, an operation whose
/// exact result left the machine range, or a binary operation that met
/// fewer than two stack entries.
pub enum MachineResult {
    Halted(Seq<SpecVal>),
    Overflow,
    Underflow,
}

/// One step per operation: push a value, or pop `right` then `left` and
/// push `left op right`. The run stops at the first failure.
pub open spec fn spec_run(ops: Seq<SpecOp>, stack: Seq<SpecVal>) -> MachineResult
    decreases ops.len(),
{
    if ops.len() == 0 {
        MachineResult::Halted(stack)
    } else {
        match ops[0] {
            SpecOp::Push(v) => {
                if !val_fits(v) {
                    MachineResult::Overflow
                } else {
                    spec_run(ops.drop_first(), stack.push(v))
                }
            },
            SpecOp::Add => {
                if stack.len() < 2 {
                    MachineResult::Underflow
                } else {
                    let left = stack[stack.len() - 2];
                    let right = stack[stack.len() - 1];
                    if !can_add(left, right) {
                        MachineResult::Overflow
                    } else {
                        spec_run(
                            ops.drop_first(),
                            stack.take(stack.len() - 2).push(spec_add(left, right)),
                        )
                    }
                }
            },
            SpecOp::Subtract => {
                if stack.len() < 2 {
                    MachineResult::Underflow
                } else {
                    let left = stack[stack.len() - 2];
                    let right = stack[stack.len() - 1];
                    if !can_sub(left, right) {
                        MachineResult::Overflow
                    } else {
                        spec_run(
                            ops.drop_first(),
                            stack.take(stack.len() - 2).push(spec_sub(left, right)),
                        )
                    }
                }
            },
            SpecOp::Multiply => {
                if stack.len() < 2 {
                    MachineResult::Underflow
                } else {
                    let left = stack[stack.len() - 2];
                    let right = stack[stack.len() - 1];
                    if !can_mul(left, right) {
                        MachineResult::Overflow
                    } else {
                        spec_run(
                            ops.drop_first(),
                            stack.take(stack.len() - 2).push(spec_mul(left, right)),
                        )
                    }
                }
            },
        }
    }
}

/// Post-order lowering: operands first, operator last.
pub open spec fn spec_compile(e: SpecExpr) -> Seq<SpecOp>
    decreases e,
{
    match e {
        SpecExpr::Number(v) => seq![SpecOp::Push(v)],
        SpecExpr::Sum(l, r) => spec_compile(*l) + spec_compile(*r) + seq![SpecOp::Add],
        SpecExpr::Difference(l, r) => spec_compile(*l) + spec_compile(*r)
            + seq![SpecOp::Subtract],
        SpecExpr::Product(l, r) => spec_compile(*l) + spec_compile(*r) + seq![SpecOp::Multiply],
    }
}

/// Running a concatenation runs the first part, then the second from
/// wherever the first halted.
proof fn lemma_run_append(a: Seq<SpecOp>, b: Seq<SpecOp>, stack: Seq<SpecVal>)
    ensures
        spec_run(a + b, stack) == (match spec_run(a, stack) {
            MachineResult::Halted(s) => spec_run(b, s),
            MachineResult::Overflow => MachineResult::Overflow,
            MachineResult::Underflow => MachineResult::Underflow,
        }),
    decreases a.len(),
{
    if a.len() == 0 {
        assert(a + b =~= b);
    } else {
        assert((a + b).drop_first() =~= a.drop_first() + b);
        match a[0] {
            SpecOp::Push(v) => {
                if val_fits(v) {
                    lemma_run_append(a.drop_first(), b, stack.push(v));
                }
            },
            SpecOp::Add => {
                if stack.len() >= 2 {
                    let left = stack[stack.len() - 2];
                    let right = stack[stack.len() - 1];
                    if can_add(left, right) {
                        lemma_run_append(
                            a.drop_first(),
                            b,
                            stack.take(stack.len() - 2).push(spec_add(left, right)),
                        );
                    }
                }
            },
            SpecOp::Subtract => {
                if stack.len() >= 2 {
                    let left = stack[stack.len() - 2];
                    let right = stack[stack.len() - 1];
                    if can_sub(left, right) {
                        lemma_run_append(
                            a.drop_first(),
                            b,
                            stack.take(stack.len() - 2).push(spec_sub(left, right)),
                        );
                    }
                }
            },
            SpecOp::Multiply => {
                if stack.len() >= 2 {
                    let left = stack[stack.len() - 2];
                    let right = stack[stack.len() - 1];
                    if can_mul(left, right) {
                        lemma_run_append(
                            a.drop_first(),
                            b,
                            stack.take(stack.len() - 2).push(spec_mul(left, right)),
                        );
                    }
                }
            },
        }
    }
}

/// Compiler correctness: on any starting stack, the compiled code of `e`
/// pushes exactly the interpreter's value of `e`, or stops with an overflow
/// exactly when some value met during evaluation does not fit the machine.
pub proof fn lemma_compile_correct(e: SpecExpr, stack: Seq<SpecVal>)
    ensures
        spec_run(spec_compile(e), stack) == (if spec_fits(e) {
            MachineResult::Halted(stack.push(spec_eval(e)))
        } else {
            MachineResult::Overflow
        }),
    decreases e, 1nat,
{
    match e {
        SpecExpr::Number(v) => {
            reveal_with_fuel(spec_run, 2);
            assert(seq![SpecOp::Push(v)][0] == SpecOp::Push(v));
            assert(seq![SpecOp::Push(v)].drop_first() =~= Seq::<SpecOp>::empty());
        },
        SpecExpr::Sum(l, r) => {
            lemma_compile_binary(e, *l, *r, stack);
        },
        SpecExpr::Difference(l, r) => {
            lemma_compile_binary(e, *l, *r, stack);
        },
        SpecExpr::Product(l, r) => {
            lemma_compile_binary(e, *l, *r, stack);
        },
    }
}

/// The shared argument for the three binary node kinds.
proof fn lemma_compile_binary(e: SpecExpr, l: SpecExpr, r: SpecExpr, stack: Seq<SpecVal>)
    requires
        e == SpecExpr::Sum(Box::new(l), Box::new(r)) || e == SpecExpr::Difference(
            Box::new(l),
            Box::new(r),
        ) || e == SpecExpr::Product(Box::new(l), Box::new(r)),
    ensures
        spec_run(spec_compile(e), stack) == (if spec_fits(e) {
            MachineResult::Halted(stack.push(spec_eval(e)))
        } else {
            MachineResult::Overflow
        }),
    decreases e, 0nat,
{
    reveal_with_fuel(spec_run, 3);
    let tail = if e is Sum {
        seq![SpecOp::Add]
    } else if e is Difference {
        seq![SpecOp::Subtract]
    } else {
        seq![SpecOp::Multiply]
    };
    assert(spec_compile(e) == spec_compile(l) + spec_compile(r) + tail);
    lemma_run_append(spec_compile(l) + spec_compile(r), tail, stack);
    lemma_run_append(spec_compile(l), spec_compile(r), stack);
    lemma_compile_correct(l, stack);
    if spec_fits(l) {
        let s1 = stack.push(spec_eval(l));
        lemma_compile_correct(r, s1);
        if spec_fits(r) {
            let s2 = s1.push(spec_eval(r));
            assert(s2.len() >= 2);
            assert(s2[s2.len() - 2] == spec_eval(l));
            assert(s2[s2.len() - 1] == spec_eval(r));
            assert(s2.take(s2.len() - 2) =~= stack);
            assert(tail.drop_first() =~= Seq::<SpecOp>::empty());
            if e is Sum {
                assert(spec_eval(e) == spec_add(spec_eval(l), spec_eval(r)));
                assert(spec_fits(e) <==> can_add(spec_eval(l), spec_eval(r)));
                assert(tail[0] == SpecOp::Add);
                if can_add(spec_eval(l), spec_eval(r)) {
                    assert(spec_run(tail, s2) == MachineResult::Halted(
                        stack.push(spec_eval(e)),
                    ));
                } else {
                    assert(spec_run(tail, s2) == MachineResult::Overflow);
                }
            } else if e is Difference {
                assert(spec_eval(e) == spec_sub(spec_eval(l), spec_eval(r)));
                assert(spec_fits(e) <==> can_sub(spec_eval(l), spec_eval(r)));
                assert(tail[0] == SpecOp::Subtract);
                if can_sub(spec_eval(l), spec_eval(r)) {
                    assert(spec_run(tail, s2) == MachineResult::Halted(
                        stack.push(spec_eval(e)),
                    ));
                } else {
                    assert(spec_run(tail, s2) == MachineResult::Overflow);
                }
            } else {
                assert(spec_eval(e) == spec_mul(spec_eval(l), spec_eval(r)));
                assert(spec_fits(e) <==> can_mul(spec_eval(l), spec_eval(r)));
                assert(tail[0] == SpecOp::Multiply);
                if can_mul(spec_eval(l), spec_eval(r)) {
                    assert(spec_run(tail, s2) == MachineResult::Halted(
                        stack.push(spec_eval(e)),
                    ));
                } else {
                    assert(spec_run(tail, s2) == MachineResult::Overflow);
                }
            }
        } else {
            assert(!spec_fits(e));
        }
    } else {
        assert(!spec_fits(e));
    }
}

/// The two back ends agree on every tree: on an empty stack the compiled
/// code halts with exactly the interpreter's one value, and it overflows
/// exactly when the interpreter reports that the result does not fit.
pub proof fn lemma_backends_agree(e: SpecExpr)
    ensures
        spec_run(spec_compile(e), Seq::<SpecVal>::empty()) == (match spec_eval_checked(e) {
            Some(v) => MachineResult::Halted(seq![v]),
            None => MachineResult::Overflow,
        }),
{
    lemma_compile_correct(e, Seq::<SpecVal>::empty());
    if spec_fits(e) {
        assert(Seq::<SpecVal>::empty().push(spec_eval(e)) =~= seq![spec_eval(e)]);
    }
}

/// The number of leaves of a tree.
pub open spec fn leaf_count(e: SpecExpr) -> nat
    decreases e,
{
    match e {
        SpecExpr::Number(_) => 1,
        SpecExpr::Sum(l, r) => leaf_count(*l) + leaf_count(*r),
        SpecExpr::Difference(l, r) => leaf_count(*l) + leaf_count(*r),
        SpecExpr::Product(l, r) => leaf_count(*l) + leaf_count(*r),
    }
}

/// A tree with `n` leaves compiles to exactly `2n - 1` operations: one
/// push per leaf and one operation per binary node.
pub proof fn lemma_compiled_length(e: SpecExpr)
    ensures
        spec_compile(e).len() == 2 * leaf_count(e) - 1,
    decreases e,
{
    match e {
        SpecExpr::Number(_) => {},
        SpecExpr::Sum(l, r) => {
            lemma_compiled_length(*l);
            lemma_compiled_length(*r);
        },
        SpecExpr::Difference(l, r) => {
            lemma_compiled_length(*l);
            lemma_compiled_length(*r);
        },
        SpecExpr::Product(l, r) => {
            lemma_compiled_length(*l);
            lemma_compiled_length(*r);
        },
    }
}

/// An operation sequence is determined by its model: two compiled programs
/// with the same model are identical element for element. With `compile`'s
/// contract this makes compilation deterministic: compiling one tree twice
/// gives identical operation sequences.
pub proof fn lemma_ops_determined(a: Seq<StackOp>, b: Seq<StackOp>)
    requires
        op_views(a) == op_views(b),
    ensures
        a == b,
{
    assert(a.len() == op_views(a).len());
    assert(b.len() == op_views(b).len());
    assert forall|i: int| 0 <= i < a.len() implies a[i] == b[i] by {
        assert(op_views(a)[i] == a[i]@);
        assert(op_views(b)[i] == b[i]@);
        assert(op_view(a[i]) == op_view(b[i]));
        match a[i] {
            StackOp::Push(v) => {
                assert(b[i] is Push);
                assert(v@ == b[i]->Push_0@);
            },
            StackOp::Add => {},
            StackOp::Subtract => {},
            StackOp::Multiply => {},
        }
    }
    assert(a =~= b);
}

/// The number of nodes of a tree; the measure under the mutual recursion
/// of `compile` and `compile_binary`.
pub open spec fn expr_size(e: Expression) -> nat
    decreases e,
{
    match e {
        Expression::Number(_) => 1,
        Expression::Sum(l, r) => 1 + expr_size(*l) + expr_size(*r),
        Expression::Difference(l, r) => 1 + expr_size(*l) + expr_size(*r),
        Expression::Product(l, r) => 1 + expr_size(*l) + expr_size(*r),
    }
}

proof fn lemma_expr_size_positive(e: Expression)
    ensures
        expr_size(e) >= 1,
{
}

/// Lowers the two operands in order and ends with the given operator.
pub fn compile_binary(left: &Expression, op: StackOp, right: &Expression) -> (r: Vec<StackOp>)
    ensures
        op_views(r@) == spec_compile(left@) + spec_compile(right@) + seq![op@],
    decreases expr_size(*left) + expr_size(*right),
{
    proof {
        lemma_expr_size_positive(*left);
        lemma_expr_size_positive(*right);
    }
    let mut out = compile(left);
    let mut rhs = compile(right);
    let ghost before = out@;
    out.append(&mut rhs);
    assert(op_views(out@) =~= spec_compile(left@) + spec_compile(right@)) by {
        assert forall|i: int| 0 <= i < out@.len() implies op_views(out@)[i] == (spec_compile(
            left@,
        ) + spec_compile(right@))[i] by {
            if i < before.len() {
                assert(op_views(before)[i] == spec_compile(left@)[i]);
            } else {
                assert(op_views(rhs@ + before.skip(before.len() as int))[0] == op_views(rhs@)[0]);
            }
        }
    }
    out.push(op);
    assert(op_views(out@) =~= spec_compile(left@) + spec_compile(right@) + seq![op@]);
    out
}

/// Post-order lowering of a tree to straight-line stack operations; for a
/// tree with `n` leaves the output holds exactly `2n - 1` operations.
/// Compilation is deterministic: the output's model is a function of the
/// tree alone.
pub fn compile(expression: &Expression) -> (r: Vec<StackOp>)
    ensures
        op_views(r@) == spec_compile(expression@),
    decreases expr_size(*expression),
{
    match expression {
        Expression::Number(v) => {
            let mut out: Vec<StackOp> = Vec::new();
            out.push(StackOp::Push(*v));
            assert(op_views(out@) =~= spec_compile(expression@));
            out
        },
        Expression::Sum(l, r) => compile_binary(l, StackOp::Add, r),
        Expression::Difference(l, r) => compile_binary(l, StackOp::Subtract, r),
        Expression::Product(l, r) => compile_binary(l, StackOp::Multiply, r),
    }
}

/// Runs the operations against one fresh value stack and returns the final
/// stack. The sequence must be stack-safe, as every compiled sequence is: a
/// binary operation that meets fewer than two entries is a broken compiler,
/// not an input error. `None` reports an operation whose exact result does
/// not fit the machine.
pub fn run_stack(ops: Vec<StackOp>) -> (r: Option<Vec<Value>>)
    requires
        !(spec_run(op_views(ops@), Seq::<SpecVal>::empty()) is Underflow),
    ensures
        match r {
            Some(stack) => spec_run(op_views(ops@), Seq::<SpecVal>::empty())
                == MachineResult::Halted(value_views(stack@)),
            None => spec_run(op_views(ops@), Seq::<SpecVal>::empty()) is Overflow,
        },
{
    let ghost all = op_views(ops@);
    let mut stack: Vec<Value> = Vec::new();
    let mut i: usize = 0;
    proof {
        assert(all.skip(0) =~= all);
        assert(value_views(stack@) =~= Seq::<SpecVal>::empty());
    }
    while i < ops.len()
        invariant
            i <= ops@.len(),
            all == op_views(ops@),
            !(spec_run(all, Seq::<SpecVal>::empty()) is Underflow),
            spec_run(all, Seq::<SpecVal>::empty()) == spec_run(
                all.skip(i as int),
                value_views(stack@),
            ),
        decreases ops@.len() - i,
    {
        let ghost rest = all.skip(i as int);
        let ghost sv = value_views(stack@);
        proof {
            assert(rest.len() == ops@.len() - i);
            assert(rest[0] == op_view(ops@[i as int]));
            assert(rest.drop_first() =~= all.skip(i as int + 1));
        }
        let op = ops[i];
        match op {
            StackOp::Push(v) => {
                stack.push(v);
                proof {
                    assert(val_fits(v@));
                    assert(value_views(stack@) =~= sv.push(v@));
                }
            },
            StackOp::Add => {
                proof {
                    if sv.len() < 2 {
                        assert(spec_run(rest, sv) is Underflow);
                    }
                }
                let right = stack.pop().unwrap();
                let left = stack.pop().unwrap();
                proof {
                    assert(left@ == sv[sv.len() - 2]);
                    assert(right@ == sv[sv.len() - 1]);
                }
                match left.checked_add(right) {
                    Some(v) => {
                        stack.push(v);
                        proof {
                            assert(value_views(stack@) =~= sv.take(sv.len() - 2).push(
                                spec_add(left@, right@),
                            ));
                        }
                    },
                    None => {
                        proof {
                            assert(spec_run(rest, sv) is Overflow);
                        }
                        return None;
                    },
                }
            },
            StackOp::Subtract => {
                proof {
                    if sv.len() < 2 {
                        assert(spec_run(rest, sv) is Underflow);
                    }
                }
                let right = stack.pop().unwrap();
                let left = stack.pop().unwrap();
                proof {
                    assert(left@ == sv[sv.len() - 2]);
                    assert(right@ == sv[sv.len() - 1]);
                }
                match left.checked_sub(right) {
                    Some(v) => {
                        stack.push(v);
                        proof {
                            assert(value_views(stack@) =~= sv.take(sv.len() - 2).push(
                                spec_sub(left@, right@),
                            ));
                        }
                    },
                    None => {
                        proof {
                            assert(spec_run(rest, sv) is Overflow);
                        }
                        return None;
                    },
                }
            },
            StackOp::Multiply => {
                proof {
                    if sv.len() < 2 {
                        assert(spec_run(rest, sv) is Underflow);
                    }
                }
                let right = stack.pop().unwrap();
                let left = stack.pop().unwrap();
                proof {
                    assert(left@ == sv[sv.len() - 2]);
                    assert(right@ == sv[sv.len() - 1]);
                }
                match left.checked_mul(right) {
                    Some(v) => {
                        stack.push(v);
                        proof {
                            assert(value_views(stack@) =~= sv.take(sv.len() - 2).push(
                                spec_mul(left@, right@),
                            ));
                        }
                    },
                    None => {
                        proof {
                            assert(spec_run(rest, sv) is Overflow);
                        }
                        return None;
                    },
                }
            },
        }
        i = i + 1;
    }
    proof {
        assert(all.skip(ops@.len() as int) =~= Seq::<SpecOp>::empty());
    }
    Some(stack)
}

} // verus!

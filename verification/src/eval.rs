//! Recursive evaluation of one (tree shape, operation assignment)
//! combination into a numeric total and a canonical display text. A `Pair`
//! node takes the operation at the end of the assignment and hands the rest
//! to both children, so all nodes at the same depth use the same operation;
//! commutative operations put their operands into canonical order before
//! rendering.

use vstd::prelude::*;

use crate::ops::OpKind;
use crate::ops::grouped;
use crate::ops::grouped_chars;
use crate::ops::op_commutative;
use crate::ops::op_display;
use crate::ops::op_display_chars;
use crate::ops::op_groups;
use crate::oracle::FloatAnswer;
use crate::oracle::FloatQuery;
use crate::oracle::ask_bits;
use crate::oracle::ask_flag;
use crate::oracle::ask_text;
use crate::oracle::m_bits;
use crate::oracle::m_flag;
use crate::oracle::m_text;
use crate::oracle::oracle_callable;
use crate::oracle::oracle_models;
use crate::text::chars_to_string;
use crate::text::string_to_chars;
use crate::tree::PairingEntry;
use crate::tree::pair_height;
use crate::tree::tree_size;

verus! {

/// The outcome of evaluating one node: its total's bit pattern, its rendered
/// equation and whether it is a bare face.
#[derive(Debug, PartialEq, Eq)]
pub struct IntermediateResult {
    pub total_bits: u64,
    pub equation: Vec<char>,
    pub is_leaf: bool,
}

/// The mathematical content of an [`IntermediateResult`].
pub ghost struct EvalView {
    pub total_bits: u64,
    pub equation: Seq<char>,
    pub is_leaf: bool,
}

impl View for IntermediateResult {
    type V = EvalView;

    open spec fn view(&self) -> EvalView {
        EvalView {
            total_bits: self.total_bits,
            equation: self.equation@,
            is_leaf: self.is_leaf,
        }
    }
}

/// The failure of one candidate whose numeric result is not a number; the
/// candidate is dropped, never the whole solve.
#[derive(Debug, PartialEq, Eq)]
pub struct CannotSolve {
    pub equation: String,
}

/// The outcome of one evaluation in the model: a finished node or the
/// rendered equation whose total was not a number.
pub ghost enum EvalOut {
    Done(EvalView),
    Failed(Seq<char>),
}

/// The outcome an executable evaluation reports.
pub open spec fn res_view(r: Result<IntermediateResult, CannotSolve>) -> EvalOut {
    match r {
        Ok(ir) => EvalOut::Done(ir@),
        Err(e) => EvalOut::Failed(e.equation@),
    }
}

/// Whether the canonical order of a commutative node's operands swaps them:
/// the original left child is printed second exactly when it is greater
/// under the order where a bare face sorts before any compound operand, and
/// operands of equal kind sort by ascending total.
pub open spec fn swap_operands(
    m: spec_fn(FloatQuery) -> FloatAnswer,
    l: EvalView,
    r: EvalView,
) -> bool {
    let llt = m_flag(m, FloatQuery::Less(l.total_bits, r.total_bits));
    let rlt = m_flag(m, FloatQuery::Less(r.total_bits, l.total_bits));
    if l.is_leaf && llt {
        false
    } else if r.is_leaf && rlt {
        true
    } else if l.is_leaf {
        false
    } else if r.is_leaf {
        true
    } else if llt {
        false
    } else if rlt {
        true
    } else {
        false
    }
}

/// Evaluation of one node in the model `m`: what the executable evaluation
/// returns whenever its oracle follows `m`.
pub open spec fn eval_spec(
    t: PairingEntry,
    ops: Seq<OpKind>,
    is_root: bool,
    m: spec_fn(FloatQuery) -> FloatAnswer,
) -> EvalOut
    decreases t,
{
    match t {
        PairingEntry::Single(v) => {
            let bits = m_bits(m, FloatQuery::FaceValue(v));
            EvalOut::Done(
                EvalView {
                    total_bits: bits,
                    equation: m_text(m, FloatQuery::Render(bits)),
                    is_leaf: true,
                },
            )
        },
        PairingEntry::Pair { left, right } => {
            if ops.len() == 0 {
                EvalOut::Failed(Seq::empty())
            } else {
                let op = ops.last();
                let rest = ops.drop_last();
                match eval_spec(*left, rest, false, m) {
                    EvalOut::Failed(e) => EvalOut::Failed(e),
                    EvalOut::Done(l) => match eval_spec(*right, rest, false, m) {
                        EvalOut::Failed(e) => EvalOut::Failed(e),
                        EvalOut::Done(r) => {
                            let swap = op_commutative(op) && swap_operands(m, l, r);
                            let a = if swap {
                                r
                            } else {
                                l
                            };
                            let b = if swap {
                                l
                            } else {
                                r
                            };
                            let core = op_display(op, a.equation, b.equation);
                            let shown = if !is_root && op_groups(op) {
                                grouped(core)
                            } else {
                                core
                            };
                            let total = m_bits(
                                m,
                                FloatQuery::Combine(op, a.total_bits, b.total_bits),
                            );
                            if m_flag(m, FloatQuery::IsNan(total)) {
                                EvalOut::Failed(shown)
                            } else {
                                EvalOut::Done(
                                    EvalView { total_bits: total, equation: shown, is_leaf: false },
                                )
                            }
                        },
                    },
                }
            }
        },
    }
}

/// Whether an operation is commutative.
pub fn op_is_commutative(k: OpKind) -> (r: bool)
    ensures
        r == op_commutative(k),
{
    match k {
        OpKind::Plus => true,
        OpKind::Multiply => true,
        _ => false,
    }
}

/// Whether an operation wraps itself in parentheses below the root.
pub fn op_has_grouping(k: OpKind) -> (r: bool)
    ensures
        r == op_groups(k),
{
    match k {
        OpKind::Plus => true,
        OpKind::Minus => true,
        OpKind::Multiply => true,
        OpKind::Divide => true,
        _ => false,
    }
}

/// The assignment with its last operation removed.
fn drop_last_op(operations: &Vec<OpKind>) -> (r: Vec<OpKind>)
    requires
        operations@.len() >= 1,
    ensures
        r@ == operations@.drop_last(),
{
    let mut v: Vec<OpKind> = Vec::new();
    let n = operations.len();
    let mut i: usize = 0;
    while i < n - 1
        invariant
            n == operations@.len() >= 1,
            i <= n - 1,
            v@ == operations@.take(i as int),
        decreases n - i,
    {
        v.push(operations[i]);
        proof {
            assert(operations@.take(i + 1 as int) =~= operations@.take(i as int).push(
                operations@[i as int],
            ));
        }
        i = i + 1;
    }
    proof {
        assert(operations@.take(n - 1 as int) =~= operations@.drop_last());
    }
    v
}

/// Evaluates one node: a face evaluates to itself; a pair takes the
/// operation at the end of the assignment, evaluates both children against
/// the shortened assignment, puts the operands of a commutative operation
/// into canonical order, renders the node — grouped unless it is the root —
/// and combines the totals, failing exactly when the combined total is not a
/// number.
pub fn calculate_result<F: Fn(FloatQuery) -> FloatAnswer>(
    entry: &PairingEntry,
    operations: &Vec<OpKind>,
    is_root: bool,
    oracle: &F,
) -> (res: Result<IntermediateResult, CannotSolve>)
    requires
        pair_height(*entry) <= operations@.len(),
        oracle_callable(oracle),
    ensures
        forall|m: spec_fn(FloatQuery) -> FloatAnswer|
            #[trigger] oracle_models(oracle, m) ==> res_view(res) == eval_spec(
                *entry,
                operations@,
                is_root,
                m,
            ),
    decreases tree_size(*entry),
{
    match entry {
        PairingEntry::Single(v) => {
            let bits = ask_bits(oracle, FloatQuery::FaceValue(*v));
            let txt = ask_text(oracle, FloatQuery::Render(bits));
            let shown = string_to_chars(txt.as_str());
            let res = Ok(IntermediateResult { total_bits: bits, equation: shown, is_leaf: true });
            proof {
                assert forall|m: spec_fn(FloatQuery) -> FloatAnswer|
                    #[trigger] oracle_models(oracle, m) implies res_view(res) == eval_spec(
                    *entry,
                    operations@,
                    is_root,
                    m,
                ) by {
                    assert(bits == m_bits(m, FloatQuery::FaceValue(*v)));
                    assert(txt@ == m_text(m, FloatQuery::Render(bits)));
                }
            }
            res
        },
        PairingEntry::Pair { left, right } => {
            let op = operations[operations.len() - 1];
            let rest = drop_last_op(operations);
            proof {
                assert(op == operations@.last());
            }
            let cl = match calculate_result(left, &rest, false, oracle) {
                Ok(l) => l,
                Err(e) => {
                    return Err(e);
                },
            };
            let cr = match calculate_result(right, &rest, false, oracle) {
                Ok(r) => r,
                Err(e) => {
                    return Err(e);
                },
            };
            let llt = ask_flag(oracle, FloatQuery::Less(cl.total_bits, cr.total_bits));
            let rlt = ask_flag(oracle, FloatQuery::Less(cr.total_bits, cl.total_bits));
            let greater: bool = if cl.is_leaf && llt {
                false
            } else if cr.is_leaf && rlt {
                true
            } else if cl.is_leaf {
                false
            } else if cr.is_leaf {
                true
            } else if llt {
                false
            } else if rlt {
                true
            } else {
                false
            };
            let swap = op_is_commutative(op) && greater;
            let (a, b) = if swap {
                (cr, cl)
            } else {
                (cl, cr)
            };
            let core = op_display_chars(op, &a.equation, &b.equation);
            let shown = if !is_root && op_has_grouping(op) {
                grouped_chars(&core)
            } else {
                core
            };
            let total = ask_bits(oracle, FloatQuery::Combine(op, a.total_bits, b.total_bits));
            let nan = ask_flag(oracle, FloatQuery::IsNan(total));
            let res: Result<IntermediateResult, CannotSolve> = if nan {
                Err(CannotSolve { equation: chars_to_string(&shown) })
            } else {
                Ok(IntermediateResult { total_bits: total, equation: shown, is_leaf: false })
            };
            proof {
                assert forall|m: spec_fn(FloatQuery) -> FloatAnswer|
                    #[trigger] oracle_models(oracle, m) implies res_view(res) == eval_spec(
                    *entry,
                    operations@,
                    is_root,
                    m,
                ) by {
                    let el = eval_spec(**left, operations@.drop_last(), false, m);
                    let er = eval_spec(**right, operations@.drop_last(), false, m);
                    assert(res_view(Ok::<IntermediateResult, CannotSolve>(cl)) == el);
                    assert(res_view(Ok::<IntermediateResult, CannotSolve>(cr)) == er);
                    assert(el == EvalOut::Done(cl@));
                    assert(er == EvalOut::Done(cr@));
                    assert(greater == swap_operands(m, cl@, cr@));
                }
            }
            res
        },
    }
}

} // verus!

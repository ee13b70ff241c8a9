use crate::model::{
    assign, eval, extends, indep_of, key_of, lemma_canonical, lemma_eval_extends, lemma_eval_indep,
    lemma_split_existing, same_fn, var_of, Assignment,
};
use crate::node::{terminal_value, BddPointer, TERMINAL_VAR};
use crate::ops::partition::{in_part, in_state, lemma_in_part_extends, lemma_in_state_extends};
use crate::ops::op_function::{
    and, and_fn, fits, forced, lemma_forced, or, or_fn, xor, xor_fn,
};
use crate::ops::{binary_ok, denotes_binary, lemma_cofactor, op_ok, BddOps};
use crate::PeabodyInner;
use vstd::prelude::*;

verus! {

broadcast use {lemma_eval_extends, lemma_in_state_extends, lemma_in_part_extends};

/// The binary operations that the Apply engine combines diagrams with.
#[derive(Clone, Copy)]
enum ApplyOp {
    And,
    Or,
    Xor,
}

impl ApplyOp {
    spec fn func(self) -> spec_fn(bool, bool) -> bool {
        match self {
            ApplyOp::And => and_fn(),
            ApplyOp::Or => or_fn(),
            ApplyOp::Xor => xor_fn(),
        }
    }

    spec fn descriptor(self, left: BddPointer, right: BddPointer) -> BddOps {
        match self {
            ApplyOp::And => BddOps::And(left, right),
            ApplyOp::Or => BddOps::Or(left, right),
            ApplyOp::Xor => BddOps::Xor(left, right),
        }
    }

    proof fn lemma_commutes(self)
        ensures
            forall|x: bool, y: bool| #[trigger] (self.func())(x, y) == (self.func())(y, x),
    {
    }

    fn terminal(&self, l: Option<bool>, r: Option<bool>) -> (res: Option<bool>)
        ensures
            res == forced(self.func(), l, r),
    {
        match self {
            ApplyOp::And => and(l, r),
            ApplyOp::Or => or(l, r),
            ApplyOp::Xor => xor(l, r),
        }
    }

    fn bdd_ops(&self, left: BddPointer, right: BddPointer) -> (res: BddOps)
        ensures
            res == self.descriptor(left, right),
    {
        match self {
            ApplyOp::And => BddOps::And(left, right),
            ApplyOp::Or => BddOps::Or(left, right),
            ApplyOp::Xor => BddOps::Xor(left, right),
        }
    }
}

/// The operands in the order the cache stores them: the smaller pointer first.
pub open spec fn ordered(l: BddPointer, r: BddPointer) -> (BddPointer, BddPointer) {
    if l.0 > r.0 {
        (r, l)
    } else {
        (l, r)
    }
}

/// Combining `l` and `r` again costs no new node in `m`: a terminal rule decides the result,
/// or the cache holds it under the descriptor `op`.
pub open spec fn remembered(
    m: PeabodyInner,
    f: spec_fn(bool, bool) -> bool,
    op: BddOps,
    l: BddPointer,
    r: BddPointer,
) -> bool {
    forced(f, terminal_value(l), terminal_value(r)) is Some || m.cache().contains_key(op.spec_key())
}

impl PeabodyInner {
    /// Combines `left` and `right` with `apply_op`, one decision variable at a time.
    fn apply_rec(&mut self, left: BddPointer, right: BddPointer, apply_op: ApplyOp) -> (res:
        BddPointer)
        requires
            old(self).wf(),
            old(self).valid_ptr(left),
            old(self).valid_ptr(right),
        ensures
            final(self).wf(),
            final(self).grows_from(*old(self)),
            binary_ok(final(self).nodes(), apply_op.func(), left, right, res),
            remembered(*final(self), apply_op.func(), apply_op.descriptor(ordered(left, right).0, ordered(left, right).1), left, right),
            remembered(*old(self), apply_op.func(), apply_op.descriptor(ordered(left, right).0, ordered(left, right).1), left, right)
                ==> final(self).nodes() == old(self).nodes() && final(self).index() == old(self).index()
                && final(self).cache() == old(self).cache(),
            (exists|q: BddPointer| denotes_binary(old(self).nodes(), apply_op.func(), left, right, q))
                ==> final(self).nodes() == old(self).nodes(),
        decreases left.0 + right.0,
    {
        let ghost start = *self;
        let ghost f = apply_op.func();
        proof {
            lemma_forced(f, terminal_value(left), terminal_value(right));
            apply_op.lemma_commutes();
            assert(start.nodes()[0].var == TERMINAL_VAR);
            assert(start.nodes()[1].var == TERMINAL_VAR);
        }
        if let Some(b) = apply_op.terminal(left.as_bool(), right.as_bool()) {
            let res = BddPointer::from_bool(b);
            proof {
                assert forall|a: Assignment| #[trigger]
                    eval(start.nodes(), res, a) == f(
                        eval(start.nodes(), left, a),
                        eval(start.nodes(), right, a),
                    ) by {
                    assert(fits(terminal_value(left), eval(start.nodes(), left, a)));
                    assert(fits(terminal_value(right), eval(start.nodes(), right, a)));
                }
            }
            return res;
        }
        let (l, r) = if left.0 > right.0 {
            (right, left)
        } else {
            (left, right)
        };
        let bdd_op = apply_op.bdd_ops(l, r);
        if let Some(res) = self.ops_cache_get(bdd_op) {
            return res;
        }
        let lv = self.var_of(l);
        let rv = self.var_of(r);
        let decision_var = if lv <= rv {
            lv
        } else {
            rv
        };
        let (l_low, l_high) = if lv <= rv {
            (self.low_of(l), self.high_of(l))
        } else {
            (l, l)
        };
        let (r_low, r_high) = if rv <= lv {
            (self.low_of(r), self.high_of(r))
        } else {
            (r, r)
        };
        proof {
            if l.0 >= 2 {
                assert(crate::model::node_ok(start.nodes(), l.0 as int));
            }
            if r.0 >= 2 {
                assert(crate::model::node_ok(start.nodes(), r.0 as int));
            }
            lemma_cofactor(start.nodes(), l, decision_var, l_low, l_high);
            lemma_cofactor(start.nodes(), r, decision_var, r_low, r_high);
        }
        let ghost found = exists|q: BddPointer|
            denotes_binary(start.nodes(), f, left, right, q);
        let ghost q = choose|q: BddPointer| denotes_binary(start.nodes(), f, left, right, q);
        let ghost q0 = if var_of(start.nodes(), q) == decision_var {
            start.nodes()[q.0 as int].low
        } else {
            q
        };
        let ghost q1 = if var_of(start.nodes(), q) == decision_var {
            start.nodes()[q.0 as int].high
        } else {
            q
        };
        proof {
            if found {
                let sn = start.nodes();
                let ff = |a: Assignment| f(eval(sn, l, a), eval(sn, r, a));
                let f0 = |a: Assignment| f(eval(sn, l_low, a), eval(sn, r_low, a));
                let f1 = |a: Assignment| f(eval(sn, l_high, a), eval(sn, r_high, a));
                assert forall|a: Assignment| #[trigger] eval(sn, q, a) == ff(a) by {
                    assert(eval(sn, q, a) == f(eval(sn, left, a), eval(sn, right, a)));
                }
                assert forall|a: Assignment| #[trigger] ff(a) == if a(decision_var) {
                    f1(a)
                } else {
                    f0(a)
                } by {
                    assert(eval(sn, l, a) == if a(decision_var) {
                        eval(sn, l_high, a)
                    } else {
                        eval(sn, l_low, a)
                    });
                    assert(eval(sn, r, a) == if a(decision_var) {
                        eval(sn, r_high, a)
                    } else {
                        eval(sn, r_low, a)
                    });
                }
                assert forall|a: Assignment, b: bool| #[trigger] f0(assign(a, decision_var, b)) == f0(a) by {
                    lemma_eval_indep(sn, l_low, a, decision_var, b);
                    lemma_eval_indep(sn, r_low, a, decision_var, b);
                }
                assert forall|a: Assignment, b: bool| #[trigger] f1(assign(a, decision_var, b)) == f1(a) by {
                    lemma_eval_indep(sn, l_high, a, decision_var, b);
                    lemma_eval_indep(sn, r_high, a, decision_var, b);
                }
                assert forall|v: u16| v < decision_var implies #[trigger] indep_of(ff, v) by {
                    assert forall|a: Assignment, b: bool| #[trigger] ff(assign(a, v, b)) == ff(a) by {
                        lemma_eval_indep(sn, l, a, v, b);
                        lemma_eval_indep(sn, r, a, v, b);
                    }
                }
                lemma_split_existing(sn, start.index(), q, decision_var, ff, f0, f1);
                if var_of(sn, q) == decision_var {
                    assert(crate::model::node_ok(sn, q.0 as int));
                }
                assert forall|a: Assignment| #[trigger]
                    eval(sn, q0, a) == f(eval(sn, l_low, a), eval(sn, r_low, a)) by {
                    assert(eval(sn, q0, a) == f0(a));
                }
                assert forall|a: Assignment| #[trigger]
                    eval(sn, q1, a) == f(eval(sn, l_high, a), eval(sn, r_high, a)) by {
                    assert(eval(sn, q1, a) == f1(a));
                }
                assert(denotes_binary(sn, f, l_low, r_low, q0));
                assert(denotes_binary(sn, f, l_high, r_high, q1));
            }
        }
        let low = self.apply_rec(l_low, r_low, apply_op);
        let ghost mid = *self;
        let high = self.apply_rec(l_high, r_high, apply_op);
        let ghost before = *self;
        proof {
            assert(mid.var_at(low) == self.var_at(low));
        }
        proof {
            if found {
                let sn = start.nodes();
                assert(before.nodes() == sn);
                assert forall|a: Assignment| eval(sn, low, a) == eval(sn, q0, a) by {
                    assert(eval(sn, low, a) == f(eval(sn, l_low, a), eval(sn, r_low, a)));
                }
                assert(same_fn(sn, low, q0));
                lemma_canonical(sn, start.index(), low, q0);
                assert forall|a: Assignment| eval(sn, high, a) == eval(sn, q1, a) by {
                    assert(eval(sn, high, a) == f(eval(sn, l_high, a), eval(sn, r_high, a)));
                }
                assert(same_fn(sn, high, q1));
                lemma_canonical(sn, start.index(), high, q1);
                if low != high {
                    assert(var_of(sn, q) == decision_var);
                    assert(key_of(sn[q.0 as int]) == (decision_var, low.0, high.0));
                    assert(before.index().contains_key(key_of(sn[q.0 as int])));
                }
            }
        }
        let res = self.new_node(decision_var, low, high);
        proof {
            let n = self.nodes();
            assert(extends(n, start.nodes()));
            assert(extends(n, mid.nodes()));
            assert forall|a: Assignment| #[trigger] eval(n, res, a) == f(eval(n, l, a), eval(n, r, a)) by {
                assert(self.value(res, a) == if a(decision_var) {
                    self.value(high, a)
                } else {
                    self.value(low, a)
                });
                assert(eval(mid.nodes(), low, a) == f(
                    eval(start.nodes(), l_low, a),
                    eval(start.nodes(), r_low, a),
                ));
                assert(eval(before.nodes(), high, a) == f(
                    eval(mid.nodes(), l_high, a),
                    eval(mid.nodes(), r_high, a),
                ));
                assert(eval(start.nodes(), l, a) == if a(decision_var) {
                    eval(start.nodes(), l_high, a)
                } else {
                    eval(start.nodes(), l_low, a)
                });
                assert(eval(start.nodes(), r, a) == if a(decision_var) {
                    eval(start.nodes(), r_high, a)
                } else {
                    eval(start.nodes(), r_low, a)
                });
            }
            assert forall|s: bool| in_state(n, l, s) && in_state(n, r, s) implies #[trigger] in_state(
                n,
                res,
                s,
            ) by {
                assert(in_state(start.nodes(), l, s));
                assert(in_state(start.nodes(), r, s));
                assert(in_state(mid.nodes(), l_low, s) && in_state(mid.nodes(), r_low, s));
                assert(in_state(mid.nodes(), low, s));
                assert(in_state(before.nodes(), l_high, s) && in_state(before.nodes(), r_high, s));
                assert(in_state(before.nodes(), high, s));
                assert(self.in_state_at(res, s));
            }
            assert forall|s: bool| in_part(n, l, s) && in_part(n, r, s) implies #[trigger] in_part(
                n,
                res,
                s,
            ) by {
                assert(in_part(start.nodes(), l, s));
                assert(in_part(start.nodes(), r, s));
                assert(in_part(mid.nodes(), l_low, s) && in_part(mid.nodes(), r_low, s));
                assert(in_part(mid.nodes(), low, s));
                assert(in_part(before.nodes(), l_high, s) && in_part(before.nodes(), r_high, s));
                assert(in_part(before.nodes(), high, s));
                assert(in_part(n, res, s));
            }
            assert(op_ok(n, bdd_op, res));
        }
        self.ops_cache_set(bdd_op, res);
        res
    }

    /// The conjunction of `left` and `right`.
    pub fn and(&mut self, left: BddPointer, right: BddPointer) -> (res: BddPointer)
        requires
            old(self).wf(),
            old(self).valid_ptr(left),
            old(self).valid_ptr(right),
        ensures
            final(self).wf(),
            final(self).grows_from(*old(self)),
            binary_ok(final(self).nodes(), and_fn(), left, right, res),
            remembered(*final(self), and_fn(), BddOps::And(ordered(left, right).0, ordered(left, right).1), left, right),
            remembered(*old(self), and_fn(), BddOps::And(ordered(left, right).0, ordered(left, right).1), left, right)
                ==> final(self).nodes() == old(self).nodes() && final(self).index() == old(self).index()
                && final(self).cache() == old(self).cache(),
            (exists|q: BddPointer| denotes_binary(old(self).nodes(), and_fn(), left, right, q))
                ==> final(self).nodes() == old(self).nodes(),
    {
        self.apply_rec(left, right, ApplyOp::And)
    }

    /// The disjunction of `left` and `right`.
    pub fn or(&mut self, left: BddPointer, right: BddPointer) -> (res: BddPointer)
        requires
            old(self).wf(),
            old(self).valid_ptr(left),
            old(self).valid_ptr(right),
        ensures
            final(self).wf(),
            final(self).grows_from(*old(self)),
            binary_ok(final(self).nodes(), or_fn(), left, right, res),
            remembered(*final(self), or_fn(), BddOps::Or(ordered(left, right).0, ordered(left, right).1), left, right),
            remembered(*old(self), or_fn(), BddOps::Or(ordered(left, right).0, ordered(left, right).1), left, right)
                ==> final(self).nodes() == old(self).nodes() && final(self).index() == old(self).index()
                && final(self).cache() == old(self).cache(),
            (exists|q: BddPointer| denotes_binary(old(self).nodes(), or_fn(), left, right, q))
                ==> final(self).nodes() == old(self).nodes(),
    {
        self.apply_rec(left, right, ApplyOp::Or)
    }

    /// The exclusive or of `left` and `right`.
    pub fn xor(&mut self, left: BddPointer, right: BddPointer) -> (res: BddPointer)
        requires
            old(self).wf(),
            old(self).valid_ptr(left),
            old(self).valid_ptr(right),
        ensures
            final(self).wf(),
            final(self).grows_from(*old(self)),
            binary_ok(final(self).nodes(), xor_fn(), left, right, res),
            remembered(*final(self), xor_fn(), BddOps::Xor(ordered(left, right).0, ordered(left, right).1), left, right),
            remembered(*old(self), xor_fn(), BddOps::Xor(ordered(left, right).0, ordered(left, right).1), left, right)
                ==> final(self).nodes() == old(self).nodes() && final(self).index() == old(self).index()
                && final(self).cache() == old(self).cache(),
            (exists|q: BddPointer| denotes_binary(old(self).nodes(), xor_fn(), left, right, q))
                ==> final(self).nodes() == old(self).nodes(),
    {
        self.apply_rec(left, right, ApplyOp::Xor)
    }
}

} // verus!

use crate::model::{
    assign, eval, extends, indep_of, key_of, lemma_canonical, lemma_eval_extends, lemma_eval_indep,
    lemma_split_existing, same_fn, var_of, Assignment,
};
use crate::node::BddPointer;
use crate::ops::partition::lemma_in_state_extends;
use crate::ops::{denotes_not, lemma_cofactor, not_ok, BddOps};
use crate::PeabodyInner;
use vstd::prelude::*;

verus! {

broadcast use {lemma_eval_extends, lemma_in_state_extends, crate::ops::partition::lemma_in_part_extends};

impl PeabodyInner {
    /// The complement of `bdd`.
    pub fn not_rec(&mut self, bdd: BddPointer) -> (res: BddPointer)
        requires
            old(self).wf(),
            old(self).valid_ptr(bdd),
        ensures
            final(self).wf(),
            final(self).grows_from(*old(self)),
            not_ok(final(self).nodes(), bdd, res),
            (exists|q: BddPointer| denotes_not(old(self).nodes(), bdd, q))
                ==> final(self).nodes() == old(self).nodes(),
        decreases bdd.0,
    {
        if bdd.is_constant(true) {
            return BddPointer::constant(false);
        }
        if bdd.is_constant(false) {
            return BddPointer::constant(true);
        }
        let bdd_op = BddOps::Not(bdd);
        if let Some(res) = self.ops_cache_get(bdd_op) {
            return res;
        }
        let ghost start = *self;
        let var = self.var_of(bdd);
        let low_in = self.low_of(bdd);
        let high_in = self.high_of(bdd);
        proof {
            assert(start.nodes()[0].var == crate::node::TERMINAL_VAR);
            assert(start.nodes()[1].var == crate::node::TERMINAL_VAR);
            assert(crate::model::node_ok(start.nodes(), bdd.0 as int));
            lemma_cofactor(start.nodes(), bdd, var, low_in, high_in);
        }
        let ghost found = exists|q: BddPointer| denotes_not(start.nodes(), bdd, q);
        let ghost q = choose|q: BddPointer| denotes_not(start.nodes(), bdd, q);
        let ghost q0 = if var_of(start.nodes(), q) == var {
            start.nodes()[q.0 as int].low
        } else {
            q
        };
        let ghost q1 = if var_of(start.nodes(), q) == var {
            start.nodes()[q.0 as int].high
        } else {
            q
        };
        proof {
            if found {
                let sn = start.nodes();
                let ff = |a: Assignment| !eval(sn, bdd, a);
                let f0 = |a: Assignment| !eval(sn, low_in, a);
                let f1 = |a: Assignment| !eval(sn, high_in, a);
                assert forall|a: Assignment| #[trigger] eval(sn, q, a) == ff(a) by {}
                assert forall|a: Assignment| #[trigger] ff(a) == if a(var) {
                    f1(a)
                } else {
                    f0(a)
                } by {
                    assert(eval(sn, bdd, a) == if a(var) {
                        eval(sn, high_in, a)
                    } else {
                        eval(sn, low_in, a)
                    });
                }
                assert forall|a: Assignment, b: bool| #[trigger] f0(assign(a, var, b)) == f0(a) by {
                    lemma_eval_indep(sn, low_in, a, var, b);
                }
                assert forall|a: Assignment, b: bool| #[trigger] f1(assign(a, var, b)) == f1(a) by {
                    lemma_eval_indep(sn, high_in, a, var, b);
                }
                assert forall|v: u16| v < var implies #[trigger] indep_of(ff, v) by {
                    assert forall|a: Assignment, b: bool| #[trigger] ff(assign(a, v, b)) == ff(a) by {
                        lemma_eval_indep(sn, bdd, a, v, b);
                    }
                }
                lemma_split_existing(sn, start.index(), q, var, ff, f0, f1);
                if var_of(sn, q) == var {
                    assert(crate::model::node_ok(sn, q.0 as int));
                }
                assert forall|a: Assignment| #[trigger] eval(sn, q0, a) == !eval(sn, low_in, a) by {
                    assert(eval(sn, q0, a) == f0(a));
                }
                assert forall|a: Assignment| #[trigger] eval(sn, q1, a) == !eval(sn, high_in, a) by {
                    assert(eval(sn, q1, a) == f1(a));
                }
                assert(denotes_not(sn, low_in, q0));
                assert(denotes_not(sn, high_in, q1));
            }
        }
        let low = self.not_rec(low_in);
        let ghost mid = *self;
        let high = self.not_rec(high_in);
        let ghost before = *self;
        proof {
            assert(mid.var_at(low) == self.var_at(low));
            if found {
                let sn = start.nodes();
                assert(before.nodes() == sn);
                assert forall|a: Assignment| eval(sn, low, a) == eval(sn, q0, a) by {
                    assert(eval(sn, low, a) == !eval(sn, low_in, a));
                }
                assert(same_fn(sn, low, q0));
                lemma_canonical(sn, start.index(), low, q0);
                assert forall|a: Assignment| eval(sn, high, a) == eval(sn, q1, a) by {
                    assert(eval(sn, high, a) == !eval(sn, high_in, a));
                }
                assert(same_fn(sn, high, q1));
                lemma_canonical(sn, start.index(), high, q1);
                if low != high {
                    assert(var_of(sn, q) == var);
                    assert(key_of(sn[q.0 as int]) == (var, low.0, high.0));
                    assert(before.index().contains_key(key_of(sn[q.0 as int])));
                }
            }
        }
        let res = self.new_node(var, low, high);
        proof {
            let n = self.nodes();
            assert(extends(n, start.nodes()));
            assert(extends(n, mid.nodes()));
            assert forall|a: Assignment| #[trigger] eval(n, res, a) == !eval(n, bdd, a) by {
                assert(self.value(res, a) == if a(var) {
                    self.value(high, a)
                } else {
                    self.value(low, a)
                });
                assert(eval(mid.nodes(), low, a) == !eval(start.nodes(), low_in, a));
                assert(eval(before.nodes(), high, a) == !eval(mid.nodes(), high_in, a));
                assert(eval(start.nodes(), bdd, a) == if a(var) {
                    eval(start.nodes(), high_in, a)
                } else {
                    eval(start.nodes(), low_in, a)
                });
            }
        }
        self.ops_cache_set(bdd_op, res);
        res
    }
}

} // verus!

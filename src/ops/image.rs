use crate::model::{
    agrees_off, and_exists, eval, extends, lemma_eval_extends, node_ok, var_of, Assignment,
};
use crate::node::{BddNode, BddPointer, TERMINAL_VAR};
use crate::ops::partition::{
    image_elim, in_part, in_state, lemma_and_exists_step, lemma_and_exists_swap, lemma_in_state_extends,
    renamed, state_is_spec, state_to_spec,
};
use crate::ops::{
    image_ok, lemma_and_exists_extends, lemma_cofactor, op_ok, rename_ok, BddOps,
};
use crate::PeabodyInner;
use std::collections::HashSet;
use vstd::prelude::*;

verus! {

/// Whether `var` belongs to the next state (`next == true`) or to the original state.
pub fn state_is(var: u16, next: bool) -> (r: bool)
    ensures
        r == state_is_spec(var, next),
{
    let even = var & 1 == 0;
    assert((var & 1 == 0) == (var % 2 == 0)) by (bit_vector);
    even ^ next
}

/// The partner of `var` in the state that `next` names.
pub fn state_to(var: u16, next: bool) -> (r: u16)
    ensures
        r == state_to_spec(var, next),
{
    if next {
        assert(var | 1 == (var - var % 2 + 1) as u16) by (bit_vector);
        var | 1
    } else {
        assert(var & !1u16 == (var - var % 2) as u16) by (bit_vector);
        var & !1
    }
}

broadcast use {lemma_eval_extends, lemma_in_state_extends, crate::ops::partition::lemma_in_part_extends, vstd::std_specs::hash::group_hash_axioms};

/// The variables of `s`, as a predicate.
pub open spec fn set_elim(s: Set<u16>) -> spec_fn(u16) -> bool {
    |v: u16| s.contains(v)
}

impl PeabodyInner {
    /// Renames every variable of `bdd`, which is over the other state, to its partner in the
    /// state that `next` names.
    pub fn state_transform_rec(&mut self, bdd: BddPointer, next: bool) -> (res: BddPointer)
        requires
            old(self).wf(),
            old(self).valid_ptr(bdd),
            old(self).in_state_at(bdd, !next),
        ensures
            final(self).wf(),
            final(self).grows_from(*old(self)),
            rename_ok(final(self).nodes(), bdd, next, res),
            bdd.0 < 2 ==> res == bdd,
        decreases bdd.0,
    {
        let ghost start = *self;
        proof {
            assert(start.nodes()[0].var == TERMINAL_VAR);
            assert(start.nodes()[1].var == TERMINAL_VAR);
        }
        if bdd.is_constant(true) || bdd.is_constant(false) {
            return bdd;
        }
        let bdd_op = if next {
            BddOps::NextState(bdd)
        } else {
            BddOps::OriginalState(bdd)
        };
        if let Some(res) = self.ops_cache_get(bdd_op) {
            return res;
        }
        let var = self.var_of(bdd);
        let low_in = self.low_of(bdd);
        let high_in = self.high_of(bdd);
        proof {
            assert(node_ok(start.nodes(), bdd.0 as int));
            lemma_cofactor(start.nodes(), bdd, var, low_in, high_in);
        }
        let low = self.state_transform_rec(low_in, next);
        let ghost mid = *self;
        let high = self.state_transform_rec(high_in, next);
        let ghost before = *self;
        let new_var = state_to(var, next);
        proof {
            assert(mid.var_at(low) == self.var_at(low));
            if low_in.0 >= 2 {
                assert(node_ok(start.nodes(), low_in.0 as int));
                assert(state_is_spec(var_of(start.nodes(), low_in), !next));
            }
            if high_in.0 >= 2 {
                assert(node_ok(start.nodes(), high_in.0 as int));
                assert(state_is_spec(var_of(start.nodes(), high_in), !next));
            }
        }
        let res = self.new_node(new_var, low, high);
        proof {
            let n = self.nodes();
            assert(extends(n, start.nodes()));
            assert(extends(n, mid.nodes()));
            assert forall|a: Assignment| #[trigger]
                eval(n, res, a) == eval(n, bdd, renamed(a, next)) by {
                assert(self.value(res, a) == if a(new_var) {
                    self.value(high, a)
                } else {
                    self.value(low, a)
                });
                assert(eval(mid.nodes(), low, a) == eval(start.nodes(), low_in, renamed(a, next)));
                assert(eval(before.nodes(), high, a) == eval(
                    mid.nodes(),
                    high_in,
                    renamed(a, next),
                ));
                assert(eval(start.nodes(), bdd, renamed(a, next)) == if renamed(a, next)(var) {
                    eval(start.nodes(), high_in, renamed(a, next))
                } else {
                    eval(start.nodes(), low_in, renamed(a, next))
                });
            }
            assert(self.in_state_at(res, next));
            assert(op_ok(n, bdd_op, res));
        }
        self.ops_cache_set(bdd_op, res);
        res
    }

    /// The conjunction of `left` and `right` with the variables of `exist_vars` quantified
    /// away, each one as soon as the recursion reaches it.
    pub fn and_exist_rec(
        &mut self,
        left: BddPointer,
        right: BddPointer,
        exist_vars: &HashSet<u16>,
    ) -> (res: BddPointer)
        requires
            old(self).wf(),
            old(self).valid_ptr(left),
            old(self).valid_ptr(right),
        ensures
            final(self).wf(),
            final(self).grows_from(*old(self)),
            final(self).valid_ptr(res),
            forall|a: Assignment| #[trigger]
                final(self).value(res, a) == and_exists(
                    final(self).nodes(),
                    left,
                    right,
                    set_elim(exist_vars@),
                    a,
                ),
            final(self).var_at(res) >= final(self).var_at(left) || final(self).var_at(res)
                >= final(self).var_at(right),
        decreases left.0 + right.0,
    {
        let ghost start = *self;
        let ghost elim = set_elim(exist_vars@);
        proof {
            assert(start.nodes()[0].var == TERMINAL_VAR);
            assert(start.nodes()[1].var == TERMINAL_VAR);
        }
        if left.is_constant(false) || right.is_constant(false) {
            let res = BddPointer::constant(false);
            proof {
                assert forall|a: Assignment| #[trigger]
                    start.value(res, a) == and_exists(start.nodes(), left, right, elim, a) by {
                    if and_exists(start.nodes(), left, right, elim, a) {
                        let b = choose|b: Assignment|
                            agrees_off(a, b, elim) && eval(start.nodes(), left, b) && eval(
                                start.nodes(),
                                right,
                                b,
                            );
                    }
                }
            }
            return res;
        }
        if left.is_constant(true) && right.is_constant(true) {
            let res = BddPointer::constant(true);
            proof {
                assert forall|a: Assignment| #[trigger]
                    start.value(res, a) == and_exists(start.nodes(), left, right, elim, a) by {
                    assert(agrees_off(a, a, elim) && eval(start.nodes(), left, a) && eval(
                        start.nodes(),
                        right,
                        a,
                    ));
                }
            }
            return res;
        }
        let lv = self.var_of(left);
        let rv = self.var_of(right);
        let decision_var = if lv <= rv {
            lv
        } else {
            rv
        };
        let (l_low, l_high) = if lv <= rv {
            (self.low_of(left), self.high_of(left))
        } else {
            (left, left)
        };
        let (r_low, r_high) = if rv <= lv {
            (self.low_of(right), self.high_of(right))
        } else {
            (right, right)
        };
        proof {
            if left.0 >= 2 {
                assert(node_ok(start.nodes(), left.0 as int));
            }
            if right.0 >= 2 {
                assert(node_ok(start.nodes(), right.0 as int));
            }
            lemma_cofactor(start.nodes(), left, decision_var, l_low, l_high);
            lemma_cofactor(start.nodes(), right, decision_var, r_low, r_high);
        }
        let low = self.and_exist_rec(l_low, r_low, exist_vars);
        let ghost mid = *self;
        let high = self.and_exist_rec(l_high, r_high, exist_vars);
        let ghost before = *self;
        proof {
            assert(mid.var_at(low) == self.var_at(low));
            lemma_and_exists_extends(mid.nodes(), start.nodes(), l_low, r_low, elim);
            lemma_and_exists_extends(before.nodes(), mid.nodes(), l_high, r_high, elim);
            lemma_and_exists_extends(before.nodes(), start.nodes(), left, right, elim);
            assert(extends(before.nodes(), start.nodes()));
            assert forall|a: Assignment|
                and_exists(before.nodes(), left, right, elim, a) == if elim(decision_var) {
                    before.value(low, a) || before.value(high, a)
                } else if a(decision_var) {
                    before.value(high, a)
                } else {
                    before.value(low, a)
                } by {
                lemma_and_exists_step(
                    start.nodes(),
                    left,
                    right,
                    elim,
                    decision_var,
                    l_low,
                    l_high,
                    r_low,
                    r_high,
                    a,
                );
                assert(mid.value(low, a) == and_exists(mid.nodes(), l_low, r_low, elim, a));
            }
        }
        let res = if exist_vars.contains(&decision_var) {
            self.or(low, high)
        } else {
            self.new_node(decision_var, low, high)
        };
        proof {
            let n = self.nodes();
            lemma_and_exists_extends(n, before.nodes(), left, right, elim);
            assert forall|a: Assignment| #[trigger]
                self.value(res, a) == and_exists(n, left, right, elim, a) by {
                assert(and_exists(before.nodes(), left, right, elim, a) == if elim(decision_var) {
                    before.value(low, a) || before.value(high, a)
                } else if a(decision_var) {
                    before.value(high, a)
                } else {
                    before.value(low, a)
                });
                if elim(decision_var) {
                    assert(eval(n, res, a) == (eval(n, low, a) || eval(n, high, a)));
                } else {
                    assert(self.value(res, a) == if a(decision_var) {
                        self.value(high, a)
                    } else {
                        self.value(low, a)
                    });
                }
            }
        }
        res
    }

    /// One image step: the conjunction of `left` and `right` with the original state's
    /// variables quantified away when `post`, the next state's otherwise.
    #[verifier::rlimit(60)]
    pub fn image_rec(&mut self, left: BddPointer, right: BddPointer, post: bool) -> (res:
        BddPointer)
        requires
            old(self).wf(),
            old(self).valid_ptr(left),
            old(self).valid_ptr(right),
        ensures
            final(self).wf(),
            final(self).grows_from(*old(self)),
            image_ok(final(self).nodes(), left, right, post, res),
        decreases left.0 + right.0,
    {
        let ghost start = *self;
        let ghost elim = image_elim(post);
        proof {
            assert(start.nodes()[0].var == TERMINAL_VAR);
            assert(start.nodes()[1].var == TERMINAL_VAR);
        }
        if left.is_constant(false) || right.is_constant(false) {
            let res = BddPointer::constant(false);
            proof {
                assert forall|a: Assignment| #[trigger]
                    eval(start.nodes(), res, a) == and_exists(start.nodes(), left, right, elim, a) by {
                    if and_exists(start.nodes(), left, right, elim, a) {
                        let b = choose|b: Assignment|
                            agrees_off(a, b, elim) && eval(start.nodes(), left, b) && eval(
                                start.nodes(),
                                right,
                                b,
                            );
                    }
                }
            }
            return res;
        }
        if left.is_constant(true) && right.is_constant(true) {
            let res = BddPointer::constant(true);
            proof {
                assert forall|a: Assignment| #[trigger]
                    eval(start.nodes(), res, a) == and_exists(start.nodes(), left, right, elim, a) by {
                    assert(agrees_off(a, a, elim) && eval(start.nodes(), left, a) && eval(
                        start.nodes(),
                        right,
                        a,
                    ));
                }
            }
            return res;
        }
        let (l, r) = if left.0 > right.0 {
            (right, left)
        } else {
            (left, right)
        };
        proof {
            assert forall|a: Assignment|
                and_exists(start.nodes(), l, r, elim, a) == #[trigger] and_exists(
                    start.nodes(),
                    left,
                    right,
                    elim,
                    a,
                ) by {
                lemma_and_exists_swap(start.nodes(), left, right, elim, a);
            }
        }
        let bdd_op = if post {
            BddOps::PostImage(l, r)
        } else {
            BddOps::PreImage(l, r)
        };
        if let Some(res) = self.ops_cache_get(bdd_op) {
            return res;
        }
        let lv = self.var_of(l);
        let rv = self.var_of(r);
        let decision_var = if lv <= rv {
            lv
        } else {
            rv
        };
        let (l_low, l_high) = if lv <= rv {
            (self.low_of(l), self.high_of(l))
        } else {
            (l, l)
        };
        let (r_low, r_high) = if rv <= lv {
            (self.low_of(r), self.high_of(r))
        } else {
            (r, r)
        };
        proof {
            if l.0 >= 2 {
                assert(node_ok(start.nodes(), l.0 as int));
            }
            if r.0 >= 2 {
                assert(node_ok(start.nodes(), r.0 as int));
            }
            lemma_cofactor(start.nodes(), l, decision_var, l_low, l_high);
            lemma_cofactor(start.nodes(), r, decision_var, r_low, r_high);
        }
        let low = self.image_rec(l_low, r_low, post);
        let ghost mid = *self;
        let high = self.image_rec(l_high, r_high, post);
        let ghost before = *self;
        proof {
            assert(mid.var_at(low) == self.var_at(low));
            lemma_and_exists_extends(mid.nodes(), start.nodes(), l_low, r_low, elim);
            lemma_and_exists_extends(before.nodes(), mid.nodes(), l_high, r_high, elim);
            lemma_and_exists_extends(before.nodes(), start.nodes(), l, r, elim);
            assert(extends(before.nodes(), start.nodes()));
            assert forall|a: Assignment|
                and_exists(before.nodes(), l, r, elim, a) == if elim(decision_var) {
                    before.value(low, a) || before.value(high, a)
                } else if a(decision_var) {
                    before.value(high, a)
                } else {
                    before.value(low, a)
                } by {
                lemma_and_exists_step(
                    start.nodes(),
                    l,
                    r,
                    elim,
                    decision_var,
                    l_low,
                    l_high,
                    r_low,
                    r_high,
                    a,
                );
                assert(eval(mid.nodes(), low, a) == and_exists(mid.nodes(), l_low, r_low, elim, a));
            }
        }
        let res = if (post && state_is(decision_var, false)) || (!post && state_is(
            decision_var,
            true,
        )) {
            self.or(low, high)
        } else {
            self.new_node(decision_var, low, high)
        };
        proof {
            let n = self.nodes();
            lemma_and_exists_extends(n, before.nodes(), l, r, elim);
            lemma_and_exists_extends(n, start.nodes(), left, right, elim);
            assert forall|a: Assignment| #[trigger]
                eval(n, res, a) == and_exists(n, left, right, elim, a) by {
                assert(and_exists(before.nodes(), l, r, elim, a) == if elim(decision_var) {
                    before.value(low, a) || before.value(high, a)
                } else if a(decision_var) {
                    before.value(high, a)
                } else {
                    before.value(low, a)
                });
                assert(and_exists(start.nodes(), l, r, elim, a) == and_exists(
                    start.nodes(),
                    left,
                    right,
                    elim,
                    a,
                ));
                if elim(decision_var) {
                    assert(eval(n, res, a) == (eval(n, low, a) || eval(n, high, a)));
                } else {
                    assert(self.value(res, a) == if a(decision_var) {
                        self.value(high, a)
                    } else {
                        self.value(low, a)
                    });
                }
            }
            if post {
                assert(in_state(mid.nodes(), low, true));
                assert(in_state(before.nodes(), high, true));
                if !elim(decision_var) {
                    assert(state_is_spec(decision_var, true));
                    assert(self.in_state_at(res, true));
                } else {
                    assert(in_state(n, res, true));
                }
            }
            assert(op_ok(n, bdd_op, res));
        }
        self.ops_cache_set(bdd_op, res);
        res
    }
}

/// The variables listed in `vars`.
pub open spec fn var_set(vars: Seq<usize>) -> Set<u16> {
    Set::new(|v: u16| vars.contains(v as usize))
}

/// Under `a` (read over the original state), some successor under `trans` satisfies `state`:
/// the next state's variables are quantified away, and `state` is read at them.
pub open spec fn pre_image_value(
    nodes: Seq<BddNode>,
    state: BddPointer,
    trans: BddPointer,
    a: Assignment,
) -> bool {
    exists|b: Assignment|
        agrees_off(a, b, image_elim(false)) && eval(nodes, state, renamed(b, true)) && eval(
            nodes,
            trans,
            b,
        )
}

/// Under `a` (read over the original state), the state is reachable in one step of `trans`
/// from some state that satisfies `state`.
pub open spec fn post_image_value(
    nodes: Seq<BddNode>,
    state: BddPointer,
    trans: BddPointer,
    a: Assignment,
) -> bool {
    and_exists(nodes, state, trans, image_elim(true), renamed(a, false))
}

impl PeabodyInner {
    /// `bdd`, over the original state, renamed into the next state.
    pub fn next_state(&mut self, bdd: BddPointer) -> (res: BddPointer)
        requires
            old(self).wf(),
            old(self).valid_ptr(bdd),
            old(self).in_state_at(bdd, false),
        ensures
            final(self).wf(),
            final(self).grows_from(*old(self)),
            rename_ok(final(self).nodes(), bdd, true, res),
    {
        self.state_transform_rec(bdd, true)
    }

    /// `bdd`, over the next state, renamed into the original state.
    pub fn original_state(&mut self, bdd: BddPointer) -> (res: BddPointer)
        requires
            old(self).wf(),
            old(self).valid_ptr(bdd),
            old(self).in_state_at(bdd, true),
        ensures
            final(self).wf(),
            final(self).grows_from(*old(self)),
            rename_ok(final(self).nodes(), bdd, false, res),
    {
        self.state_transform_rec(bdd, false)
    }

    /// The states that have a successor under `trans` in `state`.
    pub fn pre_image(&mut self, state: BddPointer, trans: BddPointer) -> (res: BddPointer)
        requires
            old(self).wf(),
            old(self).valid_ptr(state),
            old(self).valid_ptr(trans),
            old(self).in_state_at(state, false),
        ensures
            final(self).wf(),
            final(self).grows_from(*old(self)),
            final(self).valid_ptr(res),
            forall|a: Assignment| #[trigger]
                final(self).value(res, a) == pre_image_value(final(self).nodes(), state, trans, a),
            in_part(final(self).nodes(), res, false),
    {
        let next = self.next_state(state);
        let ghost mid = *self;
        let res = self.image_rec(next, trans, false);
        proof {
            let n = self.nodes();
            assert forall|a: Assignment| #[trigger]
                self.value(res, a) == pre_image_value(n, state, trans, a) by {
                assert(eval(n, res, a) == and_exists(n, next, trans, image_elim(false), a));
                if and_exists(n, next, trans, image_elim(false), a) {
                    let b = choose|b: Assignment|
                        agrees_off(a, b, image_elim(false)) && eval(n, next, b) && eval(
                            n,
                            trans,
                            b,
                        );
                    assert(eval(mid.nodes(), next, b) == eval(mid.nodes(), state, renamed(b, true)));
                    assert(eval(n, state, renamed(b, true)));
                }
                if pre_image_value(n, state, trans, a) {
                    let b = choose|b: Assignment|
                        agrees_off(a, b, image_elim(false)) && eval(n, state, renamed(b, true))
                            && eval(n, trans, b);
                    assert(eval(mid.nodes(), next, b) == eval(mid.nodes(), state, renamed(b, true)));
                    assert(eval(n, next, b));
                }
            }
        }
        res
    }

    /// The states reachable in one step of `trans` from `state`.
    pub fn post_image(&mut self, state: BddPointer, trans: BddPointer) -> (res: BddPointer)
        requires
            old(self).wf(),
            old(self).valid_ptr(state),
            old(self).valid_ptr(trans),
        ensures
            final(self).wf(),
            final(self).grows_from(*old(self)),
            final(self).valid_ptr(res),
            forall|a: Assignment| #[trigger]
                final(self).value(res, a) == post_image_value(final(self).nodes(), state, trans, a),
            final(self).in_state_at(res, false),
    {
        let image = self.image_rec(state, trans, true);
        let ghost mid = *self;
        let res = self.original_state(image);
        proof {
            let n = self.nodes();
            lemma_and_exists_extends(n, mid.nodes(), state, trans, image_elim(true));
            assert forall|a: Assignment| #[trigger]
                self.value(res, a) == post_image_value(n, state, trans, a) by {
                assert(eval(n, res, a) == eval(n, image, renamed(a, false)));
                assert(eval(mid.nodes(), image, renamed(a, false)) == and_exists(
                    mid.nodes(),
                    state,
                    trans,
                    image_elim(true),
                    renamed(a, false),
                ));
            }
        }
        res
    }

    /// The conjunction of `left` and `right` with the variables of `exist_vars` quantified away.
    pub fn and_exist(&mut self, left: BddPointer, right: BddPointer, exist_vars: &[usize]) -> (res:
        BddPointer)
        requires
            old(self).wf(),
            old(self).valid_ptr(left),
            old(self).valid_ptr(right),
            forall|i: int| 0 <= i < exist_vars@.len() ==> exist_vars@[i] <= 0xffff,
        ensures
            final(self).wf(),
            final(self).grows_from(*old(self)),
            final(self).valid_ptr(res),
            forall|a: Assignment| #[trigger]
                final(self).value(res, a) == and_exists(
                    final(self).nodes(),
                    left,
                    right,
                    set_elim(var_set(exist_vars@)),
                    a,
                ),
    {
        let mut vars: HashSet<u16> = HashSet::new();
        let mut i: usize = 0;
        while i < exist_vars.len()
            invariant
                i <= exist_vars@.len(),
                forall|j: int| 0 <= j < exist_vars@.len() ==> exist_vars@[j] <= 0xffff,
                vars@ == var_set(exist_vars@.subrange(0, i as int)),
            decreases exist_vars@.len() - i,
        {
            let v = exist_vars[i] as u16;
            vars.insert(v);
            proof {
                let prefix = exist_vars@.subrange(0, i as int);
                let next = exist_vars@.subrange(0, i + 1);
                assert(next == prefix.push(exist_vars@[i as int]));
                assert forall|w: u16| #[trigger] vars@.contains(w) == var_set(next).contains(w) by {
                    if w == v {
                        assert(next[i as int] == w as usize);
                    }
                    if next.contains(w as usize) {
                        let j = choose|j: int| 0 <= j < next.len() && next[j] == w as usize;
                        if j < i {
                            assert(prefix[j] == w as usize);
                        }
                    }
                    if prefix.contains(w as usize) {
                        let j = choose|j: int| 0 <= j < prefix.len() && prefix[j] == w as usize;
                        assert(next[j] == w as usize);
                    }
                }
                assert(vars@ =~= var_set(next));
            }
            i = i + 1;
        }
        proof {
            assert(exist_vars@.subrange(0, exist_vars@.len() as int) == exist_vars@);
        }
        self.and_exist_rec(left, right, &vars)
    }

    fn in_state_memo(&self, p: BddPointer, next: bool, memo: &mut Vec<u8>) -> (r: bool)
        requires
            self.wf(),
            self.valid_ptr(p),
            old(memo)@.len() == self.nodes().len(),
            forall|i: int|
                0 <= i < old(memo)@.len() ==> (#[trigger] old(memo)@[i] == 1 ==> in_state(
                    self.nodes(),
                    BddPointer(i as usize),
                    next,
                )) && (old(memo)@[i] == 2 ==> !in_state(self.nodes(), BddPointer(i as usize), next)),
        ensures
            final(memo)@.len() == self.nodes().len(),
            forall|i: int|
                0 <= i < final(memo)@.len() ==> (#[trigger] final(memo)@[i] == 1 ==> in_state(
                    self.nodes(),
                    BddPointer(i as usize),
                    next,
                )) && (final(memo)@[i] == 2 ==> !in_state(
                    self.nodes(),
                    BddPointer(i as usize),
                    next,
                )),
            r == self.in_state_at(p, next),
        decreases p.0,
    {
        if p.0 < 2 {
            return true;
        }
        if memo[p.0] == 1 {
            return true;
        }
        if memo[p.0] == 2 {
            return false;
        }
        proof {
            assert(node_ok(self.nodes(), p.0 as int));
        }
        let var = self.var_of(p);
        let r = state_is(var, next) && state_to(var, !next) < TERMINAL_VAR && self.in_state_memo(
            self.low_of(p),
            next,
            memo,
        ) && self.in_state_memo(self.high_of(p), next, memo);
        memo.set(
            p.0,
            if r {
                1
            } else {
                2
            },
        );
        r
    }

    /// Whether every variable that `bdd` tests belongs to the state that `next` names and has a
    /// partner in the other state: what renaming `bdd` out of that state asks.
    pub fn is_in_state(&self, bdd: BddPointer, next: bool) -> (r: bool)
        requires
            self.wf(),
            self.valid_ptr(bdd),
        ensures
            r == self.in_state_at(bdd, next),
    {
        let mut memo: Vec<u8> = Vec::new();
        let len = self.nodes.len();
        let mut i: usize = 0;
        while i < len
            invariant
                len == self.nodes().len(),
                i <= len,
                memo@.len() == i,
                forall|j: int| 0 <= j < i ==> memo@[j] == 0,
            decreases len - i,
        {
            memo.push(0);
            i = i + 1;
        }
        self.in_state_memo(bdd, next, &mut memo)
    }
}

} // verus!

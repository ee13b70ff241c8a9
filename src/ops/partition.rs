use crate::model::{
    agrees_off, and_exists, assign, eval, extends, lemma_eval_indep, table_ok, valid, var_of,
    Assignment,
};
use crate::node::{BddNode, BddPointer, TERMINAL_VAR};
use vstd::prelude::*;

verus! {

/// Variables come in pairs: an even variable belongs to the original state, the odd one
/// above it to the next state.
pub open spec fn state_is_spec(var: u16, next: bool) -> bool {
    (var % 2 == 0) != next
}

/// The partner of `var` in the original (`next == false`) or next (`next == true`) state.
pub open spec fn state_to_spec(var: u16, next: bool) -> u16 {
    if next {
        (var - var % 2 + 1) as u16
    } else {
        (var - var % 2) as u16
    }
}

/// Every variable that `p` tests belongs to the state that `next` names, and has a partner
/// in the other state.
pub open spec fn in_state(nodes: Seq<BddNode>, p: BddPointer, next: bool) -> bool
    decreases p.0,
{
    if p.0 < 2 {
        true
    } else if p.0 < nodes.len() && nodes[p.0 as int].low.0 < p.0 && nodes[p.0 as int].high.0
        < p.0 {
        let v = nodes[p.0 as int].var;
        &&& state_is_spec(v, next)
        &&& state_to_spec(v, !next) < TERMINAL_VAR
        &&& in_state(nodes, nodes[p.0 as int].low, next)
        &&& in_state(nodes, nodes[p.0 as int].high, next)
    } else {
        false
    }
}

/// Every variable that `p` tests belongs to the state that `next` names.
pub open spec fn in_part(nodes: Seq<BddNode>, p: BddPointer, next: bool) -> bool
    decreases p.0,
{
    if p.0 < 2 {
        true
    } else if p.0 < nodes.len() && nodes[p.0 as int].low.0 < p.0 && nodes[p.0 as int].high.0
        < p.0 {
        &&& state_is_spec(nodes[p.0 as int].var, next)
        &&& in_part(nodes, nodes[p.0 as int].low, next)
        &&& in_part(nodes, nodes[p.0 as int].high, next)
    } else {
        false
    }
}

/// Growing the table does not change which state an old pointer's variables belong to.
pub broadcast proof fn lemma_in_part_extends(
    new: Seq<BddNode>,
    old: Seq<BddNode>,
    p: BddPointer,
    next: bool,
)
    requires
        #[trigger] extends(new, old),
        valid(old, p),
    ensures
        #[trigger] in_part(new, p, next) == in_part(old, p, next),
    decreases p.0,
{
    if 2 <= p.0 && old[p.0 as int].low.0 < p.0 && old[p.0 as int].high.0 < p.0 {
        lemma_in_part_extends(new, old, old[p.0 as int].low, next);
        lemma_in_part_extends(new, old, old[p.0 as int].high, next);
    }
}

/// `a` read through the renaming towards the state that `next` names.
pub open spec fn renamed(a: Assignment, next: bool) -> Assignment {
    |x: u16| a(state_to_spec(x, next))
}

/// The variables that an image step quantifies away: the original state for a post-image,
/// the next state for a pre-image.
pub open spec fn image_elim(post: bool) -> spec_fn(u16) -> bool {
    |v: u16| state_is_spec(v, !post)
}

/// Growing the table does not change which state an old pointer is over.
pub broadcast proof fn lemma_in_state_extends(
    new: Seq<BddNode>,
    old: Seq<BddNode>,
    p: BddPointer,
    next: bool,
)
    requires
        #[trigger] extends(new, old),
        valid(old, p),
    ensures
        #[trigger] in_state(new, p, next) == in_state(old, p, next),
    decreases p.0,
{
    if 2 <= p.0 && old[p.0 as int].low.0 < p.0 && old[p.0 as int].high.0 < p.0 {
        lemma_in_state_extends(new, old, old[p.0 as int].low, next);
        lemma_in_state_extends(new, old, old[p.0 as int].high, next);
    }
}

/// One step of the fused conjunction and quantification: split both operands at `dv`, then
/// either join the two halves by disjunction (`dv` is quantified away) or select one by `dv`.
pub proof fn lemma_and_exists_step(
    nodes: Seq<BddNode>,
    l: BddPointer,
    r: BddPointer,
    elim: spec_fn(u16) -> bool,
    dv: u16,
    l_low: BddPointer,
    l_high: BddPointer,
    r_low: BddPointer,
    r_high: BddPointer,
    a: Assignment,
)
    requires
        table_ok(nodes),
        valid(nodes, l_low),
        valid(nodes, l_high),
        valid(nodes, r_low),
        valid(nodes, r_high),
        var_of(nodes, l_low) > dv,
        var_of(nodes, l_high) > dv,
        var_of(nodes, r_low) > dv,
        var_of(nodes, r_high) > dv,
        forall|b: Assignment| #[trigger]
            eval(nodes, l, b) == if b(dv) {
                eval(nodes, l_high, b)
            } else {
                eval(nodes, l_low, b)
            },
        forall|b: Assignment| #[trigger]
            eval(nodes, r, b) == if b(dv) {
                eval(nodes, r_high, b)
            } else {
                eval(nodes, r_low, b)
            },
    ensures
        and_exists(nodes, l, r, elim, a) == if elim(dv) {
            and_exists(nodes, l_low, r_low, elim, a) || and_exists(nodes, l_high, r_high, elim, a)
        } else if a(dv) {
            and_exists(nodes, l_high, r_high, elim, a)
        } else {
            and_exists(nodes, l_low, r_low, elim, a)
        },
{
    if and_exists(nodes, l, r, elim, a) {
        let b = choose|b: Assignment|
            agrees_off(a, b, elim) && eval(nodes, l, b) && eval(nodes, r, b);
        assert(eval(nodes, l, b) && eval(nodes, r, b));
        if !elim(dv) {
            assert(a(dv) == b(dv));
        }
        if b(dv) {
            assert(agrees_off(a, b, elim) && eval(nodes, l_high, b) && eval(nodes, r_high, b));
        } else {
            assert(agrees_off(a, b, elim) && eval(nodes, l_low, b) && eval(nodes, r_low, b));
        }
    }
    if elim(dv) {
        if and_exists(nodes, l_low, r_low, elim, a) {
            let b = choose|b: Assignment|
                agrees_off(a, b, elim) && eval(nodes, l_low, b) && eval(nodes, r_low, b);
            let b0 = assign(b, dv, false);
            lemma_eval_indep(nodes, l_low, b, dv, false);
            lemma_eval_indep(nodes, r_low, b, dv, false);
            assert forall|v: u16| !elim(v) implies #[trigger] a(v) == b0(v) by {
                assert(a(v) == b(v));
            }
            assert(eval(nodes, l, b0) && eval(nodes, r, b0));
            assert(agrees_off(a, b0, elim) && eval(nodes, l, b0) && eval(nodes, r, b0));
        }
        if and_exists(nodes, l_high, r_high, elim, a) {
            let b = choose|b: Assignment|
                agrees_off(a, b, elim) && eval(nodes, l_high, b) && eval(nodes, r_high, b);
            let b1 = assign(b, dv, true);
            lemma_eval_indep(nodes, l_high, b, dv, true);
            lemma_eval_indep(nodes, r_high, b, dv, true);
            assert forall|v: u16| !elim(v) implies #[trigger] a(v) == b1(v) by {
                assert(a(v) == b(v));
            }
            assert(eval(nodes, l, b1) && eval(nodes, r, b1));
            assert(agrees_off(a, b1, elim) && eval(nodes, l, b1) && eval(nodes, r, b1));
        }
    } else if a(dv) {
        if and_exists(nodes, l_high, r_high, elim, a) {
            let b = choose|b: Assignment|
                agrees_off(a, b, elim) && eval(nodes, l_high, b) && eval(nodes, r_high, b);
            assert(a(dv) == b(dv));
            assert(eval(nodes, l, b) && eval(nodes, r, b));
        }
    } else {
        if and_exists(nodes, l_low, r_low, elim, a) {
            let b = choose|b: Assignment|
                agrees_off(a, b, elim) && eval(nodes, l_low, b) && eval(nodes, r_low, b);
            assert(a(dv) == b(dv));
            assert(eval(nodes, l, b) && eval(nodes, r, b));
        }
    }
}

/// The conjunction with quantification is the same with its operands swapped.
pub proof fn lemma_and_exists_swap(
    nodes: Seq<BddNode>,
    l: BddPointer,
    r: BddPointer,
    elim: spec_fn(u16) -> bool,
    a: Assignment,
)
    ensures
        and_exists(nodes, l, r, elim, a) == and_exists(nodes, r, l, elim, a),
{
    if and_exists(nodes, l, r, elim, a) {
        let b = choose|b: Assignment|
            agrees_off(a, b, elim) && eval(nodes, l, b) && eval(nodes, r, b);
        assert(agrees_off(a, b, elim) && eval(nodes, r, b) && eval(nodes, l, b));
    }
    if and_exists(nodes, r, l, elim, a) {
        let b = choose|b: Assignment|
            agrees_off(a, b, elim) && eval(nodes, r, b) && eval(nodes, l, b);
        assert(agrees_off(a, b, elim) && eval(nodes, l, b) && eval(nodes, r, b));
    }
}

} // verus!

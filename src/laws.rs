//! Laws of the algebra, proved over the contracts of the operations.
use crate::model::{eval, lemma_canonical, same_fn, valid, Assignment};
use crate::node::{BddNode, BddPointer};
use crate::ops::op_function::{and_fn, or_fn};
use crate::ops::partition::{in_state, renamed, state_is_spec, state_to_spec};
use crate::ops::{binary_ok, not_ok, rename_ok};
use crate::PeabodyInner;
use vstd::prelude::*;

verus! {

/// Two pointers of one manager that denote the same function are the same pointer.
pub proof fn law_canonical(m: PeabodyInner, p: BddPointer, q: BddPointer)
    requires
        m.wf(),
        m.valid_ptr(p),
        m.valid_ptr(q),
        forall|a: Assignment| m.value(p, a) == m.value(q, a),
    ensures
        p == q,
{
    assert forall|a: Assignment| eval(m.nodes(), p, a) == eval(m.nodes(), q, a) by {
        assert(m.value(p, a) == m.value(q, a));
    }
    assert(same_fn(m.nodes(), p, q));
    lemma_canonical(m.nodes(), m.index(), p, q);
}

/// No two entries of the node table hold the same decision node.
pub proof fn law_unique_nodes(m: PeabodyInner, i: int, j: int)
    requires
        m.wf(),
        2 <= i < m.nodes().len(),
        2 <= j < m.nodes().len(),
        m.nodes()[i] == m.nodes()[j],
    ensures
        i == j,
{
    assert(m.index().contains_key(crate::model::key_of(m.nodes()[i])));
    assert(m.index().contains_key(crate::model::key_of(m.nodes()[j])));
}

/// Complementing twice gives back the pointer complemented.
pub proof fn law_not_not(m: PeabodyInner, a: BddPointer, na: BddPointer, nna: BddPointer)
    requires
        m.wf(),
        not_ok(m.nodes(), a, na),
        not_ok(m.nodes(), na, nna),
    ensures
        nna == a,
{
    law_canonical(m, nna, a);
}

/// De Morgan: the conjunction of `a` and `b` is the complement of the disjunction of their
/// complements.
pub proof fn law_de_morgan(
    m: PeabodyInner,
    a: BddPointer,
    b: BddPointer,
    conj: BddPointer,
    na: BddPointer,
    nb: BddPointer,
    disj: BddPointer,
    ndisj: BddPointer,
)
    requires
        m.wf(),
        binary_ok(m.nodes(), and_fn(), a, b, conj),
        not_ok(m.nodes(), a, na),
        not_ok(m.nodes(), b, nb),
        binary_ok(m.nodes(), or_fn(), na, nb, disj),
        not_ok(m.nodes(), disj, ndisj),
    ensures
        conj == ndisj,
{
    assert forall|x: Assignment| m.value(conj, x) == m.value(ndisj, x) by {
        assert(eval(m.nodes(), conj, x) == (and_fn())(eval(m.nodes(), a, x), eval(m.nodes(), b, x)));
        assert(eval(m.nodes(), disj, x) == (or_fn())(eval(m.nodes(), na, x), eval(m.nodes(), nb, x)));
        assert(eval(m.nodes(), ndisj, x) == !eval(m.nodes(), disj, x));
        assert(eval(m.nodes(), na, x) == !eval(m.nodes(), a, x));
        assert(eval(m.nodes(), nb, x) == !eval(m.nodes(), b, x));
    }
    law_canonical(m, conj, ndisj);
}

/// The conjunction with the constant false is the constant false.
pub proof fn law_and_false(m: PeabodyInner, x: BddPointer, r: BddPointer)
    requires
        m.wf(),
        binary_ok(m.nodes(), and_fn(), BddPointer(0), x, r),
    ensures
        r == BddPointer(0),
{
    assert forall|a: Assignment| m.value(r, a) == m.value(BddPointer(0), a) by {
        assert(eval(m.nodes(), r, a) == (and_fn())(
            eval(m.nodes(), BddPointer(0), a),
            eval(m.nodes(), x, a),
        ));
    }
    law_canonical(m, r, BddPointer(0));
}

/// The disjunction with the constant true is the constant true.
pub proof fn law_or_true(m: PeabodyInner, x: BddPointer, r: BddPointer)
    requires
        m.wf(),
        binary_ok(m.nodes(), or_fn(), BddPointer(1), x, r),
    ensures
        r == BddPointer(1),
{
    assert forall|a: Assignment| m.value(r, a) == m.value(BddPointer(1), a) by {
        assert(eval(m.nodes(), r, a) == (or_fn())(
            eval(m.nodes(), BddPointer(1), a),
            eval(m.nodes(), x, a),
        ));
    }
    law_canonical(m, r, BddPointer(1));
}

/// A diagram over one state does not depend on the variables of the other.
pub proof fn lemma_eval_in_state(
    nodes: Seq<BddNode>,
    p: BddPointer,
    next: bool,
    a: Assignment,
    b: Assignment,
)
    requires
        valid(nodes, p),
        in_state(nodes, p, next),
        forall|v: u16| state_is_spec(v, next) ==> #[trigger] a(v) == b(v),
    ensures
        eval(nodes, p, a) == eval(nodes, p, b),
    decreases p.0,
{
    if p.0 >= 2 {
        lemma_eval_in_state(nodes, nodes[p.0 as int].low, next, a, b);
        lemma_eval_in_state(nodes, nodes[p.0 as int].high, next, a, b);
    }
}

/// Renaming into the next state and back leaves the original state's variables as they were.
proof fn lemma_round_trip_assignment(a: Assignment)
    ensures
        forall|v: u16| state_is_spec(v, false) ==> #[trigger] renamed(renamed(a, false), true)(v) == a(v),
{
    assert forall|v: u16| state_is_spec(v, false) implies #[trigger] renamed(renamed(a, false), true)(v) == a(v) by {
        assert(v % 2 == 0);
        assert(state_to_spec(v, true) == v + 1);
        assert(state_to_spec((v + 1) as u16, false) == v);
    }
}

/// Renaming a diagram over the original state into the next state and back gives back the
/// same pointer.
pub proof fn law_rename_round_trip(m: PeabodyInner, d: BddPointer, nd: BddPointer, back: BddPointer)
    requires
        m.wf(),
        m.valid_ptr(d),
        m.in_state_at(d, false),
        rename_ok(m.nodes(), d, true, nd),
        rename_ok(m.nodes(), nd, false, back),
    ensures
        back == d,
{
    assert forall|a: Assignment| m.value(back, a) == m.value(d, a) by {
        let twice = renamed(renamed(a, false), true);
        assert(eval(m.nodes(), back, a) == eval(m.nodes(), nd, renamed(a, false)));
        assert(eval(m.nodes(), nd, renamed(a, false)) == eval(m.nodes(), d, twice));
        lemma_round_trip_assignment(a);
        lemma_eval_in_state(m.nodes(), d, false, twice, a);
    }
    law_canonical(m, back, d);
}

} // verus!

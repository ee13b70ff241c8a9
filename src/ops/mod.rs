pub mod apply;
pub mod image;
pub mod not;
pub mod op_function;
pub mod partition;
pub mod stack;

use crate::model::{
    and_exists, eval, extends, lemma_eval_extends, lemma_eval_node, node_ok, table_ok, valid, var_of,
    Assignment,
};
use crate::node::{BddNode, BddPointer, TERMINAL_VAR};
use crate::tables::TableKey;
use op_function::{and_fn, or_fn, xor_fn};
use partition::{
    image_elim, in_part, in_state, lemma_in_part_extends, lemma_in_state_extends, renamed, state_is_spec, state_to_spec,
};
use vstd::prelude::*;

verus! {

broadcast use {lemma_eval_extends, lemma_in_state_extends, lemma_in_part_extends};

/// Descriptor of a memoized operation: its kind and its operands.
#[derive(Clone, Copy, Debug, PartialEq, Eq, Hash, Structural)]
pub enum BddOps {
    Not(BddPointer),
    And(BddPointer, BddPointer),
    Or(BddPointer, BddPointer),
    Xor(BddPointer, BddPointer),
    OriginalState(BddPointer),
    NextState(BddPointer),
    PreImage(BddPointer, BddPointer),
    PostImage(BddPointer, BddPointer),
}

impl BddOps {
    /// The cache key of the descriptor: a tag for the kind, then the operands.
    pub open spec fn spec_key(self) -> TableKey {
        match self {
            BddOps::Not(p) => (0, p.0, 0),
            BddOps::And(l, r) => (1, l.0, r.0),
            BddOps::Or(l, r) => (2, l.0, r.0),
            BddOps::Xor(l, r) => (3, l.0, r.0),
            BddOps::OriginalState(p) => (4, p.0, 0),
            BddOps::NextState(p) => (5, p.0, 0),
            BddOps::PreImage(l, r) => (6, l.0, r.0),
            BddOps::PostImage(l, r) => (7, l.0, r.0),
        }
    }

    pub fn key(&self) -> (r: TableKey)
        ensures
            r == self.spec_key(),
    {
        match *self {
            BddOps::Not(p) => (0, p.0, 0),
            BddOps::And(l, r) => (1, l.0, r.0),
            BddOps::Or(l, r) => (2, l.0, r.0),
            BddOps::Xor(l, r) => (3, l.0, r.0),
            BddOps::OriginalState(p) => (4, p.0, 0),
            BddOps::NextState(p) => (5, p.0, 0),
            BddOps::PreImage(l, r) => (6, l.0, r.0),
            BddOps::PostImage(l, r) => (7, l.0, r.0),
        }
    }
}

/// Distinct descriptors have distinct keys.
pub proof fn lemma_key_injective(o1: BddOps, o2: BddOps)
    requires
        o1.spec_key() == o2.spec_key(),
    ensures
        o1 == o2,
{
}

/// `r` is the complement of `p`, and tests no variable below the one `p` tests.
pub open spec fn not_ok(nodes: Seq<BddNode>, p: BddPointer, r: BddPointer) -> bool {
    &&& valid(nodes, p)
    &&& valid(nodes, r)
    &&& forall|a: Assignment| #[trigger] eval(nodes, r, a) == !eval(nodes, p, a)
    &&& var_of(nodes, r) >= var_of(nodes, p)
}

/// `r` is `f` applied pointwise to `x` and `y`; it tests no variable below both of theirs, and
/// stays over a state that both operands are over.
pub open spec fn binary_ok(
    nodes: Seq<BddNode>,
    f: spec_fn(bool, bool) -> bool,
    x: BddPointer,
    y: BddPointer,
    r: BddPointer,
) -> bool {
    &&& valid(nodes, x)
    &&& valid(nodes, y)
    &&& valid(nodes, r)
    &&& forall|a: Assignment| #[trigger] eval(nodes, r, a) == f(eval(nodes, x, a), eval(nodes, y, a))
    &&& var_of(nodes, r) >= var_of(nodes, x) || var_of(nodes, r) >= var_of(nodes, y)
    &&& forall|s: bool|
        in_state(nodes, x, s) && in_state(nodes, y, s) ==> #[trigger] in_state(nodes, r, s)
    &&& forall|s: bool|
        in_part(nodes, x, s) && in_part(nodes, y, s) ==> #[trigger] in_part(nodes, r, s)
}

/// `r` is `p`, over the other state, renamed into the state that `next` names.
pub open spec fn rename_ok(nodes: Seq<BddNode>, p: BddPointer, next: bool, r: BddPointer) -> bool {
    &&& valid(nodes, p)
    &&& valid(nodes, r)
    &&& in_state(nodes, p, !next)
    &&& in_state(nodes, r, next)
    &&& forall|a: Assignment| #[trigger] eval(nodes, r, a) == eval(nodes, p, renamed(a, next))
    &&& var_of(nodes, r) >= state_to_spec(var_of(nodes, p), next)
}

/// `r` is the conjunction of `x` and `y` with the variables of one state quantified away:
/// those of the original state when `post`, those of the next state otherwise.
pub open spec fn image_ok(
    nodes: Seq<BddNode>,
    x: BddPointer,
    y: BddPointer,
    post: bool,
    r: BddPointer,
) -> bool {
    &&& valid(nodes, x)
    &&& valid(nodes, y)
    &&& valid(nodes, r)
    &&& forall|a: Assignment| #[trigger]
        eval(nodes, r, a) == and_exists(nodes, x, y, image_elim(post), a)
    &&& var_of(nodes, r) >= var_of(nodes, x) || var_of(nodes, r) >= var_of(nodes, y)
    &&& post ==> in_state(nodes, r, true)
    &&& in_part(nodes, r, post)
}

/// `q` already denotes `f` applied pointwise to `x` and `y`.
pub open spec fn denotes_binary(
    nodes: Seq<BddNode>,
    f: spec_fn(bool, bool) -> bool,
    x: BddPointer,
    y: BddPointer,
    q: BddPointer,
) -> bool {
    &&& valid(nodes, q)
    &&& forall|a: Assignment| #[trigger] eval(nodes, q, a) == f(eval(nodes, x, a), eval(nodes, y, a))
}

/// `q` already denotes the complement of `p`.
pub open spec fn denotes_not(nodes: Seq<BddNode>, p: BddPointer, q: BddPointer) -> bool {
    &&& valid(nodes, q)
    &&& forall|a: Assignment| #[trigger] eval(nodes, q, a) == !eval(nodes, p, a)
}

/// `r` is a correct result of the operation that `op` describes.
pub open spec fn op_ok(nodes: Seq<BddNode>, op: BddOps, r: BddPointer) -> bool {
    match op {
        BddOps::Not(p) => not_ok(nodes, p, r),
        BddOps::And(x, y) => binary_ok(nodes, and_fn(), x, y, r),
        BddOps::Or(x, y) => binary_ok(nodes, or_fn(), x, y, r),
        BddOps::Xor(x, y) => binary_ok(nodes, xor_fn(), x, y, r),
        BddOps::OriginalState(p) => rename_ok(nodes, p, false, r),
        BddOps::NextState(p) => rename_ok(nodes, p, true, r),
        BddOps::PreImage(x, y) => image_ok(nodes, x, y, false, r),
        BddOps::PostImage(x, y) => image_ok(nodes, x, y, true, r),
    }
}

/// Every entry of the operation cache holds a correct result.
pub open spec fn cache_ok(nodes: Seq<BddNode>, cache: Map<TableKey, BddPointer>) -> bool {
    forall|op: BddOps| #[trigger]
        cache.contains_key(op.spec_key()) ==> op_ok(nodes, op, cache[op.spec_key()])
}

/// A correct result stays correct when the table grows.
pub proof fn lemma_op_ok_extends(new: Seq<BddNode>, old: Seq<BddNode>, op: BddOps, r: BddPointer)
    requires
        extends(new, old),
        op_ok(old, op, r),
    ensures
        op_ok(new, op, r),
{
    match op {
        BddOps::PreImage(x, y) => lemma_and_exists_extends(new, old, x, y, image_elim(false)),
        BddOps::PostImage(x, y) => lemma_and_exists_extends(new, old, x, y, image_elim(true)),
        _ => {},
    }
}

pub proof fn lemma_and_exists_extends(
    new: Seq<BddNode>,
    old: Seq<BddNode>,
    x: BddPointer,
    y: BddPointer,
    elim: spec_fn(u16) -> bool,
)
    requires
        extends(new, old),
        valid(old, x),
        valid(old, y),
    ensures
        forall|a: Assignment|
            #[trigger] and_exists(new, x, y, elim, a) == and_exists(old, x, y, elim, a),
{
    assert forall|a: Assignment|
        #[trigger] and_exists(new, x, y, elim, a) == and_exists(old, x, y, elim, a) by {
        if and_exists(old, x, y, elim, a) {
            let b = choose|b: Assignment|
                crate::model::agrees_off(a, b, elim) && eval(old, x, b) && eval(old, y, b);
            assert(eval(new, x, b) && eval(new, y, b));
        }
        if and_exists(new, x, y, elim, a) {
            let b = choose|b: Assignment|
                crate::model::agrees_off(a, b, elim) && eval(new, x, b) && eval(new, y, b);
            assert(eval(old, x, b) && eval(old, y, b));
        }
    }
}

/// The generalized cofactors of `x` at `dv`: its branches when it tests `dv`, else `x` twice.
pub proof fn lemma_cofactor(
    nodes: Seq<BddNode>,
    x: BddPointer,
    dv: u16,
    lo: BddPointer,
    hi: BddPointer,
)
    requires
        table_ok(nodes),
        valid(nodes, x),
        dv < TERMINAL_VAR,
        dv <= var_of(nodes, x),
        if var_of(nodes, x) == dv {
            lo == nodes[x.0 as int].low && hi == nodes[x.0 as int].high
        } else {
            lo == x && hi == x
        },
    ensures
        valid(nodes, lo),
        valid(nodes, hi),
        var_of(nodes, lo) > dv,
        var_of(nodes, hi) > dv,
        lo.0 <= x.0,
        hi.0 <= x.0,
        var_of(nodes, x) == dv ==> 2 <= x.0 && lo.0 < x.0 && hi.0 < x.0,
        forall|a: Assignment| #[trigger]
            eval(nodes, x, a) == if a(dv) {
                eval(nodes, hi, a)
            } else {
                eval(nodes, lo, a)
            },
        forall|s: bool| #[trigger]
            in_part(nodes, x, s) ==> in_part(nodes, lo, s) && in_part(nodes, hi, s) && (var_of(
                nodes,
                x,
            ) == dv ==> state_is_spec(dv, s)),
        forall|s: bool| #[trigger]
            in_state(nodes, x, s) ==> in_state(nodes, lo, s) && in_state(nodes, hi, s) && (var_of(
                nodes,
                x,
            ) == dv ==> state_is_spec(dv, s) && state_to_spec(dv, !s) < TERMINAL_VAR),
{
    if var_of(nodes, x) == dv {
        assert(x.0 >= 2);
        assert(node_ok(nodes, x.0 as int));
        assert forall|a: Assignment| #[trigger]
            eval(nodes, x, a) == if a(dv) {
                eval(nodes, hi, a)
            } else {
                eval(nodes, lo, a)
            } by {
            lemma_eval_node(nodes, x, a);
        }
    }
}

} // verus!

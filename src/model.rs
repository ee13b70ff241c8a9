use crate::node::{terminal_node, BddNode, BddPointer, TERMINAL_VAR};
use crate::tables::TableKey;
use vstd::prelude::*;

verus! {

/// A truth assignment to the variables.
pub type Assignment = spec_fn(u16) -> bool;

/// `a` with variable `v` set to `b`.
pub open spec fn assign(a: Assignment, v: u16, b: bool) -> Assignment {
    |x: u16| if x == v { b } else { a(x) }
}

/// The value, under `a`, of the function whose root is `p` in the node table `nodes`.
pub open spec fn eval(nodes: Seq<BddNode>, p: BddPointer, a: Assignment) -> bool
    decreases p.0,
{
    if p.0 == 1 {
        true
    } else if 2 <= p.0 < nodes.len() && nodes[p.0 as int].low.0 < p.0 && nodes[p.0 as int].high.0
        < p.0 {
        if a(nodes[p.0 as int].var) {
            eval(nodes, nodes[p.0 as int].high, a)
        } else {
            eval(nodes, nodes[p.0 as int].low, a)
        }
    } else {
        false
    }
}

/// `p` and `q` denote the same Boolean function.
pub open spec fn same_fn(nodes: Seq<BddNode>, p: BddPointer, q: BddPointer) -> bool {
    forall|a: Assignment| eval(nodes, p, a) == eval(nodes, q, a)
}

pub open spec fn valid(nodes: Seq<BddNode>, p: BddPointer) -> bool {
    p.0 < nodes.len()
}

/// The variable tested at `p`; `TERMINAL_VAR` for the terminals.
pub open spec fn var_of(nodes: Seq<BddNode>, p: BddPointer) -> u16 {
    nodes[p.0 as int].var
}

/// Decision node `i` is reduced and ordered: its branches differ, were built before it,
/// and test only variables above its own.
pub open spec fn node_ok(nodes: Seq<BddNode>, i: int) -> bool {
    let n = nodes[i];
    &&& n.low.0 < i
    &&& n.high.0 < i
    &&& n.low != n.high
    &&& n.var < var_of(nodes, n.low)
    &&& n.var < var_of(nodes, n.high)
}

/// The node table holds the two terminals first, then reduced, ordered decision nodes.
pub open spec fn table_ok(nodes: Seq<BddNode>) -> bool {
    &&& nodes.len() >= 2
    &&& nodes[0] == terminal_node(false)
    &&& nodes[1] == terminal_node(true)
    &&& forall|i: int| 2 <= i < nodes.len() ==> #[trigger] node_ok(nodes, i)
}

/// `new` holds `old` as a prefix: every pointer into `old` keeps its node.
pub open spec fn extends(new: Seq<BddNode>, old: Seq<BddNode>) -> bool {
    &&& old.len() <= new.len()
    &&& forall|i: int| 0 <= i < old.len() ==> new[i] == old[i]
}

pub open spec fn key_of(n: BddNode) -> TableKey {
    (n.var, n.low.0, n.high.0)
}

/// The hash-consing index maps the descriptor of each decision node to that node, and
/// holds nothing else.
pub open spec fn index_ok(nodes: Seq<BddNode>, index: Map<TableKey, BddPointer>) -> bool {
    &&& forall|k: TableKey| #[trigger]
        index.contains_key(k) ==> 2 <= index[k].0 < nodes.len() && key_of(nodes[index[k].0 as int])
            == k
    &&& forall|i: int|
        2 <= i < nodes.len() ==> index.contains_key(#[trigger] key_of(nodes[i])) && index[key_of(
            nodes[i],
        )].0 == i
}

/// Growing the table does not change what an old pointer denotes.
pub broadcast proof fn lemma_eval_extends(
    new: Seq<BddNode>,
    old: Seq<BddNode>,
    p: BddPointer,
    a: Assignment,
)
    requires
        #[trigger] extends(new, old),
        valid(old, p),
    ensures
        #[trigger] eval(new, p, a) == eval(old, p, a),
    decreases p.0,
{
    if 2 <= p.0 && old[p.0 as int].low.0 < p.0 && old[p.0 as int].high.0 < p.0 {
        lemma_eval_extends(new, old, old[p.0 as int].low, a);
        lemma_eval_extends(new, old, old[p.0 as int].high, a);
    }
}

/// A decision node evaluates through the branch that its variable selects.
pub proof fn lemma_eval_node(nodes: Seq<BddNode>, p: BddPointer, a: Assignment)
    requires
        table_ok(nodes),
        2 <= p.0 < nodes.len(),
    ensures
        node_ok(nodes, p.0 as int),
        eval(nodes, p, a) == if a(var_of(nodes, p)) {
            eval(nodes, nodes[p.0 as int].high, a)
        } else {
            eval(nodes, nodes[p.0 as int].low, a)
        },
{
    assert(node_ok(nodes, p.0 as int));
}

/// The function rooted at `p` does not depend on variables below the one `p` tests.
pub proof fn lemma_eval_indep(nodes: Seq<BddNode>, p: BddPointer, a: Assignment, v: u16, b: bool)
    requires
        table_ok(nodes),
        valid(nodes, p),
        v < var_of(nodes, p),
    ensures
        eval(nodes, p, assign(a, v, b)) == eval(nodes, p, a),
    decreases p.0,
{
    if p.0 >= 2 {
        lemma_eval_node(nodes, p, a);
        lemma_eval_node(nodes, p, assign(a, v, b));
        let n = nodes[p.0 as int];
        lemma_eval_indep(nodes, n.low, a, v, b);
        lemma_eval_indep(nodes, n.high, a, v, b);
    }
}

/// Canonicity: in a reduced, ordered table without duplicate nodes, two pointers that denote
/// the same function are the same pointer.
pub proof fn lemma_canonical(
    nodes: Seq<BddNode>,
    index: Map<TableKey, BddPointer>,
    p: BddPointer,
    q: BddPointer,
)
    requires
        table_ok(nodes),
        index_ok(nodes, index),
        valid(nodes, p),
        valid(nodes, q),
        same_fn(nodes, p, q),
    ensures
        p == q,
    decreases
            (if p.0 >= q.0 {
                p.0
            } else {
                q.0
            }),
            p.0 + q.0,
            (if p.0 >= 2 && (q.0 < 2 || var_of(nodes, q) < var_of(nodes, p)) {
                1int
            } else {
                0
            }),
{
    let any = |x: u16| false;
    if p.0 < 2 && q.0 < 2 {
        if p != q {
            assert(eval(nodes, p, any) != eval(nodes, q, any));
        }
    } else if p.0 >= 2 && (q.0 < 2 || var_of(nodes, q) < var_of(nodes, p)) {
        lemma_canonical(nodes, index, q, p);
    } else if p.0 < 2 {
        // `q` is a decision node over branches that differ as functions, so it is not constant.
        assert(node_ok(nodes, q.0 as int));
        let n = nodes[q.0 as int];
        if same_fn(nodes, n.low, n.high) {
            lemma_canonical(nodes, index, n.low, n.high);
        }
        let a = choose|a: Assignment| eval(nodes, n.low, a) != eval(nodes, n.high, a);
        let a0 = assign(a, n.var, false);
        let a1 = assign(a, n.var, true);
        lemma_eval_node(nodes, q, a0);
        lemma_eval_node(nodes, q, a1);
        lemma_eval_indep(nodes, n.low, a, n.var, false);
        lemma_eval_indep(nodes, n.high, a, n.var, true);
        assert(eval(nodes, p, a0) == eval(nodes, p, a1));
        assert(eval(nodes, q, a0) == eval(nodes, p, a0));
        assert(eval(nodes, q, a1) == eval(nodes, p, a1));
    } else {
        // Both are decision nodes and `p` tests the lower (or the same) variable.
        assert(node_ok(nodes, p.0 as int));
        assert(node_ok(nodes, q.0 as int));
        let np = nodes[p.0 as int];
        let nq = nodes[q.0 as int];
        let v = np.var;
        if v < nq.var {
            assert forall|a: Assignment| eval(nodes, np.low, a) == eval(nodes, q, a) by {
                let a0 = assign(a, v, false);
                lemma_eval_indep(nodes, np.low, a, v, false);
                lemma_eval_node(nodes, p, a0);
                lemma_eval_indep(nodes, q, a, v, false);
            }
            assert forall|a: Assignment| eval(nodes, np.high, a) == eval(nodes, q, a) by {
                let a1 = assign(a, v, true);
                lemma_eval_indep(nodes, np.high, a, v, true);
                lemma_eval_node(nodes, p, a1);
                lemma_eval_indep(nodes, q, a, v, true);
            }
            lemma_canonical(nodes, index, np.low, q);
            lemma_canonical(nodes, index, np.high, q);
        } else {
            assert forall|a: Assignment| eval(nodes, np.low, a) == eval(nodes, nq.low, a) by {
                let a0 = assign(a, v, false);
                lemma_eval_indep(nodes, np.low, a, v, false);
                lemma_eval_indep(nodes, nq.low, a, v, false);
                lemma_eval_node(nodes, p, a0);
                lemma_eval_node(nodes, q, a0);
            }
            assert forall|a: Assignment| eval(nodes, np.high, a) == eval(nodes, nq.high, a) by {
                let a1 = assign(a, v, true);
                lemma_eval_indep(nodes, np.high, a, v, true);
                lemma_eval_indep(nodes, nq.high, a, v, true);
                lemma_eval_node(nodes, p, a1);
                lemma_eval_node(nodes, q, a1);
            }
            lemma_canonical(nodes, index, np.low, nq.low);
            lemma_canonical(nodes, index, np.high, nq.high);
            assert(key_of(nodes[p.0 as int]) == key_of(nodes[q.0 as int]));
        }
    }
}


/// `b` agrees with `a` on every variable that `elim` does not select.
pub open spec fn agrees_off(a: Assignment, b: Assignment, elim: spec_fn(u16) -> bool) -> bool {
    forall|v: u16| #![trigger a(v)] #![trigger b(v)] !elim(v) ==> a(v) == b(v)
}

/// The value under `a` of the conjunction of `l` and `r` with the variables that `elim`
/// selects existentially quantified away.
pub open spec fn and_exists(
    nodes: Seq<BddNode>,
    l: BddPointer,
    r: BddPointer,
    elim: spec_fn(u16) -> bool,
    a: Assignment,
) -> bool {
    exists|b: Assignment| agrees_off(a, b, elim) && eval(nodes, l, b) && eval(nodes, r, b)
}

/// A function `f` on assignments does not depend on variable `v`.
pub open spec fn indep_of(f: spec_fn(Assignment) -> bool, v: u16) -> bool {
    forall|a: Assignment, b: bool| #[trigger] f(assign(a, v, b)) == f(a)
}

/// Let `q` denote `f`, which depends on no variable below `dv` and splits at `dv` into `f0`
/// (when `dv` is false) and `f1`, neither of which depends on `dv`. Then `q` tests no
/// variable below `dv`, and the halves have nodes already: the branches of `q` when it tests
/// `dv`, else `q` itself.
pub proof fn lemma_split_existing(
    nodes: Seq<BddNode>,
    index: Map<TableKey, BddPointer>,
    q: BddPointer,
    dv: u16,
    f: spec_fn(Assignment) -> bool,
    f0: spec_fn(Assignment) -> bool,
    f1: spec_fn(Assignment) -> bool,
)
    requires
        table_ok(nodes),
        index_ok(nodes, index),
        valid(nodes, q),
        dv < TERMINAL_VAR,
        forall|a: Assignment| #[trigger] eval(nodes, q, a) == f(a),
        forall|a: Assignment| #[trigger] f(a) == if a(dv) { f1(a) } else { f0(a) },
        indep_of(f0, dv),
        indep_of(f1, dv),
        forall|v: u16| v < dv ==> #[trigger] indep_of(f, v),
    ensures
        var_of(nodes, q) >= dv,
        var_of(nodes, q) == dv ==> q.0 >= 2 && (forall|a: Assignment|
            #[trigger] eval(nodes, nodes[q.0 as int].low, a) == f0(a)) && (forall|a: Assignment|
            #[trigger] eval(nodes, nodes[q.0 as int].high, a) == f1(a)),
        var_of(nodes, q) > dv ==> (forall|a: Assignment| #[trigger] eval(nodes, q, a) == f0(a))
            && (forall|a: Assignment| eval(nodes, q, a) == f1(a)),
{
    let vq = var_of(nodes, q);
    if vq < dv {
        assert(q.0 >= 2);
        assert(node_ok(nodes, q.0 as int));
        let n = nodes[q.0 as int];
        assert(indep_of(f, vq));
        assert forall|a: Assignment| eval(nodes, n.low, a) == eval(nodes, n.high, a) by {
            let a0 = assign(a, vq, false);
            let a1 = assign(a, vq, true);
            lemma_eval_indep(nodes, n.low, a, vq, false);
            lemma_eval_indep(nodes, n.high, a, vq, true);
            lemma_eval_node(nodes, q, a0);
            lemma_eval_node(nodes, q, a1);
            assert(f(a0) == f(a));
            assert(f(a1) == f(a));
        }
        lemma_canonical(nodes, index, n.low, n.high);
    } else if vq == dv {
        assert(q.0 >= 2);
        assert(node_ok(nodes, q.0 as int));
        let n = nodes[q.0 as int];
        assert forall|a: Assignment| #[trigger] eval(nodes, n.low, a) == f0(a) by {
            let a0 = assign(a, dv, false);
            lemma_eval_indep(nodes, n.low, a, dv, false);
            lemma_eval_node(nodes, q, a0);
            assert(f(a0) == f0(a0));
            assert(f0(a0) == f0(a));
        }
        assert forall|a: Assignment| #[trigger] eval(nodes, n.high, a) == f1(a) by {
            let a1 = assign(a, dv, true);
            lemma_eval_indep(nodes, n.high, a, dv, true);
            lemma_eval_node(nodes, q, a1);
            assert(f(a1) == f1(a1));
            assert(f1(a1) == f1(a));
        }
    } else {
        assert forall|a: Assignment| #[trigger] eval(nodes, q, a) == f0(a) by {
            let a0 = assign(a, dv, false);
            lemma_eval_indep(nodes, q, a, dv, false);
            assert(f(a0) == f0(a0));
            assert(f0(a0) == f0(a));
        }
        assert forall|a: Assignment| eval(nodes, q, a) == f1(a) by {
            let a1 = assign(a, dv, true);
            lemma_eval_indep(nodes, q, a, dv, true);
            assert(f(a1) == f1(a1));
            assert(f1(a1) == f1(a));
        }
    }
}

} // verus!

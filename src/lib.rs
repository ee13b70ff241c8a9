//! A binary decision diagram engine: a shared, hash-consed table of decision nodes, the
//! Boolean operations on it, and the image steps of symbolic state-space exploration.
mod model;
mod node;
pub mod ops;
mod tables;

pub use model::{
    agrees_off, and_exists, assign, eval, extends, index_ok, key_of, lemma_canonical, same_fn,
    table_ok, valid, var_of, Assignment,
};
pub use node::{terminal_index, terminal_node, terminal_value, BddNode, BddPointer, TERMINAL_VAR};
pub use ops::{cache_ok, op_ok, BddOps};
pub use tables::{FxTable, TableKey};

use ops::partition::{in_state, state_is_spec, state_to_spec};
use ops::{lemma_key_injective, lemma_op_ok_extends};
use model::{lemma_eval_extends, lemma_eval_node, node_ok};
use ops::partition::{in_part, lemma_in_part_extends, lemma_in_state_extends};
use tables::{fx_table_get, fx_table_insert, fx_table_new};
use vstd::prelude::*;

verus! {

broadcast use {lemma_eval_extends, lemma_in_state_extends, lemma_in_part_extends};

/// The node manager: the node table, the hash-consing index over it and the operation cache.
/// It only grows; a pointer, once handed out, keeps its meaning.
pub struct PeabodyInner {
    nodes: Vec<BddNode>,
    existing: FxTable,
    ops_cache: FxTable,
}

impl PeabodyInner {
    pub closed spec fn nodes(&self) -> Seq<BddNode> {
        self.nodes@
    }

    pub closed spec fn index(&self) -> Map<TableKey, BddPointer> {
        self.existing@
    }

    pub closed spec fn cache(&self) -> Map<TableKey, BddPointer> {
        self.ops_cache@
    }

    /// The manager's invariant: an ordered, reduced table without duplicate nodes, an exact
    /// index over it, and a cache of correct results only.
    pub open spec fn wf(&self) -> bool {
        &&& table_ok(self.nodes())
        &&& index_ok(self.nodes(), self.index())
        &&& cache_ok(self.nodes(), self.cache())
    }

    pub open spec fn valid_ptr(&self, p: BddPointer) -> bool {
        valid(self.nodes(), p)
    }

    /// The value of the function rooted at `p` under `a`.
    pub open spec fn value(&self, p: BddPointer, a: Assignment) -> bool {
        eval(self.nodes(), p, a)
    }

    pub open spec fn var_at(&self, p: BddPointer) -> u16 {
        var_of(self.nodes(), p)
    }

    /// `self` is `prev` after growth: every node of `prev` is still in place, and every entry
    /// of `prev`'s operation cache is still there with the same result.
    pub open spec fn grows_from(&self, prev: PeabodyInner) -> bool {
        &&& extends(self.nodes(), prev.nodes())
        &&& forall|k: TableKey| #[trigger]
            prev.cache().contains_key(k) ==> self.cache().contains_key(k) && self.cache()[k]
                == prev.cache()[k]
    }

    pub(crate) fn var_of(&self, pointer: BddPointer) -> (r: u16)
        requires
            self.valid_ptr(pointer),
        ensures
            r == self.var_at(pointer),
    {
        self.nodes[pointer.0].var
    }

    pub(crate) fn low_of(&self, node: BddPointer) -> (r: BddPointer)
        requires
            self.valid_ptr(node),
        ensures
            r == self.nodes()[node.0 as int].low,
    {
        self.nodes[node.0].low
    }

    pub(crate) fn high_of(&self, node: BddPointer) -> (r: BddPointer)
        requires
            self.valid_ptr(node),
        ensures
            r == self.nodes()[node.0 as int].high,
    {
        self.nodes[node.0].high
    }

    /// The pointer to the node `(var, low, high)`: `low` itself when both branches agree, the
    /// node already in the table when there is one, else a new node appended to the table.
    pub fn new_node(&mut self, var: u16, low: BddPointer, high: BddPointer) -> (r: BddPointer)
        requires
            old(self).wf(),
            old(self).valid_ptr(low),
            old(self).valid_ptr(high),
            var < old(self).var_at(low),
            var < old(self).var_at(high),
        ensures
            final(self).wf(),
            final(self).grows_from(*old(self)),
            final(self).valid_ptr(r),
            forall|a: Assignment| #[trigger]
                final(self).value(r, a) == if a(var) {
                    final(self).value(high, a)
                } else {
                    final(self).value(low, a)
                },
            final(self).var_at(r) >= var,
            low == high ==> r == low,
            low != high ==> r.0 >= 2 && final(self).nodes()[r.0 as int] == (BddNode { var, high, low }),
            low != high ==> final(self).index().contains_key((var, low.0, high.0))
                && final(self).index()[(var, low.0, high.0)] == r,
            old(self).index().contains_key((var, low.0, high.0))
                ==> r == old(self).index()[(var, low.0, high.0)],
            low == high || old(self).index().contains_key((var, low.0, high.0))
                ==> final(self).nodes() == old(self).nodes(),
            final(self).nodes().len() <= old(self).nodes().len() + 1,
            final(self).cache() == old(self).cache(),
            forall|s: bool|
                state_is_spec(var, s) && state_to_spec(var, !s) < TERMINAL_VAR
                    && old(self).in_state_at(low, s) && old(self).in_state_at(high, s)
                    ==> #[trigger] final(self).in_state_at(r, s),
            forall|s: bool|
                state_is_spec(var, s) && in_part(old(self).nodes(), low, s) && in_part(
                    old(self).nodes(),
                    high,
                    s,
                ) ==> #[trigger] in_part(final(self).nodes(), r, s),
    {
        if low.0 == high.0 {
            proof {
                let k = (var, low.0, high.0);
                if self.index().contains_key(k) {
                    assert(node_ok(self.nodes(), self.index()[k].0 as int));
                }
            }
            return low;
        }
        let key: TableKey = (var, low.0, high.0);
        match fx_table_get(&self.existing, &key) {
            Some(res) => {
                proof {
                    assert(key_of(self.nodes()[res.0 as int]) == key);
                    assert forall|a: Assignment| #[trigger]
                        self.value(res, a) == if a(var) {
                            self.value(high, a)
                        } else {
                            self.value(low, a)
                        } by {
                        lemma_eval_node(self.nodes(), res, a);
                    }
                    assert(node_ok(self.nodes(), res.0 as int));
                    assert(self.nodes()[res.0 as int] == BddNode { var, high, low });
                    assert forall|s: bool|
                        state_is_spec(var, s) && state_to_spec(var, !s) < TERMINAL_VAR
                            && self.in_state_at(low, s) && self.in_state_at(high, s)
                            implies #[trigger] self.in_state_at(res, s) by {
                        assert(in_state(self.nodes(), res, s) == (state_is_spec(var, s)
                            && state_to_spec(var, !s) < TERMINAL_VAR && in_state(self.nodes(), low, s)
                            && in_state(self.nodes(), high, s)));
                    }
                    assert forall|s: bool|
                        state_is_spec(var, s) && in_part(self.nodes(), low, s) && in_part(
                            self.nodes(),
                            high,
                            s,
                        ) implies #[trigger] in_part(self.nodes(), res, s) by {
                        assert(in_part(self.nodes(), res, s) == (state_is_spec(var, s) && in_part(
                            self.nodes(),
                            low,
                            s,
                        ) && in_part(self.nodes(), high, s)));
                    }
                }
                res
            },
            None => {
                let ghost prev = *self;
                let node = BddNode { var, high, low };
                self.nodes.push(node);
                let point = BddPointer(self.nodes.len() - 1);
                fx_table_insert(&mut self.existing, key, point);
                proof {
                    let nodes = self.nodes();
                    assert(extends(nodes, prev.nodes()));
                    assert(node_ok(nodes, point.0 as int));
                    assert forall|i: int| 2 <= i < nodes.len() implies #[trigger]
                        node_ok(nodes, i) by {
                        if i < prev.nodes().len() {
                            assert(node_ok(prev.nodes(), i));
                        }
                    }
                    assert forall|i: int|
                        2 <= i < nodes.len() implies self.index().contains_key(
                        #[trigger] key_of(nodes[i]),
                    ) && self.index()[key_of(nodes[i])].0 == i by {
                        if i < prev.nodes().len() {
                            assert(prev.index().contains_key(key_of(prev.nodes()[i])));
                        }
                    }
                    assert forall|op: BddOps| #[trigger]
                        self.cache().contains_key(op.spec_key()) implies op_ok(
                        nodes,
                        op,
                        self.cache()[op.spec_key()],
                    ) by {
                        lemma_op_ok_extends(nodes, prev.nodes(), op, self.cache()[op.spec_key()]);
                    }
                    assert forall|a: Assignment| #[trigger]
                        self.value(point, a) == if a(var) {
                            self.value(high, a)
                        } else {
                            self.value(low, a)
                        } by {
                        lemma_eval_node(nodes, point, a);
                    }
                    assert forall|s: bool|
                        state_is_spec(var, s) && state_to_spec(var, !s) < TERMINAL_VAR
                            && prev.in_state_at(low, s) && prev.in_state_at(high, s)
                            implies #[trigger] self.in_state_at(point, s) by {
                        assert(in_state(nodes, point, s) == (state_is_spec(var, s)
                            && state_to_spec(var, !s) < TERMINAL_VAR && in_state(nodes, low, s)
                            && in_state(nodes, high, s)));
                    }
                    assert forall|s: bool|
                        state_is_spec(var, s) && in_part(prev.nodes(), low, s) && in_part(
                            prev.nodes(),
                            high,
                            s,
                        ) implies #[trigger] in_part(nodes, point, s) by {
                        assert(in_part(nodes, point, s) == (state_is_spec(var, s) && in_part(
                            nodes,
                            low,
                            s,
                        ) && in_part(nodes, high, s)));
                    }
                }
                point
            },
        }
    }

    pub open spec fn in_state_at(&self, p: BddPointer, next: bool) -> bool {
        in_state(self.nodes(), p, next)
    }
}

impl PeabodyInner {
    /// The cached result of `op`, if one was stored.
    pub fn ops_cache_get(&self, op: BddOps) -> (r: Option<BddPointer>)
        requires
            self.wf(),
        ensures
            r == (if self.cache().contains_key(op.spec_key()) {
                Some(self.cache()[op.spec_key()])
            } else {
                None::<BddPointer>
            }),
            r matches Some(v) ==> op_ok(self.nodes(), op, v),
    {
        fx_table_get(&self.ops_cache, &op.key())
    }

    /// Stores `bdd` as the result of `op`. A result stored before for the same descriptor is
    /// necessarily the same pointer.
    pub fn ops_cache_set(&mut self, op: BddOps, bdd: BddPointer)
        requires
            old(self).wf(),
            op_ok(old(self).nodes(), op, bdd),
        ensures
            final(self).wf(),
            final(self).nodes() == old(self).nodes(),
            final(self).index() == old(self).index(),
            final(self).cache() == old(self).cache().insert(op.spec_key(), bdd),
            old(self).cache().contains_key(op.spec_key()) ==> old(self).cache()[op.spec_key()]
                == bdd,
    {
        let ghost prev = *self;
        fx_table_insert(&mut self.ops_cache, op.key(), bdd);
        proof {
            if prev.cache().contains_key(op.spec_key()) {
                lemma_op_ok_unique(prev.nodes(), prev.index(), op, prev.cache()[op.spec_key()], bdd);
            }
            assert forall|o: BddOps| #[trigger]
                self.cache().contains_key(o.spec_key()) implies op_ok(
                self.nodes(),
                o,
                self.cache()[o.spec_key()],
            ) by {
                if o.spec_key() == op.spec_key() {
                    lemma_key_injective(o, op);
                }
            }
        }
    }
}

/// Two correct results of one operation are the same pointer.
pub proof fn lemma_op_ok_unique(
    nodes: Seq<BddNode>,
    index: Map<TableKey, BddPointer>,
    op: BddOps,
    r1: BddPointer,
    r2: BddPointer,
)
    requires
        table_ok(nodes),
        index_ok(nodes, index),
        op_ok(nodes, op, r1),
        op_ok(nodes, op, r2),
    ensures
        r1 == r2,
{
    assert forall|a: Assignment| eval(nodes, r1, a) == eval(nodes, r2, a) by {
        assert(eval(nodes, r1, a) == eval(nodes, r1, a));
        assert(eval(nodes, r2, a) == eval(nodes, r2, a));
    }
    lemma_canonical(nodes, index, r1, r2);
}

impl PeabodyInner {
    /// A manager that holds the two terminals and nothing else.
    pub fn new() -> (r: Self)
        ensures
            r.wf(),
            r.nodes() == seq![terminal_node(false), terminal_node(true)],
            r.index().dom() == Set::<TableKey>::empty(),
            r.cache().dom() == Set::<TableKey>::empty(),
    {
        let nodes = vec![BddNode::constant(false), BddNode::constant(true)];
        let existing = fx_table_new();
        let ops_cache = fx_table_new();
        let r = Self { nodes, existing, ops_cache };
        proof {
            assert(r.index() =~= Map::empty());
            assert(r.cache() =~= Map::empty());
        }
        r
    }

    /// The node stored at `p`.
    pub fn node(&self, p: BddPointer) -> (r: BddNode)
        requires
            self.valid_ptr(p),
        ensures
            r == self.nodes()[p.0 as int],
    {
        self.nodes[p.0]
    }

    /// The number of nodes in the table, the two terminals included.
    pub fn num_nodes(&self) -> (r: usize)
        ensures
            r == self.nodes().len(),
    {
        self.nodes.len()
    }

    /// The diagram of the single variable `var`: false when it is false, true when it is true.
    pub fn ith_var(&mut self, var: usize) -> (r: BddPointer)
        requires
            old(self).wf(),
            var < TERMINAL_VAR,
        ensures
            final(self).wf(),
            final(self).grows_from(*old(self)),
            final(self).valid_ptr(r),
            forall|a: Assignment| #[trigger] final(self).value(r, a) == a(var as u16),
            final(self).var_at(r) == var,
            final(self).nodes()[r.0 as int] == (BddNode {
                var: var as u16,
                high: BddPointer(1),
                low: BddPointer(0),
            }),
            final(self).nodes().len() <= old(self).nodes().len() + 1,
            final(self).index().contains_key((var as u16, 0, 1)),
            final(self).index()[(var as u16, 0, 1)] == r,
            old(self).index().contains_key((var as u16, 0, 1))
                ==> final(self).nodes() == old(self).nodes() && r == old(self).index()[(var as u16, 0, 1)],
            final(self).cache() == old(self).cache(),
    {
        let r = self.new_node(var as u16, BddPointer::constant(false), BddPointer::constant(true));
        proof {
            assert forall|a: Assignment| #[trigger] self.value(r, a) == a(var as u16) by {
                lemma_eval_node(self.nodes(), r, a);
            }
        }
        r
    }
}

} // verus!
pub mod laws;

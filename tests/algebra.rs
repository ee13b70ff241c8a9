use peabody::ops::op_function::{and, and_not, iff, imp, or, xor};
use peabody::{BddNode, BddPointer, PeabodyInner, TERMINAL_VAR};

#[test]
fn test_not() {
    let mut peabody = PeabodyInner::new();
    let a = peabody.ith_var(0);
    let na = peabody.not_rec(a);
    let nna = peabody.not_rec(na);
    assert_eq!(a, nna);
}

#[test]
fn test_and_or() {
    let mut peabody = PeabodyInner::new();
    let a = peabody.ith_var(0);
    let b = peabody.ith_var(1);
    let and = peabody.and(a, b);
    let na = peabody.not_rec(a);
    let nb = peabody.not_rec(b);
    let or = peabody.or(na, nb);
    let nor = peabody.not_rec(or);
    assert_eq!(and, nor);
}

#[test]
fn double_negation_of_a_compound_diagram() {
    let mut m = PeabodyInner::new();
    let a = m.ith_var(0);
    let b = m.ith_var(3);
    let c = m.ith_var(5);
    let ab = m.xor(a, b);
    let f = m.or(ab, c);
    let nf = m.not_rec(f);
    assert_ne!(nf, f);
    assert_eq!(m.not_rec(nf), f);
}

#[test]
fn de_morgan_on_three_variables() {
    let mut m = PeabodyInner::new();
    let a = m.ith_var(1);
    let b = m.ith_var(2);
    let c = m.ith_var(4);
    let bc = m.or(b, c);
    let conj = m.and(a, bc);
    let na = m.not_rec(a);
    let nbc = m.not_rec(bc);
    let disj = m.or(na, nbc);
    assert_eq!(conj, m.not_rec(disj));
}

#[test]
fn new_node_with_equal_branches_is_reduced() {
    let mut m = PeabodyInner::new();
    let a = m.ith_var(2);
    let before = m.num_nodes();
    assert_eq!(m.new_node(0, a, a), a);
    assert_eq!(m.new_node(1, BddPointer(1), BddPointer(1)), BddPointer(1));
    assert_eq!(m.num_nodes(), before);
}

#[test]
fn new_node_twice_gives_one_pointer() {
    let mut m = PeabodyInner::new();
    let a = m.ith_var(4);
    let p = m.new_node(1, BddPointer(0), a);
    let after_first = m.num_nodes();
    let q = m.new_node(1, BddPointer(0), a);
    assert_eq!(p, q);
    assert_eq!(m.num_nodes(), after_first);
    // The same function reached through the Apply engine is the same node too.
    let x1 = m.ith_var(1);
    let r = m.and(x1, a);
    assert_eq!(r, p);
}

#[test]
fn new_node_appends_exactly_one_node() {
    let mut m = PeabodyInner::new();
    assert_eq!(m.num_nodes(), 2);
    let p = m.new_node(7, BddPointer(1), BddPointer(0));
    assert_eq!(p, BddPointer(2));
    assert_eq!(m.num_nodes(), 3);
}

#[test]
fn terminals_are_absorbing() {
    let mut m = PeabodyInner::new();
    let a = m.ith_var(0);
    let b = m.ith_var(2);
    let x = m.xor(a, b);
    let before = m.num_nodes();
    assert_eq!(m.and(BddPointer(0), x), BddPointer(0));
    assert_eq!(m.and(x, BddPointer(0)), BddPointer(0));
    assert_eq!(m.or(BddPointer(1), x), BddPointer(1));
    assert_eq!(m.or(x, BddPointer(1)), BddPointer(1));
    assert_eq!(m.num_nodes(), before);
}

#[test]
fn identities_with_terminals() {
    let mut m = PeabodyInner::new();
    let a = m.ith_var(3);
    assert_eq!(m.and(BddPointer(1), a), a);
    assert_eq!(m.or(BddPointer(0), a), a);
    assert_eq!(m.xor(BddPointer(0), a), a);
    let na = m.not_rec(a);
    assert_eq!(m.xor(BddPointer(1), a), na);
    assert_eq!(m.xor(a, a), BddPointer(0));
    assert_eq!(m.or(a, na), BddPointer(1));
    assert_eq!(m.and(a, na), BddPointer(0));
    assert_eq!(m.not_rec(BddPointer(0)), BddPointer(1));
    assert_eq!(m.not_rec(BddPointer(1)), BddPointer(0));
}

#[test]
fn repeated_operations_reuse_the_cache() {
    let mut m = PeabodyInner::new();
    let a = m.ith_var(0);
    let b = m.ith_var(1);
    let c = m.ith_var(2);
    let ab = m.and(a, b);
    let f = m.or(ab, c);
    let g = m.xor(f, a);
    let size = m.num_nodes();
    assert_eq!(m.and(a, b), ab);
    assert_eq!(m.and(b, a), ab);
    assert_eq!(m.or(ab, c), f);
    assert_eq!(m.or(c, ab), f);
    assert_eq!(m.xor(f, a), g);
    assert_eq!(m.xor(a, f), g);
    assert_eq!(m.num_nodes(), size);
}

#[test]
fn interleaved_variable_introduction_is_canonical() {
    let mut m1 = PeabodyInner::new();
    let d1 = m1.ith_var(3);
    let b1 = m1.ith_var(1);
    let c1 = m1.ith_var(2);
    let a1 = m1.ith_var(0);
    let x = m1.and(d1, b1);
    let y = m1.and(c1, a1);
    let left = m1.or(x, y);
    let p = m1.or(a1, d1);
    let q = m1.and(y, p);
    let r = m1.or(x, q);
    assert_eq!(left, r);
    let s = m1.or(y, x);
    assert_eq!(left, s);
    // a & (b & c) built in another order.
    let bc = m1.and(b1, c1);
    let abc = m1.and(a1, bc);
    let ab = m1.and(a1, b1);
    let abc2 = m1.and(ab, c1);
    assert_eq!(abc, abc2);
    let mut m2 = PeabodyInner::new();
    let a2 = m2.ith_var(0);
    let b2 = m2.ith_var(1);
    let c2 = m2.ith_var(2);
    let d2 = m2.ith_var(3);
    let x2 = m2.and(b2, d2);
    let y2 = m2.and(a2, c2);
    let _ = m2.or(y2, x2);
    // Both managers hold the same number of distinct nodes for the same functions.
    let n1 = m1.num_nodes();
    let bc2 = m2.and(b2, c2);
    let _ = m2.and(a2, bc2);
    let ab2 = m2.and(a2, b2);
    let _ = m2.and(ab2, c2);
    let p2 = m2.or(a2, d2);
    let _ = m2.and(y2, p2);
    assert_eq!(m2.num_nodes(), n1);
}

#[test]
fn terminal_rules_of_and_or() {
    let (t, f, u) = (Some(true), Some(false), None);
    assert_eq!(and(t, t), t);
    assert_eq!(and(f, u), f);
    assert_eq!(and(u, f), f);
    assert_eq!(and(t, u), u);
    assert_eq!(and(u, u), u);
    assert_eq!(or(f, f), f);
    assert_eq!(or(t, u), t);
    assert_eq!(or(u, t), t);
    assert_eq!(or(f, u), u);
    assert_eq!(or(u, u), u);
}

#[test]
fn terminal_rules_of_imp_iff_xor_and_not() {
    let (t, f, u) = (Some(true), Some(false), None);
    assert_eq!(imp(t, f), f);
    assert_eq!(imp(f, u), t);
    assert_eq!(imp(u, t), t);
    assert_eq!(imp(t, t), t);
    assert_eq!(imp(t, u), u);
    assert_eq!(imp(u, f), u);
    assert_eq!(iff(t, t), t);
    assert_eq!(iff(t, f), f);
    assert_eq!(iff(f, f), t);
    assert_eq!(iff(u, t), u);
    assert_eq!(xor(t, f), t);
    assert_eq!(xor(t, t), f);
    assert_eq!(xor(f, u), u);
    assert_eq!(and_not(f, u), f);
    assert_eq!(and_not(u, t), f);
    assert_eq!(and_not(t, f), t);
    assert_eq!(and_not(t, u), u);
    assert_eq!(and_not(u, f), u);
}

#[test]
fn pointers_and_terminal_nodes() {
    assert_eq!(BddPointer::constant(false), BddPointer(0));
    assert_eq!(BddPointer::constant(true), BddPointer(1));
    assert_eq!(BddPointer::from_bool(true), BddPointer(1));
    assert!(BddPointer(1).is_constant(true));
    assert!(!BddPointer(1).is_constant(false));
    assert!(!BddPointer(5).is_constant(true));
    assert_eq!(BddPointer(0).as_bool(), Some(false));
    assert_eq!(BddPointer(1).as_bool(), Some(true));
    assert_eq!(BddPointer(2).as_bool(), None);
    let node = BddNode::constant(true);
    assert_eq!(node.var, TERMINAL_VAR);
    assert_eq!(node.low, BddPointer(1));
    assert_eq!(node.high, BddPointer(1));
    assert_eq!(BddNode::constant(false).low, BddPointer(0));
}

#[test]
fn ith_var_shares_its_node() {
    let mut m = PeabodyInner::new();
    let a = m.ith_var(9);
    assert_eq!(a, BddPointer(2));
    assert_eq!(m.ith_var(9), a);
    assert_eq!(m.num_nodes(), 3);
}

#[test]
fn larger_variable_first_gives_five_nodes() {
    let mut m = PeabodyInner::new();
    let b = m.ith_var(1);
    let a = m.ith_var(0);
    let r = m.and(a, b);
    let node = m.node(r);
    assert_eq!(node.var, 0);
    assert_eq!(node.low, BddPointer(0));
    assert_eq!(node.high, b);
    assert_eq!(m.num_nodes(), 5);
}

#[test]
fn complementing_a_complement_adds_no_node() {
    let mut m = PeabodyInner::new();
    let a = m.ith_var(0);
    let b = m.ith_var(2);
    let f = m.or(a, b);
    let nf = m.not_rec(f);
    let size = m.num_nodes();
    assert_eq!(m.not_rec(nf), f);
    assert_eq!(m.num_nodes(), size);
}

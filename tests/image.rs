use peabody::ops::image::{state_is, state_to};
use peabody::{BddPointer, PeabodyInner};

#[test]
fn test_and_exist() {
    let mut peabody = PeabodyInner::new();
    let a = peabody.ith_var(0);
    let b = peabody.ith_var(1);
    let and_exist_a = peabody.and_exist(a, b, &[0]);
    assert_eq!(and_exist_a, b);
    let and_exist_b = peabody.and_exist(a, b, &[1]);
    assert_eq!(and_exist_b, a);
}

#[test]
fn test_state() {
    let mut peabody = PeabodyInner::new();
    let a = peabody.ith_var(0);
    let ap = peabody.ith_var(1);
    let b = peabody.ith_var(2);
    let bp = peabody.ith_var(3);
    let state = peabody.and(a, b);
    let next_state = peabody.and(ap, bp);
    assert_eq!(peabody.next_state(state), next_state);
    assert_eq!(state, peabody.original_state(next_state));
}

#[test]
fn test_image() {
    let mut peabody = PeabodyInner::new();
    let a = peabody.ith_var(0);
    let ap = peabody.ith_var(1);
    let b = peabody.ith_var(2);
    let bp = peabody.ith_var(3);
    let ab = peabody.and(a, b);
    let nap = peabody.not_rec(ap);
    let nbp = peabody.not_rec(bp);
    let t1 = peabody.and(ab, nap);
    let trans = peabody.and(t1, nbp);
    let state = peabody.and(a, b);
    let na = peabody.not_rec(a);
    let nb = peabody.not_rec(b);
    let next_state = peabody.and(na, nb);
    assert_eq!(peabody.post_image(state, trans), next_state);
    assert_eq!(state, peabody.pre_image(next_state, trans));
}

#[test]
fn and_exist_of_everything_and_of_nothing() {
    let mut m = PeabodyInner::new();
    let a = m.ith_var(0);
    let b = m.ith_var(1);
    let nb = m.not_rec(b);
    let ab = m.and(a, b);
    assert_eq!(m.and_exist(a, b, &[]), ab);
    assert_eq!(m.and_exist(a, b, &[0, 1]), BddPointer(1));
    assert_eq!(m.and_exist(b, nb, &[0, 1]), BddPointer(0));
    assert_eq!(m.and_exist(a, BddPointer(0), &[0]), BddPointer(0));
    assert_eq!(m.and_exist(BddPointer(1), BddPointer(1), &[5]), BddPointer(1));
    // A variable listed twice, and one that the diagrams do not test.
    assert_eq!(m.and_exist(a, b, &[1, 7, 1]), a);
}

#[test]
fn and_exist_with_a_shared_variable() {
    let mut m = PeabodyInner::new();
    let a = m.ith_var(0);
    let b = m.ith_var(1);
    let c = m.ith_var(2);
    let ab = m.or(a, b);
    let nb = m.not_rec(b);
    let bc = m.and(nb, c);
    // exists b. (a | b) & (!b & c) == a & c
    let r = m.and_exist(ab, bc, &[1]);
    let ac = m.and(a, c);
    assert_eq!(r, ac);
}

#[test]
fn rename_round_trip() {
    let mut m = PeabodyInner::new();
    let a = m.ith_var(0);
    let b = m.ith_var(2);
    let c = m.ith_var(6);
    let ab = m.xor(a, b);
    let d = m.or(ab, c);
    assert!(m.is_in_state(d, false));
    assert!(!m.is_in_state(d, true));
    let nd = m.next_state(d);
    assert_ne!(nd, d);
    assert!(m.is_in_state(nd, true));
    assert_eq!(m.original_state(nd), d);
    assert_eq!(m.next_state(BddPointer(1)), BddPointer(1));
    assert_eq!(m.original_state(BddPointer(0)), BddPointer(0));
}

#[test]
fn mixed_states_are_detected() {
    let mut m = PeabodyInner::new();
    let a = m.ith_var(0);
    let bp = m.ith_var(3);
    let mixed = m.and(a, bp);
    assert!(!m.is_in_state(mixed, false));
    assert!(!m.is_in_state(mixed, true));
    assert!(m.is_in_state(BddPointer(0), true));
    let top = m.ith_var(65534);
    assert!(!m.is_in_state(top, false));
}

#[test]
fn post_image_of_a_counter_bit() {
    // One bit that flips: a' == !a.
    let mut m = PeabodyInner::new();
    let a = m.ith_var(0);
    let ap = m.ith_var(1);
    let trans = m.xor(a, ap);
    let na = m.not_rec(a);
    assert_eq!(m.post_image(a, trans), na);
    assert_eq!(m.post_image(na, trans), a);
    assert_eq!(m.pre_image(a, trans), na);
    assert_eq!(m.post_image(BddPointer(1), trans), BddPointer(1));
    assert_eq!(m.post_image(BddPointer(0), trans), BddPointer(0));
}

#[test]
fn state_helpers() {
    assert!(state_is(0, false));
    assert!(!state_is(0, true));
    assert!(state_is(3, true));
    assert!(!state_is(3, false));
    assert_eq!(state_to(4, true), 5);
    assert_eq!(state_to(5, true), 5);
    assert_eq!(state_to(5, false), 4);
    assert_eq!(state_to(4, false), 4);
    assert_eq!(state_to(0, true), 1);
}

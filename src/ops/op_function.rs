//! Terminal rules of the binary operations, on partly known operands: `None` stands for an
//! operand that is not a constant.
use vstd::prelude::*;

verus! {

/// `x` is a possible value of the partly known Boolean `o`.
pub open spec fn fits(o: Option<bool>, x: bool) -> bool {
    match o {
        Some(b) => b == x,
        None => true,
    }
}

/// The value of `f` on `l` and `r` when it is the same whatever the unknown operands are,
/// `None` when it is not.
pub open spec fn forced(f: spec_fn(bool, bool) -> bool, l: Option<bool>, r: Option<bool>) -> Option<
    bool,
> {
    if forall|x: bool, y: bool| fits(l, x) && fits(r, y) ==> #[trigger] f(x, y) {
        Some(true)
    } else if forall|x: bool, y: bool| fits(l, x) && fits(r, y) ==> !#[trigger] f(x, y) {
        Some(false)
    } else {
        None
    }
}

/// `f` yields `v` at each of the four points that fit `l` and `r`.
pub open spec fn yields_on_fits(
    f: spec_fn(bool, bool) -> bool,
    l: Option<bool>,
    r: Option<bool>,
    v: bool,
) -> bool {
    &&& fits(l, false) && fits(r, false) ==> f(false, false) == v
    &&& fits(l, false) && fits(r, true) ==> f(false, true) == v
    &&& fits(l, true) && fits(r, false) ==> f(true, false) == v
    &&& fits(l, true) && fits(r, true) ==> f(true, true) == v
}

/// `forced` checked point by point.
pub proof fn lemma_forced(f: spec_fn(bool, bool) -> bool, l: Option<bool>, r: Option<bool>)
    ensures
        forced(f, l, r) == if yields_on_fits(f, l, r, true) {
            Some(true)
        } else if yields_on_fits(f, l, r, false) {
            Some(false)
        } else {
            None
        },
{
    assert(f(false, false) == f(false, false) && f(false, true) == f(false, true));
    assert(f(true, false) == f(true, false) && f(true, true) == f(true, true));
    if yields_on_fits(f, l, r, true) {
        assert forall|x: bool, y: bool| fits(l, x) && fits(r, y) implies #[trigger] f(x, y) by {
            if x {
                if y {
                } else {
                }
            } else {
                if y {
                } else {
                }
            }
        }
    } else if yields_on_fits(f, l, r, false) {
        assert forall|x: bool, y: bool| fits(l, x) && fits(r, y) implies !#[trigger] f(x, y) by {
            if x {
                if y {
                } else {
                }
            } else {
                if y {
                } else {
                }
            }
        }
    }
}

pub open spec fn and_fn() -> spec_fn(bool, bool) -> bool {
    |x: bool, y: bool| x && y
}

pub open spec fn or_fn() -> spec_fn(bool, bool) -> bool {
    |x: bool, y: bool| x || y
}

pub open spec fn imp_fn() -> spec_fn(bool, bool) -> bool {
    |x: bool, y: bool| !x || y
}

pub open spec fn iff_fn() -> spec_fn(bool, bool) -> bool {
    |x: bool, y: bool| x == y
}

pub open spec fn xor_fn() -> spec_fn(bool, bool) -> bool {
    |x: bool, y: bool| x != y
}

pub open spec fn and_not_fn() -> spec_fn(bool, bool) -> bool {
    |x: bool, y: bool| x && !y
}

pub fn and(l: Option<bool>, r: Option<bool>) -> (res: Option<bool>)
    ensures
        res == forced(and_fn(), l, r),
{
    let res = match (l, r) {
        (Some(true), Some(true)) => Some(true),
        (Some(false), _) => Some(false),
        (_, Some(false)) => Some(false),
        _ => None,
    };
    proof {
        lemma_forced(and_fn(), l, r);
    }
    res
}

pub fn or(l: Option<bool>, r: Option<bool>) -> (res: Option<bool>)
    ensures
        res == forced(or_fn(), l, r),
{
    let res = match (l, r) {
        (Some(false), Some(false)) => Some(false),
        (Some(true), _) => Some(true),
        (_, Some(true)) => Some(true),
        _ => None,
    };
    proof {
        lemma_forced(or_fn(), l, r);
    }
    res
}

pub fn imp(l: Option<bool>, r: Option<bool>) -> (res: Option<bool>)
    ensures
        res == forced(imp_fn(), l, r),
{
    let res = match (l, r) {
        (Some(true), Some(false)) => Some(false),
        (Some(false), _) => Some(true),
        (_, Some(true)) => Some(true),
        _ => None,
    };
    proof {
        lemma_forced(imp_fn(), l, r);
    }
    res
}

pub fn iff(l: Option<bool>, r: Option<bool>) -> (res: Option<bool>)
    ensures
        res == forced(iff_fn(), l, r),
{
    let res = match (l, r) {
        (Some(l), Some(r)) => Some(l == r),
        _ => None,
    };
    proof {
        lemma_forced(iff_fn(), l, r);
    }
    res
}

pub fn xor(l: Option<bool>, r: Option<bool>) -> (res: Option<bool>)
    ensures
        res == forced(xor_fn(), l, r),
{
    let res = match (l, r) {
        (Some(l), Some(r)) => Some(l ^ r),
        _ => None,
    };
    proof {
        lemma_forced(xor_fn(), l, r);
    }
    res
}

pub fn and_not(l: Option<bool>, r: Option<bool>) -> (res: Option<bool>)
    ensures
        res == forced(and_not_fn(), l, r),
{
    let res = match (l, r) {
        (Some(false), _) => Some(false),
        (_, Some(true)) => Some(false),
        (Some(true), Some(false)) => Some(true),
        _ => None,
    };
    proof {
        lemma_forced(and_not_fn(), l, r);
    }
    res
}

} // verus!

use vstd::prelude::*;

verus! {

/// Variable level carried by the two terminal nodes; it lies above every decision variable.
pub const TERMINAL_VAR: u16 = 0xffff;

/// Index of a node in a manager's node table: `0` is the constant false, `1` the constant true,
/// every other index a decision node.
#[derive(Clone, Copy, Debug, Eq, Hash, PartialEq, PartialOrd, Ord, Structural)]
pub struct BddPointer(pub usize);

/// The constant that a pointer denotes, if it is one of the two terminals.
pub open spec fn terminal_value(p: BddPointer) -> Option<bool> {
    if p.0 == 0 {
        Some(false)
    } else if p.0 == 1 {
        Some(true)
    } else {
        None
    }
}

/// The index of the terminal for `val`.
pub open spec fn terminal_index(val: bool) -> usize {
    if val {
        1
    } else {
        0
    }
}

impl BddPointer {
    pub fn constant(val: bool) -> (r: Self)
        ensures
            r.0 == terminal_index(val),
    {
        if val {
            BddPointer(1)
        } else {
            BddPointer(0)
        }
    }

    pub fn is_constant(&self, val: bool) -> (r: bool)
        ensures
            r == (self.0 == terminal_index(val)),
    {
        self.0 == Self::constant(val).0
    }

    pub fn as_bool(&self) -> (r: Option<bool>)
        ensures
            r == terminal_value(*self),
    {
        match self.0 {
            0 => Some(false),
            1 => Some(true),
            _ => None,
        }
    }

    pub fn from_bool(val: bool) -> (r: Self)
        ensures
            r.0 == terminal_index(val),
            terminal_value(r) == Some(val),
    {
        Self::constant(val)
    }
}

/// A decision node: when `var` is false the function continues at `low`, when true at `high`.
#[derive(Clone, Copy, Debug, Eq, Hash, PartialEq, Structural)]
pub struct BddNode {
    pub var: u16,
    pub high: BddPointer,
    pub low: BddPointer,
}

/// The stored form of the terminal for `val`: both branches lead back to itself.
pub open spec fn terminal_node(val: bool) -> BddNode {
    BddNode {
        var: TERMINAL_VAR,
        high: BddPointer(terminal_index(val)),
        low: BddPointer(terminal_index(val)),
    }
}

impl BddNode {
    pub fn constant(val: bool) -> (r: Self)
        ensures
            r == terminal_node(val),
    {
        Self { var: TERMINAL_VAR, low: BddPointer::constant(val), high: BddPointer::constant(val) }
    }
}

} // verus!

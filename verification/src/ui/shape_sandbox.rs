use vstd::prelude::*;

verus! {

/// A set operation combining two sandbox shapes.
#[derive(Clone, Copy, Debug, PartialEq, Eq, Structural)]
pub enum SetOp {
    Union,
    Intersect,
    Subtract,
}

impl SetOp {
    /// Symbol and name, as shown in the operation picker.
    pub fn label(self) -> (s: &'static str)
        ensures
            s@ == (match self {
                SetOp::Union => "∪ 并集"@,
                SetOp::Intersect => "∩ 交集"@,
                SetOp::Subtract => "− 差集"@,
            }),
    {
        match self {
            SetOp::Union => "∪ 并集",
            SetOp::Intersect => "∩ 交集",
            SetOp::Subtract => "− 差集",
        }
    }

    /// The operation's symbol.
    pub fn symbol(self) -> (s: &'static str)
        ensures
            s@ == (match self {
                SetOp::Union => "∪"@,
                SetOp::Intersect => "∩"@,
                SetOp::Subtract => "−"@,
            }),
    {
        match self {
            SetOp::Union => "∪",
            SetOp::Intersect => "∩",
            SetOp::Subtract => "−",
        }
    }

    /// The combinator method that performs the operation in code.
    pub fn code(self) -> (s: &'static str)
        ensures
            s@ == (match self {
                SetOp::Union => ".union"@,
                SetOp::Intersect => ".intersect"@,
                SetOp::Subtract => ".subtract"@,
            }),
    {
        match self {
            SetOp::Union => ".union",
            SetOp::Intersect => ".intersect",
            SetOp::Subtract => ".subtract",
        }
    }
}

/// A combination `shapes[left] op shapes[right]` in the sandbox.
#[derive(Clone, Copy, Debug)]
pub struct CombineNode {
    /// Index of the left operand in the shape list.
    pub left: usize,
    pub op: SetOp,
    /// Index of the right operand in the shape list.
    pub right: usize,
    /// Preview colour `[r, g, b, a]`.
    pub color: [u8; 4],
    pub visible: bool,
}

} // verus!

use vstd::prelude::*;

verus! {

/// One stack slot: an anonymous operand when `identifier` is `None`,
/// or a named variable binding when it is `Some`.
#[derive(Clone, Copy, Debug, PartialEq, Eq, Structural)]
pub struct Variable {
    pub identifier: Option<char>,
    pub value: i32,
}

} // verus!

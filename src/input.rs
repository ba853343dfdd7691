use vstd::prelude::*;

verus! {

/// The ways a formula can be entered.
#[derive(Debug, Clone, Copy, PartialEq, Eq, PartialOrd, Ord, Default, Structural)]
pub enum InputKind {
    #[default]
    Text,
    Graph,
}

} // verus!

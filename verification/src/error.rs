use vstd::prelude::*;

verus! {

/// Errors that the tree's fallible operations can report.
#[derive(Debug, Clone, Copy, PartialEq, Eq)]
pub enum SGErr {
    /// `set_rebal_param` rejected an out-of-range balance factor.
    RebalanceFactorOutOfRange,
    /// A capacity-checked operation would overflow the fixed capacity.
    StackCapacityExceeded,
}

impl SGErr {
    /// A short description of the error, for callers that report it.
    pub fn as_str(&self) -> (r: &'static str)
        ensures
            r@ =~= (match self {
                SGErr::RebalanceFactorOutOfRange => "rebalance factor out of range, valid is: 1/2 <= alpha < 1"@,
                SGErr::StackCapacityExceeded => "stack capacity exceeded"@,
            }),
    {
        match self {
            SGErr::RebalanceFactorOutOfRange => "rebalance factor out of range, valid is: 1/2 <= alpha < 1",
            SGErr::StackCapacityExceeded => "stack capacity exceeded",
        }
    }
}

} // verus!

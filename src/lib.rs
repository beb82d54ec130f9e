use vstd::prelude::*;

pub mod extract;
pub mod matcher;
pub mod stream;

verus! {

/// Which of the two markers appear in the extracted output.
#[derive(Clone, Copy, Debug, PartialEq, Eq, Structural)]
pub enum RangeType {
    /// Both markers are written.
    InclIncl,
    /// The start marker is written, the end marker is not.
    InclExcl,
    /// The end marker is written, the start marker is not.
    ExclIncl,
    /// Only what lies between the markers is written.
    ExclExcl,
}

impl RangeType {
    pub open spec fn spec_includes_start(self) -> bool {
        self is InclIncl || self is InclExcl
    }

    pub open spec fn spec_includes_end(self) -> bool {
        self is InclIncl || self is ExclIncl
    }

    pub fn includes_end(&self) -> (r: bool)
        ensures
            r == self.spec_includes_end(),
    {
        match self {
            RangeType::InclIncl | RangeType::ExclIncl => true,
            _ => false,
        }
    }

    pub fn includes_start(&self) -> (r: bool)
        ensures
            r == self.spec_includes_start(),
    {
        match self {
            RangeType::InclIncl | RangeType::InclExcl => true,
            _ => false,
        }
    }
}

} // verus!

use vstd::prelude::*;

verus! {

/// The reason a line of the dictionary text was rejected by the parser.
#[derive(Debug)]
pub enum BrokenReason {
    /// The key (left string) contains the chain separator `-->`.
    BadLeftString,
    /// The line has no `=`, so there is no value section.
    NoRightString,
    /// The value section is malformed: a second `=` was present, or a
    /// chain element is empty after trimming.
    BadRightString { right_string: String },
    /// A key case-insensitively equal to this line's key is already stored;
    /// the stored key's original spelling is carried for diagnostics.
    Duplicated { another_left_string: String },
}

/// Ghost model of `BrokenReason`: the carried strings as character sequences.
pub enum ReasonModel {
    BadLeft,
    NoRight,
    BadRight { right_string: Seq<char> },
    Duplicated { another_left_string: Seq<char> },
}

impl View for BrokenReason {
    type V = ReasonModel;

    open spec fn view(&self) -> ReasonModel {
        match self {
            BrokenReason::BadLeftString => ReasonModel::BadLeft,
            BrokenReason::NoRightString => ReasonModel::NoRight,
            BrokenReason::BadRightString { right_string } => ReasonModel::BadRight {
                right_string: right_string@,
            },
            BrokenReason::Duplicated { another_left_string } => ReasonModel::Duplicated {
                another_left_string: another_left_string@,
            },
        }
    }
}

/// Error returned when loading dictionary text fails.
///
/// `line` is the 1-based line number of the offending line, counting only
/// lines that parse into an entry; `left_string` is the (partially parsed)
/// key of that line.
#[derive(Debug)]
pub enum ReadError {
    Broken { line: usize, left_string: String, reason: BrokenReason },
}

/// Error returned when a mutation is rejected.
#[derive(Debug)]
pub enum WriteError {
    /// The key contains `-->` or `=`.
    BadLeftString,
    /// The value contains `-->` or `=`, or is empty after trimming.
    BadRightString,
    /// The key already exists and its current value equals the new value.
    Duplicated,
    /// The key equals the value (exact comparison after trimming).
    Same,
}

} // verus!

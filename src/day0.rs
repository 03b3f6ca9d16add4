//! The empty day: it keeps its input lines and answers with fixed texts.
use vstd::prelude::*;
use vstd::string::StringSliceAdditionalSpecFns;
use crate::text::{lines, pieces, split_lines};

verus! {

/// The lines of an input, kept as they are.
pub struct Day0 {
    pub data: Vec<Vec<u8>>,
}

impl Day0 {
    /// Keeps the lines of the input.
    pub fn make_day(input: &str) -> (r: Day0)
        ensures
            pieces(r.data@) == lines(input.spec_bytes()),
    {
        Day0 { data: split_lines(input.as_bytes()) }
    }

    /// The fixed first answer, `sol1`.
    pub fn solution1(&self) -> (r: String)
        ensures
            r@ == seq!['s', 'o', 'l', '1'],
    {
        let r = "sol1".to_owned();
        proof {
            reveal_strlit("sol1");
        }
        r
    }

    /// The fixed second answer, `sol2`.
    pub fn solution2(&self) -> (r: String)
        ensures
            r@ == seq!['s', 'o', 'l', '2'],
    {
        let r = "sol2".to_owned();
        proof {
            reveal_strlit("sol2");
        }
        r
    }
}

} // verus!

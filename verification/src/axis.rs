//! The axis along which a group splits its area among its windows.
use vstd::prelude::*;
use crate::text::{chars_of, eq_chars, lit, push_char, string_from, to_upper, upper};

verus! {

/// The split axis of a group.
#[derive(Clone, Copy, PartialEq, Eq, Structural, Debug)]
pub enum Axis {
    HORIZONTAL,
    VERTICAL,
}

/// The axis that a (case-insensitive) name denotes.
pub open spec fn axis_named(s: Seq<char>) -> Option<Axis> {
    if upper(s) == "HORIZONTAL"@ {
        Some(Axis::HORIZONTAL)
    } else if upper(s) == "VERTICAL"@ {
        Some(Axis::VERTICAL)
    } else {
        None
    }
}

impl Axis {
    /// The lower-case name of the axis, as it is displayed.
    pub open spec fn name(self) -> Seq<char> {
        match self {
            Axis::HORIZONTAL => "horizontal"@,
            Axis::VERTICAL => "vertical"@,
        }
    }

    /// Parses an axis name, ignoring ASCII case.
    pub fn from_str(input: &str) -> (r: Result<Axis, ()>)
        ensures
            r == (match axis_named(input@) {
                Some(a) => Ok(a),
                None => Err(()),
            }),
    {
        let up = to_upper(&chars_of(input));
        if eq_chars(&up, &lit("HORIZONTAL")) {
            Ok(Axis::HORIZONTAL)
        } else if eq_chars(&up, &lit("VERTICAL")) {
            Ok(Axis::VERTICAL)
        } else {
            Err(())
        }
    }

    /// The displayed name of the axis.
    pub fn to_string(&self) -> (r: String)
        ensures
            r@ == self.name(),
    {
        match self {
            Axis::HORIZONTAL => string_from(&lit("horizontal")),
            Axis::VERTICAL => string_from(&lit("vertical")),
        }
    }
}

/// Parsing the displayed name of an axis gives that axis back.
pub proof fn lemma_axis_name_round_trip(a: Axis)
    ensures
        axis_named(a.name()) == Some(a),
{
    reveal_strlit("horizontal");
    reveal_strlit("vertical");
    reveal_strlit("HORIZONTAL");
    reveal_strlit("VERTICAL");
    assert(upper("horizontal"@) =~= "HORIZONTAL"@);
    assert(upper("vertical"@) =~= "VERTICAL"@);
}

} // verus!

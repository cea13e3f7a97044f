use vstd::prelude::*;
use crate::basic::{round_points_to_even, rounded_outline, RoundedOutline};
use crate::outline::{parsed_outline, written_outline, OutlineError};

verus! {

/// Executes the `round-to-even` command on the text of one outline file:
/// rounds the coordinates of its points and writes the outline again.
pub fn execute(text: &str) -> (r: Result<RoundedOutline, OutlineError>)
    ensures
        match parsed_outline(text@) {
            None => r matches Err(OutlineError::Parse(_)),
            Some(tree) => match written_outline(rounded_outline(tree)) {
                None => r matches Err(OutlineError::Write(_)),
                Some(written) => {
                    &&& r matches Ok(rounded)
                    &&& rounded.text@ == written
                    &&& rounded.all_even
                },
            },
        },
{
    round_points_to_even(text)
}

} // verus!

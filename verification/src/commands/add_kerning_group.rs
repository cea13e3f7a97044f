use vstd::prelude::*;
use crate::kerning::{add_kerning_group, added_group, groups_model, Groups, KerningError};

verus! {

/// Executes the `add-kerning-group` command on the groups of a font.
pub fn execute(groups: &mut Groups, name: &str, side: &str, members: &[String]) -> (r: Result<(), KerningError>)
    requires
        old(groups).wf(),
    ensures
        final(groups).wf(),
        match added_group(groups_model(*old(groups)), name@, side@, members.deep_view()) {
            Ok(after) => r is Ok && groups_model(*final(groups)) == after,
            Err(failure) => r matches Err(e) && e@ == failure && *final(groups) == *old(groups),
        },
{
    add_kerning_group(groups, name, side, members)
}

} // verus!

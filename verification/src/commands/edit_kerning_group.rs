use vstd::prelude::*;
use crate::kerning::{edit_kerning_group, edited_group, groups_model, Groups, KerningError};

verus! {

/// Executes the `edit-kerning-group` command on the groups of a font.
pub fn execute(groups: &mut Groups, name: &str, side: &str, members: &[String], append: bool) -> (r: Result<
    (),
    KerningError,
>)
    requires
        old(groups).wf(),
    ensures
        final(groups).wf(),
        match edited_group(groups_model(*old(groups)), name@, side@, members.deep_view(), append) {
            Ok(after) => r is Ok && groups_model(*final(groups)) == after,
            Err(failure) => r matches Err(e) && e@ == failure && *final(groups) == *old(groups),
        },
{
    edit_kerning_group(groups, name, side, members, append)
}

} // verus!

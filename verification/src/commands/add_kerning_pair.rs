use vstd::prelude::*;
use crate::kerning::{add_kerning_pair, added_pair, kerning_model, kerning_wf, Groups, Kerning, KerningError};

verus! {

/// Executes the `add-kerning-pair` command on the kerning of a font, given
/// its groups.
pub fn execute<V>(groups: &Groups, kerning: &mut Kerning<V>, first: &str, second: &str, value: V) -> (r: Result<
    (),
    KerningError,
>)
    requires
        groups.wf(),
        kerning_wf(*old(kerning)),
    ensures
        kerning_wf(*final(kerning)),
        match added_pair(groups@.dom(), kerning_model(*old(kerning)), first@, second@, value) {
            Ok(after) => r is Ok && kerning_model(*final(kerning)) == after,
            Err(failure) => r matches Err(e) && e@ == failure && *final(kerning) == *old(kerning),
        },
{
    add_kerning_pair(groups, kerning, first, second, value)
}

} // verus!

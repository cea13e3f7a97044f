use vstd::prelude::*;
use crate::dictionary::arrangement;
use crate::kerning::{display_kerning, pairs_among, KerningReport};
use crate::property_list::{map_of_entries, parsed_entries, PlistError};

verus! {

/// Executes the `show-kerning` command on the text of the kerning file, or
/// on `None` where the font has no such file.
pub fn execute(text: Option<&str>) -> (r: Result<KerningReport, PlistError>)
    ensures
        match text {
            None => r matches Ok(KerningReport::NoFile),
            Some(t) => match parsed_entries(t@) {
                None => r is Err,
                Some(entries) => r matches Ok(KerningReport::Listing(pairs)) && pairs.deep_view()
                    == pairs_among(arrangement(map_of_entries(entries))),
            },
        },
{
    display_kerning(text)
}

} // verus!

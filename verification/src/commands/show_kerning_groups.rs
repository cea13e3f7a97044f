use vstd::prelude::*;
use crate::dictionary::arrangement;
use crate::kerning::{
    display_kerning_groups, groups_with_prefix, GroupsReport, FIRST_GROUP_PREFIX, SECOND_GROUP_PREFIX,
};
use crate::property_list::{map_of_entries, parsed_entries, PlistError};

verus! {

/// Executes the `show-kerning-groups` command on the text of the groups
/// file, or on `None` where the font has no such file.
pub fn execute(text: Option<&str>) -> (r: Result<GroupsReport, PlistError>)
    ensures
        match text {
            None => r matches Ok(GroupsReport::NoFile),
            Some(t) => match parsed_entries(t@) {
                None => r is Err,
                Some(entries) => {
                    &&& r matches Ok(GroupsReport::Listing(listing))
                    &&& listing.left.deep_view() == groups_with_prefix(
                        arrangement(map_of_entries(entries)),
                        FIRST_GROUP_PREFIX@,
                    )
                    &&& listing.right.deep_view() == groups_with_prefix(
                        arrangement(map_of_entries(entries)),
                        SECOND_GROUP_PREFIX@,
                    )
                },
            },
        },
{
    display_kerning_groups(text)
}

} // verus!

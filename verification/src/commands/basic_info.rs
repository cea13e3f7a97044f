use vstd::prelude::*;
use crate::basic::{display_basic_info, shown_text, BasicInfo, FontFacts};

verus! {

/// Executes the `basic-info` command: summarises the font.
pub fn execute(font: &FontFacts) -> (info: BasicInfo)
    ensures
        info.family_name@ == shown_text(font.family_name),
        info.style_name@ == shown_text(font.style_name),
        info.version_major == match font.version_major {
            Some(major) => major,
            None => 0,
        },
        info.version_minor == match font.version_minor {
            Some(minor) => minor,
            None => 0,
        },
        info.glyph_count == match font.first_layer_glyphs {
            Some(count) => count,
            None => 0,
        },
{
    display_basic_info(font)
}

} // verus!

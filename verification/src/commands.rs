//! The commands of the tool, one module each.

pub mod add_kerning_group;
pub mod add_kerning_pair;
pub mod basic_info;
pub mod edit_kerning_group;
pub mod round_to_even;
pub mod show_kerning;
pub mod show_kerning_groups;

pub use add_kerning_group::execute as execute_add_kerning_group;
pub use add_kerning_pair::execute as execute_add_kerning_pair;
pub use basic_info::execute as execute_basic_info;
pub use edit_kerning_group::execute as execute_edit_kerning_group;
pub use round_to_even::execute as execute_round_to_even;
pub use show_kerning::execute as execute_show_kerning;
pub use show_kerning_groups::execute as execute_show_kerning_groups;

//! Bulk-rename and bulk-delete planning for file trees.
//!
//! The user edits a plain-text listing of paths; the library diffs the edited
//! listing against the original one position by position, cascades deletions
//! and renames through dependent entries, synthesizes the directories that the
//! plan newly requires, and converts the result into an ordered sequence of
//! filesystem actions that an unverified shell applies transactionally.

pub mod diff;
pub mod live;
pub mod normalize;
pub mod paths;
pub mod plan;
pub mod rules;
pub mod synth;

pub use diff::build_rules;
pub use live::apply_rules_to_list;
pub use live::LiveNormalizer;
pub use normalize::normalize_rules;
pub use plan::create_edit_rules;
pub use plan::filter_full_rules;
pub use rules::EditRule;
pub use rules::FullRule;
pub use rules::Rule;
pub use synth::add_missing_directories;

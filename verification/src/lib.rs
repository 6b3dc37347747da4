//! Backend logic of the Surf FED browser: the ad-block rule engine, the
//! extension registry and its persisted state, and the pure parts of the
//! built-in extensions' commands.

mod blocking;
mod commands;
mod extensions;
mod fedgram;
mod helpers;
mod manifest;
mod text;

use vstd::prelude::*;

pub use blocking::{
    AdBlockState, BlockRule, RulesFile, clean_filter, default_rules, extract_hosts, push_rule_hosts,
    rules_or_default, strip_filter_anchors,
};
pub use commands::{
    AddResult, PageInfo, WindowResize, add_result, darkreader_get_css, maximize_action,
    page_info_get,
};
pub use extensions::{
    ExtensionInfo, ExtensionRegistry, Manifest, PersistedState, RegistryEntry, ToggleState,
    guess_kind, info_from_manifest, init_registry, kind_from_lowercase, list_info, remove_extension,
    set_enabled, sort_by_key,
};
pub use fedgram::{
    FedGramResult, ImgAttributes, InstagramImage, check_post_url, collect_images,
    download_file_name, http_status_failure, images_from_html, parse_u32, result_from_html,
    result_from_images,
};
pub use helpers::{BuiltinDir, CopyStep, Platform, choose_builtin_dir, copy_step, next_file_manager};
pub use manifest::manifest_from_json;
pub use text::{str_contains, str_lex_le, trim, trim_end_matches, trim_start_matches};

verus! {

/// The key under which the extension registry state is managed.
pub const EXT_STATE_KEY: &'static str = "surf-fed-ext-state";

} // verus!

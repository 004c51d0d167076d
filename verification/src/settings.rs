//! User settings. Only the collision policy, the recursive inbox walk and
//! the ignored folders have backend behavior; the rest are stored for the
//! frontend. Every field has a default, so a partial or older settings file
//! still loads; reading and writing the file is the caller's.

use vstd::prelude::*;
use crate::domain::CollisionPolicy;
use crate::text::owned;

verus! {

/// The persisted settings.
#[derive(Debug, Clone, PartialEq, Eq)]
pub struct Settings {
    pub collision_policy: CollisionPolicy,
    pub confirm_folder_delete: bool,
    pub confirm_cross_drive: bool,
    pub default_sort_field: String,
    pub default_sort_order: String,
    pub default_filter: String,
    pub video_autoplay: bool,
    pub video_loop: bool,
    pub video_muted: bool,
    /// Check for a newer release on launch and offer to update.
    pub auto_update_check: bool,
    /// Walk every subfolder of the inbox folder(s) instead of just the top level.
    pub recursive_inbox: bool,
    /// Folders hidden from the Navigator, the folder search, the sort-target
    /// scan and recursive media counts: absolute paths (that folder and its
    /// subtree) or bare folder names (matched at any depth).
    pub ignored_folders: Vec<String>,
    pub theme: String,
    /// Optional default inbox and destination; when both are set the app opens
    /// straight into them. Empty means unset.
    pub default_input: String,
    pub default_output: String,
    /// The roots of the most recently opened session (empty until one opens).
    pub last_input: String,
    pub last_output: String,
}

/// The default collision policy: rename, never clobber.
pub fn default_collision_policy() -> (r: CollisionPolicy)
    ensures
        r == CollisionPolicy::Rename,
{
    CollisionPolicy::Rename
}

pub fn default_theme() -> (r: String)
    ensures
        r@ == "comfy-dark"@,
{
    owned("comfy-dark")
}

pub fn default_true() -> (r: bool)
    ensures
        r,
{
    true
}

pub fn default_sort_field() -> (r: String)
    ensures
        r@ == "mod"@,
{
    owned("mod")
}

pub fn default_sort_order() -> (r: String)
    ensures
        r@ == "desc"@,
{
    owned("desc")
}

pub fn default_filter() -> (r: String)
    ensures
        r@ == "all"@,
{
    owned("all")
}

/// The settings of a fresh install.
pub open spec fn is_default_settings(s: Settings) -> bool {
    &&& s.collision_policy == CollisionPolicy::Rename
    &&& s.confirm_folder_delete
    &&& s.confirm_cross_drive
    &&& s.default_sort_field@ == "mod"@
    &&& s.default_sort_order@ == "desc"@
    &&& s.default_filter@ == "all"@
    &&& s.video_autoplay
    &&& s.video_loop
    &&& s.video_muted
    &&& s.auto_update_check
    &&& !s.recursive_inbox
    &&& s.ignored_folders@.len() == 0
    &&& s.theme@ == "comfy-dark"@
    &&& s.default_input@.len() == 0
    &&& s.default_output@.len() == 0
    &&& s.last_input@.len() == 0
    &&& s.last_output@.len() == 0
}

impl Default for Settings {
    fn default() -> (r: Self)
        ensures
            is_default_settings(r),
    {
        Settings {
            collision_policy: default_collision_policy(),
            confirm_folder_delete: default_true(),
            confirm_cross_drive: default_true(),
            default_sort_field: default_sort_field(),
            default_sort_order: default_sort_order(),
            default_filter: default_filter(),
            video_autoplay: default_true(),
            video_loop: default_true(),
            video_muted: default_true(),
            auto_update_check: default_true(),
            recursive_inbox: false,
            ignored_folders: Vec::new(),
            theme: default_theme(),
            default_input: String::new(),
            default_output: String::new(),
            last_input: String::new(),
            last_output: String::new(),
        }
    }
}

} // verus!

//! Detection of the Toolforge hosting platform.

use vstd::prelude::*;

verus! {

pub struct ToolforgeApp {}

/// Relies on std::path::Path::exists: whether the platform marker file
/// `/etc/wmcs-project` is present.  The answer depends on the machine, so
/// nothing can be promised of it.
#[verifier::external_body]
fn wmcs_project_marker_exists() -> (r: bool) {
    std::path::Path::new("/etc/wmcs-project").exists()
}

impl ToolforgeApp {
    /// True when running on the Toolforge platform.
    pub fn is_on_toolforge() -> bool {
        wmcs_project_marker_exists()
    }
}

} // verus!

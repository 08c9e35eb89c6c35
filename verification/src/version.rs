//! What a build announces of its version.
use vstd::prelude::*;
use vstd::string::*;

use crate::text::push_text;

verus! {

/// Returns the line that announces when the source was last changed, with nothing behind the equals
/// sign when that is not known.
pub fn source_timestamp_line(timestamp: Option<String>) -> (line: String)
    ensures
        line@ == "cargo:rustc-env=SOURCE_TIMESTAMP="@ + match timestamp {
            Some(text) => text@,
            None => Seq::empty(),
        },
{
    let mut line = String::new();
    push_text(&mut line, "cargo:rustc-env=SOURCE_TIMESTAMP=");
    if let Some(text) = &timestamp {
        push_text(&mut line, text.as_str());
    }
    assert(line@ =~= "cargo:rustc-env=SOURCE_TIMESTAMP="@ + match timestamp {
        Some(text) => text@,
        None => Seq::empty(),
    });
    line
}

/// Returns the line that announces the version of the product: the one that the workspace states,
/// or else the version of the package.
pub fn product_version_line(product_version: Option<String>, package_version: String) -> (line:
    String)
    ensures
        line@ == "cargo:rustc-env=GREPTIME_PRODUCT_VERSION="@ + match product_version {
            Some(version) => version@,
            None => package_version@,
        },
{
    let mut line = String::new();
    push_text(&mut line, "cargo:rustc-env=GREPTIME_PRODUCT_VERSION=");
    match &product_version {
        Some(version) => push_text(&mut line, version.as_str()),
        None => push_text(&mut line, package_version.as_str()),
    }
    assert(line@ =~= "cargo:rustc-env=GREPTIME_PRODUCT_VERSION="@ + match product_version {
        Some(version) => version@,
        None => package_version@,
    });
    line
}

} // verus!

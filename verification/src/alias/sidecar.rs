//! `.alias` sidecars: a file beside an asset, named after it, that names it by hand.
//!
//! `airship.glb.alias` describes `airship.glb`. It may carry an alias, say whether the asset is
//! addressable at all, and carry the GUID tooling tracks the asset by.

use crate::alias::problem::AliasOrigin;
use crate::text::{chars_of, eq_ignoring_ascii_case, lower_ascii_char, string_of};
use vstd::prelude::*;

verus! {

/// The extension a sidecar adds to the name of the file it describes.
pub const ALIAS_EXTENSION: &'static str = "alias";

/// The contents of one `.alias` file.
#[derive(Debug, Clone, PartialEq, Eq)]
pub struct AliasFile {
    /// The alias the asset is named by, overriding whatever a folder rule would derive.
    pub alias: Option<String>,
    /// Whether the asset is addressable at all, overriding the folder rule's patterns.
    pub included: Option<bool>,
    /// The asset's GUID as its 128 bits, `None` until tooling assigns one.
    pub guid: Option<u128>,
    /// Whether a human wrote the alias or tooling did.
    pub alias_origin: AliasOrigin,
}

/// The file a sidecar named `name` describes: `name` without a final `.alias`, in any case;
/// none when `name` is not a sidecar or names nothing before the extension.
pub open spec fn sidecar_target(name: Seq<char>) -> Option<Seq<char>> {
    if name.len() > 6 && eq_ignoring_ascii_case(name.skip(name.len() - 6), ".alias"@) {
        Some(name.take(name.len() - 6))
    } else {
        None
    }
}

/// The file the sidecar named `file_name` describes, if it is a sidecar.
pub fn alias_sidecar_target(file_name: &str) -> (out: Option<String>)
    ensures
        out matches Some(t) ==> sidecar_target(file_name@) == Some(t@),
        out is None ==> sidecar_target(file_name@) is None,
{
    let chars = chars_of(file_name);
    let n = chars.len();
    if n <= 6 {
        return None;
    }
    let suffix = chars_of(".alias");
    proof {
        reveal_strlit(".alias");
    }
    let start = n - 6;
    let mut k: usize = 0;
    while k < 6
        invariant
            k <= 6,
            n == chars@.len(),
            n > 6,
            start == n - 6,
            chars@ == file_name@,
            suffix@ == ".alias"@,
            suffix@.len() == 6,
            forall|j: int| 0 <= j < k ==> crate::text::ascii_lower(#[trigger] file_name@.skip(start as int)[j]) == crate::text::ascii_lower(".alias"@[j]),
        decreases 6 - k,
    {
        if lower_ascii_char(chars[start + k]) != lower_ascii_char(suffix[k]) {
            proof {
                assert(file_name@.skip(start as int)[k as int] == chars@[start + k]);
            }
            return None;
        }
        proof {
            assert(file_name@.skip(start as int)[k as int] == chars@[start + k]);
        }
        k = k + 1;
    }
    let mut target: Vec<char> = Vec::new();
    let mut j: usize = 0;
    while j < start
        invariant
            j <= start,
            start < chars@.len(),
            target@ == chars@.take(j as int),
        decreases start - j,
    {
        target.push(chars[j]);
        proof {
            assert(chars@.take(j + 1) =~= chars@.take(j as int).push(chars@[j as int]));
        }
        j = j + 1;
    }
    Some(string_of(target.as_slice()))
}

} // verus!

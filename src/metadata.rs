//! Entry points over the workspace snapshot and over the registry's answers.

use crate::graph::{string_views, CrateInfo, MetadataField, RawPackage};
use crate::order::{order_packages, order_spec, outcome_of, OrderError, OrderOutcome};
use vstd::prelude::*;

verus! {

/// Whether the JSON document `text` has a member named `key`: `None` when
/// the text is not JSON, else whether the document is an object with that
/// member.
pub uninterp spec fn json_member_present(text: Seq<char>, key: Seq<char>) -> Option<bool>;

/// Relies on `serde_json::from_str` and `serde_json::Value::get`: parses the
/// text as one JSON value and asks for its member `key`.
#[verifier::external_body]
fn json_has_member(text: &str, key: &str) -> (r: Option<bool>)
    ensures
        r == json_member_present(text@, key@),
{
    serde_json::from_str::<serde_json::Value>(text).ok().map(|v| v.get(key).is_some())
}

/// The registry's answer lists the version.
pub open spec fn version_listed(response: Seq<char>) -> bool {
    json_member_present(response, "version"@) == Some(true)
}

/// Whether a registry answer about one package version says the version
/// is there: the answer is a JSON document with a `version` member. An
/// answer that does not parse counts as "not there yet".
pub fn registry_lists_version(response: &str) -> (r: bool)
    ensures
        r == version_listed(response@),
        json_member_present(response@, "version"@) is None ==> !r,
{
    match json_has_member(response, "version") {
        Some(found) => found,
        None => false,
    }
}

pub open spec fn opt_seq(packages: Option<&Vec<RawPackage>>) -> Option<Seq<RawPackage>> {
    match packages {
        Some(v) => Some(v@),
        None => None,
    }
}

/// The ordering outcome of a snapshot; `None` stands for a metadata
/// document without a package list.
pub open spec fn snapshot_outcome(
    packages: Option<Seq<RawPackage>>,
    exclude: Seq<Seq<char>>,
    prefix: Seq<char>,
) -> OrderOutcome {
    match packages {
        None => OrderOutcome::Metadata(MetadataField::Packages),
        Some(p) => order_spec(p, exclude, prefix),
    }
}

/// The publish order of the workspace whose package list is `packages`:
/// packages unpublishable or named in `ignore_crates` are left out, and only
/// dependencies whose name starts with `crate_prefix` count. A missing
/// package list is a metadata error.
pub fn order_crates_for_publishing(
    ignore_crates: &Vec<String>,
    crate_prefix: &str,
    packages: Option<&Vec<RawPackage>>,
) -> (r: Result<Vec<CrateInfo>, OrderError>)
    ensures
        outcome_of(r) == snapshot_outcome(opt_seq(packages), string_views(ignore_crates@), crate_prefix@),
{
    match packages {
        Some(pkgs) => order_packages(pkgs, ignore_crates, crate_prefix),
        None => Err(OrderError::MetadataParse(MetadataField::Packages)),
    }
}

} // verus!

//! The update check: the version tag at the end of the release page's address,
//! compared with the running version.
use vstd::prelude::*;
use crate::text::{chars_of, last_index_in, last_index_of, string_of};

verus! {

/// Whether `semver::Version::parse` accepts the text.
pub uninterp spec fn semver_parses(s: Seq<char>) -> bool;

/// Whether the version that `latest` spells has higher precedence than the one
/// `current` spells (major, minor, patch, pre-release; build metadata ignored),
/// as `semver::Version::cmp_precedence` decides.
pub uninterp spec fn semver_newer(latest: Seq<char>, current: Seq<char>) -> bool;

/// Relies on `semver::Version::parse` for both texts and on
/// `Version::cmp_precedence` for the comparison; `None` where either text does
/// not parse.
#[verifier::external_body]
fn compare_versions(latest: &str, current: &str) -> (r: Option<bool>)
    ensures
        r == (if semver_parses(latest@) && semver_parses(current@) {
            Some(semver_newer(latest@, current@))
        } else {
            None
        }),
{
    semver::Version::parse(latest).ok().zip(semver::Version::parse(current).ok()).map(
        |(l, c)| l.cmp_precedence(&c) == std::cmp::Ordering::Greater,
    )
}

/// The outcome of an update check.
pub struct UpdateInfo {
    pub latest: String,
    pub outdated: bool,
}

/// The last segment of a URL path, with one leading `v` removed.
pub open spec fn version_tag(path: Seq<char>) -> Seq<char> {
    let seg = path.skip(last_index_of(path, '/') + 1);
    if seg.len() > 0 && seg[0] == 'v' {
        seg.drop_first()
    } else {
        seg
    }
}

/// Reads the version tag off the path of the address the release page redirected to.
pub fn latest_from_path(path: &str) -> (r: String)
    ensures
        r@ == version_tag(path@),
{
    let cs = chars_of(path);
    let j: usize = match last_index_in(&cs, '/') {
        Some(k) => k + 1,
        None => 0,
    };
    let mut start = j;
    if start < cs.len() && cs[start] == 'v' {
        start = start + 1;
    }
    let slice = vstd::slice::slice_subrange(cs.as_slice(), start, cs.len());
    if start > j {
        assert(cs@.skip(j as int).drop_first() =~= cs@.subrange(j + 1, cs@.len() as int));
    }
    assert(cs@.skip(j as int) =~= cs@.subrange(j as int, cs@.len() as int));
    string_of(slice)
}

/// The update report for a tag and the outcome of comparing it: outdated only
/// where both versions parsed and the tag is the newer.
pub fn update_info(latest: String, newer: Option<bool>) -> (r: UpdateInfo)
    ensures
        r.latest == latest,
        r.outdated == (newer == Some(true)),
{
    let outdated = match newer {
        Some(b) => b,
        None => false,
    };
    UpdateInfo { latest, outdated }
}

/// Compares the tag at the end of `path` with `current`. A version that does not
/// parse never reports an update.
pub fn check_update_from(path: &str, current: &str) -> (r: UpdateInfo)
    ensures
        r.latest@ == version_tag(path@),
        r.outdated == (semver_parses(version_tag(path@)) && semver_parses(current@) && semver_newer(
            version_tag(path@),
            current@,
        )),
{
    let latest = latest_from_path(path);
    let newer = compare_versions(latest.as_str(), current);
    update_info(latest, newer)
}

} // verus!

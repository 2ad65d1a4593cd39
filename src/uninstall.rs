//! The steps of an uninstall: check the name, read the APK paths, back them up
//! under the backups folder, then uninstall and report.
use vstd::prelude::*;
use crate::adb_output::{apk_paths_of, no_apk_paths_message, parse_apk_paths};
use crate::backups::{backup_dir_name, backup_name};
use crate::text::{chars_of, string_views, trim, trim_bounds};

verus! {

pub open spec fn empty_name_message() -> Seq<char> {
    "Package name cannot be empty"@
}

/// A package name is refused when it is blank.
pub fn check_package_name(package: &str) -> (r: Result<(), String>)
    ensures
        r is Ok <==> trim(package@).len() > 0,
        match r {
            Ok(_) => true,
            Err(e) => e@ == empty_name_message(),
        },
{
    let cs = chars_of(package);
    let (a, b) = trim_bounds(&cs, 0, cs.len());
    assert(cs@.subrange(0, cs@.len() as int) =~= package@);
    if a == b {
        Err(String::from_str("Package name cannot be empty"))
    } else {
        Ok(())
    }
}

pub open spec fn query_failed_message(package: Seq<char>, stderr: Seq<char>) -> Seq<char> {
    "Failed to get APK paths for "@ + package + ": "@ + stderr
}

/// A backup to take: the APK paths to pull and the directory they go to.
pub struct BackupPlan {
    pub paths: Vec<String>,
    pub dir: String,
}

/// What to pull before an uninstall, from the answer to `pm path <package>`, and
/// where to. A failed query, or one that names no path, stops the uninstall
/// with no backup directory named, so none is made.
pub fn plan_backup(
    package: &str,
    query_ok: bool,
    stdout: &str,
    stderr: &str,
    root: &str,
    timestamp: u64,
) -> (r: Result<BackupPlan, String>)
    ensures
        r is Ok <==> query_ok && apk_paths_of(stdout@).len() > 0,
        match r {
            Ok(plan) => string_views(plan.paths@) == apk_paths_of(stdout@) && plan.dir@ == root@
                + "/"@ + backup_name(package@, timestamp),
            Err(e) => if query_ok {
                e@ == no_apk_paths_message(package@)
            } else {
                e@ == query_failed_message(package@, stderr@)
            },
        },
{
    if !query_ok {
        let mut e = String::from_str("Failed to get APK paths for ");
        e.append(package);
        e.append(": ");
        e.append(stderr);
        return Err(e);
    }
    let paths = parse_apk_paths(package, stdout)?;
    let dir = backup_dir_path(root, package, timestamp);
    Ok(BackupPlan { paths, dir })
}

/// The folder under which backups go, below a base folder.
pub open spec fn root_under(base: Seq<char>) -> Seq<char> {
    base + "/AndroidDebloater/backups"@
}

/// The backups folder below `base`.
pub fn backups_root_under(base: &str) -> (r: String)
    ensures
        r@ == root_under(base@),
{
    let mut s = String::from_str(base);
    s.append("/AndroidDebloater/backups");
    s
}

/// The backups folder: below the documents folder where there is one, else
/// below the home folder, else below `fallback` (the working directory).
pub fn backups_root_from(document: Option<String>, home: Option<String>, fallback: &str) -> (r: String)
    ensures
        r@ == root_under(
            match document {
                Some(d) => d@,
                None => match home {
                    Some(h) => h@,
                    None => fallback@,
                },
            },
        ),
{
    match document {
        Some(d) => backups_root_under(d.as_str()),
        None => match home {
            Some(h) => backups_root_under(h.as_str()),
            None => backups_root_under(fallback),
        },
    }
}

/// The directory for a backup of `package` taken at `timestamp`, inside `root`.
pub fn backup_dir_path(root: &str, package: &str, timestamp: u64) -> (r: String)
    ensures
        r@ == root@ + "/"@ + backup_name(package@, timestamp),
{
    let name = backup_dir_name(package, timestamp);
    let mut s = String::from_str(root);
    s.append("/");
    s.append(name.as_str());
    s
}

pub open spec fn uninstall_message(backup_dir: Seq<char>, stdout: Seq<char>) -> Seq<char> {
    "Backup saved to: "@ + backup_dir + "\n"@ + stdout
}

/// The report of an uninstall: where the backup went and what adb printed,
/// whatever that was.
pub fn uninstall_report(backup_dir: &str, stdout: &str) -> (r: String)
    ensures
        r@ == uninstall_message(backup_dir@, stdout@),
{
    let mut s = String::from_str("Backup saved to: ");
    s.append(backup_dir);
    s.append("\n");
    s.append(stdout);
    s
}

pub open spec fn reboot_failed_message() -> Seq<char> {
    "adb reboot failed"@
}

/// The outcome of `adb reboot` from its exit status.
pub fn reboot_outcome(exit_ok: bool) -> (r: Result<(), String>)
    ensures
        r is Ok <==> exit_ok,
        match r {
            Ok(_) => true,
            Err(e) => e@ == reboot_failed_message(),
        },
{
    if exit_ok {
        Ok(())
    } else {
        Err(String::from_str("adb reboot failed"))
    }
}

} // verus!

//! Bookkeeping for an adb-driven package manager: parsing adb's text output,
//! naming and scanning APK backups, planning restores, and update checks.
use vstd::prelude::*;

pub mod text;
pub mod adb_output;
pub mod backups;
pub mod restore;
pub mod update;
pub mod locate;
pub mod uninstall;

verus! {

} // verus!

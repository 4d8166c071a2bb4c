//! Verified core of a declarative system-configuration activator.
//!
//! The library tracks which files and services the tool manages across
//! generations: a path tree with per-node management status, the set
//! computations that drive service stop/reload decisions, and the decision
//! rules of the activation engine.  Unverified I/O (filesystem walks,
//! process invocation, argument parsing) lives outside this crate and talks
//! to it through plain values.

pub mod activate;
pub mod etc_files;
pub mod etc_tree;
pub mod paths;
pub mod register;
pub mod services;
pub mod store_path;
pub mod systemd;
pub mod tree_laws;

use vstd::prelude::*;

verus! {

/// Root directory of the managed configuration tree.
pub fn etc_dir(ephemeral: bool) -> (r: String)
    ensures
        ephemeral ==> r@ == "/run/etc"@,
        !ephemeral ==> r@ == "/etc"@,
{
    if ephemeral {
        "/run/etc".to_owned()
    } else {
        "/etc".to_owned()
    }
}

/// The directory the active profile link lives under.
pub fn profile_dir() -> (r: String)
    ensures
        r@ == "/nix/var/nix/profiles/system-manager-profiles"@,
{
    "/nix/var/nix/profiles/system-manager-profiles".to_owned()
}

/// The name of the active profile link.
pub fn profile_name() -> (r: String)
    ensures
        r@ == "system-manager"@,
{
    "system-manager".to_owned()
}

/// The collector root that keeps the active profile alive.
pub fn gcroot_path() -> (r: String)
    ensures
        r@ == "/nix/var/nix/gcroots/system-manager-current"@,
{
    "/nix/var/nix/gcroots/system-manager-current".to_owned()
}

/// The directory the generation record is persisted under.
pub fn state_dir() -> (r: String)
    ensures
        r@ == "/var/lib/system-manager/state"@,
{
    "/var/lib/system-manager/state".to_owned()
}

/// The file name of the generation record.
pub fn state_file_name() -> (r: String)
    ensures
        r@ == "system-manager-state.json"@,
{
    "system-manager-state.json".to_owned()
}

/// Extra key/value options handed through to the package tooling.
pub struct NixOptions {
    pub options: Vec<(String, String)>,
}

impl NixOptions {
    pub fn new(options: Vec<(String, String)>) -> (r: Self)
        ensures
            r.options == options,
    {
        NixOptions { options }
    }
}

} // verus!

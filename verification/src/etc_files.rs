//! The etc-activation engine's rules: how a profile entry is placed under
//! the etc root, when a destination that already exists is adopted, replaced
//! or refused, when a directory is entered instead of linked, how the
//! relative link target is formed, and what cleanup does per kind of path.
//! The filesystem itself is observed and mutated outside the library, which
//! hands the observations in as plain values and receives decisions back.

use crate::activate::{ActivationError, ActivationResult};
use crate::etc_tree::{
    callable, decides, node_deactivate, node_status_at, opt_tree_view, path_view, wf_components,
    FileStatus, FileTree,
};
use crate::store_path::StorePath;
use crate::tree_laws::{lemma_register_preserves, lemma_register_status};
use vstd::prelude::*;

verus! {

/// One entry of the profile's etc-file list: place `target` below the etc
/// root, either as a symlink into the static environment (`mode` reads
/// `symlink`) or as a copy with the octal permission bits `mode`.
pub struct EtcFile {
    pub source: StorePath,
    pub target: Vec<String>,
    pub uid: u32,
    pub gid: u32,
    pub user: String,
    pub group: String,
    pub mode: String,
}

/// What stands at a filesystem path, as observed outside the library.
#[derive(Clone, Copy, PartialEq, Eq, Structural, Debug)]
pub enum FsKind {
    Missing,
    Symlink,
    RegularFile,
    Directory,
    Other,
}

/// The sequence `../`, `n` times.
pub open spec fn ups(n: nat) -> Seq<char>
    decreases n,
{
    if n == 0 {
        Seq::empty()
    } else {
        seq!['.', '.', '/'] + ups((n - 1) as nat)
    }
}

/// `/c1/c2/.../ck` for components `p`.
pub open spec fn join_slash(p: Seq<Seq<char>>) -> Seq<char>
    decreases p.len(),
{
    if p.len() == 0 {
        Seq::empty()
    } else {
        seq!['/'] + p[0] + join_slash(p.skip(1))
    }
}

/// The name of the static-environment link at the etc root.
pub fn static_dir_name() -> (r: String)
    ensures
        r@ == ".system-manager-static"@,
{
    ".system-manager-static".to_owned()
}

/// The on-disk target of the symlink for the entry `target`: climb from the
/// link's directory back up to the etc root — one `../` per level below the
/// root — then descend through the static environment link to the entry.
pub fn link_rel_target(target: &Vec<String>) -> (r: String)
    requires
        target@.len() > 0,
    ensures
        r@ == ups((target@.len() - 1) as nat) + ".system-manager-static"@ + join_slash(
            path_view(target@),
        ),
{
    let mut out: String = String::new();
    let n = target.len();
    let mut i: usize = 0;
    proof {
        assert(out@ =~= ups(0));
    }
    while i < n - 1
        invariant
            0 <= i <= n - 1,
            n == target@.len(),
            out@ == ups(i as nat),
        decreases n - 1 - i,
    {
        proof {
            reveal_strlit("../");
            assert(ups((i + 1) as nat) =~= ups(i as nat) + "../"@) by {
                lemma_ups_snoc((i + 1) as nat);
            }
        }
        out.append("../");
        i += 1;
    }
    out.append(".system-manager-static");
    let mut j: usize = 0;
    let ghost mid = ups((n - 1) as nat) + ".system-manager-static"@;
    proof {
        assert(path_view(target@).skip(0) =~= path_view(target@));
        assert(out@ + join_slash(path_view(target@).skip(0)) =~= mid + join_slash(
            path_view(target@),
        ));
    }
    while j < n
        invariant
            0 <= j <= n,
            n == target@.len(),
            out@ + join_slash(path_view(target@).skip(j as int)) == mid + join_slash(
                path_view(target@),
            ),
        decreases n - j,
    {
        let ghost pre = out@;
        proof {
            reveal_strlit("/");
            assert(join_slash(path_view(target@).skip(j as int)) == seq!['/'] + path_view(
                target@,
            )[j as int] + join_slash(path_view(target@).skip(j as int + 1))) by {
                assert(path_view(target@).skip(j as int)[0] == path_view(target@)[j as int]);
                assert(path_view(target@).skip(j as int).skip(1) =~= path_view(target@).skip(
                    j as int + 1,
                ));
            }
        }
        out.append("/");
        out.append(target[j].as_str());
        proof {
            assert(out@ =~= pre + seq!['/'] + path_view(target@)[j as int]);
            assert((pre + seq!['/'] + path_view(target@)[j as int]) + join_slash(
                path_view(target@).skip(j as int + 1),
            ) =~= pre + (seq!['/'] + path_view(target@)[j as int] + join_slash(
                path_view(target@).skip(j as int + 1),
            )));
        }
        j += 1;
    }
    proof {
        assert(path_view(target@).skip(n as int) =~= Seq::<Seq<char>>::empty());
        assert(out@ + Seq::<char>::empty() =~= out@);
    }
    out
}

proof fn lemma_ups_snoc(n: nat)
    requires
        n > 0,
    ensures
        ups(n) == ups((n - 1) as nat) + seq!['.', '.', '/'],
    decreases n,
{
    if n == 1 {
        assert(ups(1) =~= ups(0) + seq!['.', '.', '/']);
    } else {
        lemma_ups_snoc((n - 1) as nat);
        assert(ups(n) == seq!['.', '.', '/'] + ups((n - 1) as nat));
        assert(seq!['.', '.', '/'] + (ups((n - 2) as nat) + seq!['.', '.', '/']) =~= (seq![
            '.',
            '.',
            '/',
        ] + ups((n - 2) as nat)) + seq!['.', '.', '/']);
    }
}

/// Whether a name ends in `.wants` or `.requires` — the directories some
/// supervisors refuse to follow through a symlink.
pub fn is_dependency_dir_name(name: &String) -> (r: bool)
    ensures
        r == (".wants"@.is_suffix_of(name@) || ".requires"@.is_suffix_of(name@)),
{
    let s = name.as_str();
    let n = s.unicode_len();
    proof {
        reveal_strlit(".wants");
        reveal_strlit(".requires");
    }
    let wants = if n >= 6 {
        let tail = s.substring_char(n - 6, n).to_owned();
        let r = tail == ".wants".to_owned();
        proof {
            assert(tail@ == s@.subrange(n as int - 6, n as int));
            assert(".wants"@.is_suffix_of(name@) == (tail@ == ".wants"@)) by {
                if ".wants"@.is_suffix_of(name@) {
                    assert(s@.subrange(n as int - 6, n as int) =~= ".wants"@);
                }
            }
        }
        r
    } else {
        proof {
            if ".wants"@.is_suffix_of(name@) {
                assert(".wants"@.len() <= name@.len());
            }
        }
        false
    };
    let requires_suffix = if n >= 9 {
        let tail = s.substring_char(n - 9, n).to_owned();
        let r = tail == ".requires".to_owned();
        proof {
            assert(tail@ == s@.subrange(n as int - 9, n as int));
            assert(".requires"@.is_suffix_of(name@) == (tail@ == ".requires"@)) by {
                if ".requires"@.is_suffix_of(name@) {
                    assert(s@.subrange(n as int - 9, n as int) =~= ".requires"@);
                }
            }
        }
        r
    } else {
        proof {
            if ".requires"@.is_suffix_of(name@) {
                assert(".requires"@.len() <= name@.len());
            }
        }
        false
    };
    wants || requires_suffix
}

/// What to do with one symlink entry, given what stands at its destination.
#[derive(Clone, Copy, PartialEq, Eq, Structural, Debug)]
pub enum LinkAction {
    /// The entry names a dependency directory, or an unmanaged directory
    /// already stands at the destination: create the destination as a real
    /// directory and place one link per child of the source directory.
    DescendIntoSource,
    /// The destination must be entered but the source is not a directory:
    /// the entry fails, everything else continues.
    ConflictNotDirectory,
    /// The destination is already the wanted symlink: keep it, register it.
    AlreadyCorrect,
    /// Something unmanaged stands at the destination: the entry is skipped.
    SkipUnmanagedConflict,
    /// A managed file stands there: remove it and create the link.
    ReplaceLink,
    /// Nothing stands there: create the link.
    CreateLink,
}

/// Decide how to place one symlink entry.  `dependency_dir` is the name
/// test on the final component; `source_is_dir` speaks of the entry's
/// source below the static environment; `dest_*` describe what stands at
/// the destination, `dest_matches` whether an existing symlink already
/// points at the wanted target; `dest_managed` whether the previous
/// generation recorded the destination as managed.
pub fn link_entry_action(
    dependency_dir: bool,
    source_is_dir: bool,
    dest_exists: bool,
    dest_is_dir: bool,
    dest_is_symlink: bool,
    dest_matches: bool,
    dest_managed: bool,
) -> (r: LinkAction)
    ensures
        (dependency_dir || (dest_exists && dest_is_dir && !dest_managed)) && source_is_dir ==> r
            == LinkAction::DescendIntoSource,
        (dependency_dir || (dest_exists && dest_is_dir && !dest_managed)) && !source_is_dir ==> r
            == LinkAction::ConflictNotDirectory,
        !(dependency_dir || (dest_exists && dest_is_dir && !dest_managed)) ==> {
            &&& dest_is_symlink && dest_matches ==> r == LinkAction::AlreadyCorrect
            &&& !(dest_is_symlink && dest_matches) && dest_exists && !dest_managed ==> r
                == LinkAction::SkipUnmanagedConflict
            &&& !(dest_is_symlink && dest_matches) && dest_exists && dest_managed ==> r
                == LinkAction::ReplaceLink
            &&& !(dest_is_symlink && dest_matches) && !dest_exists ==> r == LinkAction::CreateLink
        },
{
    if dependency_dir || (dest_exists && dest_is_dir && !dest_managed) {
        if source_is_dir {
            LinkAction::DescendIntoSource
        } else {
            LinkAction::ConflictNotDirectory
        }
    } else if dest_is_symlink && dest_matches {
        LinkAction::AlreadyCorrect
    } else if dest_exists && !dest_managed {
        LinkAction::SkipUnmanagedConflict
    } else if dest_exists {
        LinkAction::ReplaceLink
    } else {
        LinkAction::CreateLink
    }
}

/// What to do with one copy entry.
#[derive(Clone, Copy, PartialEq, Eq, Structural, Debug)]
pub enum CopyAction {
    /// Copy the source over the destination and set the permission bits.
    Copy,
    /// An unmanaged file stands at the destination: the entry is skipped.
    SkipUnmanagedConflict,
}

/// A copy entry overwrites only destinations that are absent or that the
/// tool itself manages.
pub fn copy_entry_action(dest_exists: bool, dest_managed: bool) -> (r: CopyAction)
    ensures
        !dest_exists || dest_managed ==> r == CopyAction::Copy,
        dest_exists && !dest_managed ==> r == CopyAction::SkipUnmanagedConflict,
{
    if !dest_exists || dest_managed {
        CopyAction::Copy
    } else {
        CopyAction::SkipUnmanagedConflict
    }
}

/// What cleanup does with one recorded path, given what stands there.
#[derive(Clone, Copy, PartialEq, Eq, Structural, Debug)]
pub enum CleanupAction {
    /// The path is gone already: report it deleted.
    AlreadyGone,
    /// Unlink the symlink.
    RemoveLink,
    /// Delete the regular file.
    RemoveFile,
    /// Remove the empty directory.
    RemoveDir,
    /// A non-empty directory: leave it, keep its record so a later run can
    /// retry, and warn if it is managed.
    LeaveNonEmpty,
    /// Something cleanup does not handle: report failure.
    Unsupported,
}

/// Decide what cleanup does at a recorded path: symlinks are unlinked,
/// files deleted, empty directories removed; a non-empty directory is left
/// in place and its record kept.
pub fn cleanup_action(kind: FsKind, dir_empty: bool) -> (r: CleanupAction)
    ensures
        kind == FsKind::Missing ==> r == CleanupAction::AlreadyGone,
        kind == FsKind::Symlink ==> r == CleanupAction::RemoveLink,
        kind == FsKind::RegularFile ==> r == CleanupAction::RemoveFile,
        kind == FsKind::Directory && dir_empty ==> r == CleanupAction::RemoveDir,
        kind == FsKind::Directory && !dir_empty ==> r == CleanupAction::LeaveNonEmpty,
        kind == FsKind::Other ==> r == CleanupAction::Unsupported,
{
    match kind {
        FsKind::Missing => CleanupAction::AlreadyGone,
        FsKind::Symlink => CleanupAction::RemoveLink,
        FsKind::RegularFile => CleanupAction::RemoveFile,
        FsKind::Directory => if dir_empty {
            CleanupAction::RemoveDir
        } else {
            CleanupAction::LeaveNonEmpty
        },
        FsKind::Other => CleanupAction::Unsupported,
    }
}

/// Whether a cleanup action, once carried out, counts as "the path was
/// deleted" for the tree: only then is the node's record pruned.  A left
/// non-empty directory keeps its record so that a later run retries.
pub fn cleanup_counts_as_deleted(action: CleanupAction, fs_ok: bool) -> (r: bool)
    ensures
        action == CleanupAction::AlreadyGone ==> r == true,
        action == CleanupAction::LeaveNonEmpty ==> r == false,
        action == CleanupAction::Unsupported ==> r == false,
        (action == CleanupAction::RemoveLink || action == CleanupAction::RemoveFile || action
            == CleanupAction::RemoveDir) ==> r == fs_ok,
{
    match action {
        CleanupAction::AlreadyGone => true,
        CleanupAction::LeaveNonEmpty => false,
        CleanupAction::Unsupported => false,
        CleanupAction::RemoveLink => fs_ok,
        CleanupAction::RemoveFile => fs_ok,
        CleanupAction::RemoveDir => fs_ok,
    }
}

/// The value of an octal numeral, most significant digit first.
pub open spec fn octal_value(s: Seq<char>) -> int
    decreases s.len(),
{
    if s.len() == 0 {
        0
    } else {
        octal_value(s.drop_last()) * 8 + (s.last() as int - '0' as int)
    }
}

pub open spec fn is_octal_digit(c: char) -> bool {
    '0' as int <= c as int <= '7' as int
}

proof fn lemma_octal_monotone(s: Seq<char>, i: int)
    requires
        0 <= i <= s.len(),
        forall|m: int| 0 <= m < s.len() ==> is_octal_digit(#[trigger] s[m]),
    ensures
        octal_value(s) >= octal_value(s.take(i)),
        octal_value(s.take(i)) >= 0,
    decreases s.len() - i,
{
    if i == s.len() {
        assert(s.take(i) =~= s);
        lemma_octal_nonneg(s);
    } else {
        lemma_octal_monotone(s, i + 1);
        assert(s.take(i + 1).drop_last() =~= s.take(i));
        assert(s.take(i + 1).last() == s[i]);
        lemma_octal_nonneg(s.take(i));
    }
}

proof fn lemma_octal_nonneg(s: Seq<char>)
    requires
        forall|m: int| 0 <= m < s.len() ==> is_octal_digit(#[trigger] s[m]),
    ensures
        octal_value(s) >= 0,
    decreases s.len(),
{
    if s.len() > 0 {
        assert(forall|m: int|
            0 <= m < s.drop_last().len() ==> is_octal_digit(#[trigger] s.drop_last()[m]));
        lemma_octal_nonneg(s.drop_last());
    }
}

/// Parse an octal permission string.  Succeeds exactly on non-empty strings
/// of octal digits whose value fits the integer, and returns that value.
#[verifier::loop_isolation(false)]
pub fn parse_octal_mode(s: &str) -> (r: Option<u32>)
    ensures
        r is Some <==> s@.len() > 0 && (forall|m: int|
            0 <= m < s@.len() ==> is_octal_digit(#[trigger] s@[m])) && octal_value(s@)
            <= u32::MAX,
        r matches Some(v) ==> v == octal_value(s@),
{
    let n = s.unicode_len();
    if n == 0 {
        return None;
    }
    let mut acc: u32 = 0;
    let mut i: usize = 0;
    proof {
        assert(s@.take(0) =~= Seq::<char>::empty());
    }
    while i < n
        invariant
            0 <= i <= n,
            acc == octal_value(s@.take(i as int)),
            forall|m: int| 0 <= m < i ==> is_octal_digit(#[trigger] s@[m]),
        decreases n - i,
    {
        let c = s.get_char(i);
        let d = c as u32;
        if d < 48 || d > 55 {
            proof {
                assert(!is_octal_digit(s@[i as int]));
            }
            return None;
        }
        let digit = d - 48;
        if acc > (u32::MAX - digit) / 8 {
            proof {
                assert(forall|m: int| 0 <= m <= i ==> is_octal_digit(#[trigger] s@[m]));
                assert(s@.take(i as int + 1).drop_last() =~= s@.take(i as int));
                assert(s@.take(i as int + 1).last() == s@[i as int]);
                assert(octal_value(s@.take(i as int + 1)) == acc * 8 + digit);
                assert(acc * 8 + digit > u32::MAX) by (nonlinear_arith)
                    requires
                        acc > (u32::MAX - digit) / 8,
                        digit < 8,
                        acc >= 0,
                {}
                if forall|m: int| 0 <= m < s@.len() ==> is_octal_digit(#[trigger] s@[m]) {
                    lemma_octal_monotone(s@, i as int + 1);
                }
            }
            return None;
        }
        proof {
            assert(s@.take(i as int + 1).drop_last() =~= s@.take(i as int));
            assert(s@.take(i as int + 1).last() == s@[i as int]);
            assert(acc * 8 + digit <= u32::MAX) by (nonlinear_arith)
                requires
                    acc <= (u32::MAX - digit) / 8,
                    digit < 8,
                    acc >= 0,
            {}
        }
        acc = acc * 8 + digit;
        i += 1;
    }
    proof {
        assert(s@.take(n as int) =~= s@);
    }
    Some(acc)
}

/// Remove every path the previous generation recorded: post-order
/// deactivation of the whole tree with the given delete action; the record
/// of everything that refused deletion is kept, and a fully pruned tree
/// leaves the empty root.
pub fn deactivate<F: Fn(&Vec<String>, &FileStatus) -> bool>(
    old_state: FileTree,
    delete_action: &F,
) -> (r: ActivationResult<FileTree>)
    requires
        old_state.wf(),
        callable(*delete_action),
    ensures
        r is Ok,
        r matches Ok(t) ==> t.wf(),
        forall|d: spec_fn(Seq<Seq<char>>, FileStatus) -> bool| #[trigger]
            decides(*delete_action, d) ==> match r {
                Ok(t) => opt_tree_view(Some(t)) == node_deactivate(
                    old_state@,
                    path_view(old_state.path@),
                    d,
                ) || (node_deactivate(old_state@, path_view(old_state.path@), d) is None && t@
                    == crate::etc_tree::empty_node()),
                Err(_) => false,
            },
{
    let ghost g_old = old_state;
    match old_state.deactivate(delete_action) {
        Some(t) => Ok(t),
        None => Ok(FileTree::root_node()),
    }
}

/// The tree an activation outcome carries: the new tree on success, the
/// partial tree on failure.
pub open spec fn outcome_tree(r: ActivationResult<FileTree>) -> FileTree {
    match r {
        Ok(t) => t,
        Err(e) => crate::activate::partial_of(e),
    }
}

/// Create the missing directories along `dir`, bottom-up from the root.
/// `ensure_dir` reports whether it created the directory (`true`), found it
/// already present (`false`), or failed; every directory actually created
/// is registered as managed, and a failure carries the tree built so far.
/// All other paths keep their recorded status.
#[verifier::loop_isolation(false)]
pub fn create_dir_recursively<F: Fn(&Vec<String>) -> Result<bool, String>>(
    dir: &Vec<String>,
    state: FileTree,
    ensure_dir: &F,
) -> (r: ActivationResult<FileTree>)
    requires
        state.wf(),
        wf_components(path_view(dir@)),
        forall|a: (&Vec<String>,)| #[trigger] call_requires(*ensure_dir, a),
    ensures
        dir@.len() == 0 ==> r is Ok,
        r matches Ok(t) ==> t.wf(),
        r matches Err(e) ==> crate::activate::partial_of(e).wf(),
        forall|q: Seq<Seq<char>>|
            node_status_at(outcome_tree(r)@, q) == node_status_at(state@, q) || (#[trigger]
            node_status_at(outcome_tree(r)@, q) == FileStatus::Managed && q.is_prefix_of(
                path_view(dir@),
            ) && q.len() > 0),
{
    let ghost orig = state@;
    let mut st = state;
    let mut cur: Vec<String> = Vec::new();
    let mut i: usize = 0;
    while i < dir.len()
        invariant
            0 <= i <= dir@.len(),
            st.wf(),
            cur@.len() == i,
            forall|m: int| 0 <= m < i ==> (#[trigger] cur@[m])@ == dir@[m]@,
            forall|q: Seq<Seq<char>>|
                node_status_at(st@, q) == node_status_at(orig, q) || (#[trigger] node_status_at(
                    st@,
                    q,
                ) == FileStatus::Managed && q.is_prefix_of(path_view(dir@)) && q.len() > 0),
        decreases dir@.len() - i,
    {
        cur.push(dir[i].clone());
        let ghost prev = st@;
        let created = match ensure_dir(&cur) {
            Ok(b) => b,
            Err(msg) => {
                return Err(ActivationError::with_partial_result(st, msg));
            },
        };
        if created {
            proof {
                assert(path_view(cur@) =~= path_view(dir@).take(i as int + 1));
                assert(wf_components(path_view(cur@))) by {
                    assert(forall|m: int|
                        0 <= m < path_view(cur@).len() ==> path_view(cur@)[m] == path_view(
                            dir@,
                        )[m]);
                }
            }
            st = st.register_managed_entry(&cur);
            proof {
                let p = path_view(cur@);
                lemma_register_status(prev, p, FileStatus::Managed);
                assert forall|q: Seq<Seq<char>>|
                    node_status_at(st@, q) == node_status_at(orig, q) || (#[trigger]
                node_status_at(st@, q) == FileStatus::Managed && q.is_prefix_of(path_view(dir@))
                    && q.len() > 0) by {
                    if q == p {
                        assert(node_status_at(st@, q) == FileStatus::Managed);
                        assert(p =~= path_view(dir@).subrange(0, p.len() as int));
                        assert(p.is_prefix_of(path_view(dir@)));
                    } else {
                        lemma_register_preserves(prev, p, q, FileStatus::Managed);
                    }
                }
            }
        }
        i += 1;
    }
    Ok(st)
}

} // verus!

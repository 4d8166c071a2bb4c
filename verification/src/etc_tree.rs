//! The managed-path tree: a tree of `/`-rooted paths, each node carrying a
//! management status.  It is diffed between generations and drives cleanup of
//! the files the tool itself created, never of paths it merely traversed.
//!
//! A node holds its absolute path (as the sequence of name components from
//! the root), its status, and a name-keyed list of children.  The ghost model
//! [`Node`] abstracts a tree to its status and a `Map` from child names to
//! child models; every executable operation is specified against a recursive
//! function on that model.

use vstd::prelude::*;

verus! {

/// Management status of one node of the tree.
///
/// `Managed` marks a node the tool created and may delete on cleanup;
/// `ManagedWithBackup` additionally records that a pre-existing file was
/// preserved when the node was created; `Unmanaged` marks a node that only
/// exists as a path prefix of managed entries and is never deleted.
#[derive(Clone, Copy, PartialEq, Eq, Structural, Debug)]
pub enum FileStatus {
    Managed,
    ManagedWithBackup,
    Unmanaged,
}

impl FileStatus {
    /// The fold of two statuses used when merging trees:
    /// `ManagedWithBackup` absorbs both other statuses, `Managed` absorbs
    /// `Unmanaged`, and only two `Unmanaged` stay `Unmanaged`.
    pub open spec fn spec_merge(self, other: FileStatus) -> FileStatus {
        match (self, other) {
            (FileStatus::ManagedWithBackup, _) => FileStatus::ManagedWithBackup,
            (_, FileStatus::ManagedWithBackup) => FileStatus::ManagedWithBackup,
            (FileStatus::Unmanaged, FileStatus::Unmanaged) => FileStatus::Unmanaged,
            _ => FileStatus::Managed,
        }
    }

    /// A node is managed if the tool created it, with or without a backup.
    pub open spec fn spec_is_managed(self) -> bool {
        self != FileStatus::Unmanaged
    }

    pub fn merge(&self, other: &Self) -> (r: Self)
        ensures
            r == self.spec_merge(*other),
    {
        match (self, other) {
            (FileStatus::ManagedWithBackup, _) => FileStatus::ManagedWithBackup,
            (_, FileStatus::ManagedWithBackup) => FileStatus::ManagedWithBackup,
            (FileStatus::Unmanaged, FileStatus::Unmanaged) => FileStatus::Unmanaged,
            _ => FileStatus::Managed,
        }
    }

    pub fn is_managed_status(&self) -> (r: bool)
        ensures
            r == self.spec_is_managed(),
    {
        match self {
            FileStatus::Unmanaged => false,
            _ => true,
        }
    }
}

/// The view of a sequence of path components as a sequence of character
/// sequences.
pub open spec fn path_view(p: Seq<String>) -> Seq<Seq<char>> {
    p.map_values(|s: String| s@)
}

/// A path component that names a single directory entry: non-empty, free of
/// separators, and neither of the two relative components.
pub open spec fn is_normal_component(c: Seq<char>) -> bool {
    &&& c.len() > 0
    &&& !c.contains('/')
    &&& c != seq!['.']
    &&& c != seq!['.', '.']
}

pub open spec fn wf_components(p: Seq<Seq<char>>) -> bool {
    forall|i: int| 0 <= i < p.len() ==> is_normal_component(#[trigger] p[i])
}

/// Mathematical model of a tree node: its status and a map from child names
/// to child models.  Node paths are positional and therefore not part of the
/// model.
#[verifier::ext_equal]
pub struct Node {
    pub status: FileStatus,
    pub children: Map<Seq<char>, Node>,
}

/// The index of the entry of `cs` whose name reads `k`.
pub open spec fn key_index(cs: Seq<(String, FileTree)>, k: Seq<char>) -> int {
    choose|i: int| 0 <= i < cs.len() && cs[i].0@ == k
}

/// Whether some entry of `cs` is named `k`.
pub open spec fn has_key(cs: Seq<(String, FileTree)>, k: Seq<char>) -> bool {
    exists|i: int| 0 <= i < cs.len() && cs[i].0@ == k
}

/// No two entries of `cs` share a name.
pub open spec fn uniq_keys(cs: Seq<(String, FileTree)>) -> bool {
    forall|i: int, j: int| 0 <= i < j < cs.len() ==> cs[i].0@ != cs[j].0@
}

/// A tree of managed paths.  `path` is the absolute path of this node as its
/// name components from the root; the root itself has an empty `path`.
/// `nested` maps child names to subtrees.
#[derive(Debug)]
pub struct FileTree {
    pub status: FileStatus,
    pub path: Vec<String>,
    pub nested: Vec<(String, FileTree)>,
}

/// The model of a node that carries nothing: unmanaged, no children.
pub open spec fn empty_node() -> Node {
    Node { status: FileStatus::Unmanaged, children: Map::empty() }
}

/// The model of a tree: its status together with the map from child names to
/// child models.
pub open spec fn tree_view(t: FileTree) -> Node
    decreases t via tree_view_decreases
{
    Node {
        status: t.status,
        children: Map::new(
            |k: Seq<char>| has_key(t.nested@, k),
            |k: Seq<char>|
                if has_key(t.nested@, k) {
                    tree_view(t.nested@[key_index(t.nested@, k)].1)
                } else {
                    Node { status: FileStatus::Unmanaged, children: Map::empty() }
                },
        ),
    }
}

/// The map from child names to child models of a child list.
pub open spec fn children_view(cs: Seq<(String, FileTree)>) -> Map<Seq<char>, Node> {
    Map::new(
        |k: Seq<char>| has_key(cs, k),
        |k: Seq<char>|
            if has_key(cs, k) {
                tree_view(cs[key_index(cs, k)].1)
            } else {
                empty_node()
            },
    )
}

/// A tree's model children are the children view of its child list.
pub proof fn lemma_tree_view_children(t: FileTree)
    ensures
        tree_view(t).children == children_view(t.nested@),
{
    assert(tree_view(t).children =~= children_view(t.nested@));
}

#[via_fn]
proof fn tree_view_decreases(t: FileTree) {
    assert forall|k: Seq<char>| has_key(t.nested@, k) implies (decreases_to!(t => t.nested@[
    key_index(t.nested@, k)].1)) by {
        let i = key_index(t.nested@, k);
        assert(0 <= i < t.nested@.len());
        assert(decreases_to!(t => t.nested));
        assert(decreases_to!(t.nested => t.nested@));
        assert(decreases_to!(t.nested@ => t.nested@[i]));
        assert(decreases_to!(t.nested@[i] => t.nested@[i].1));
    }
}

impl View for FileTree {
    type V = Node;

    open spec fn view(&self) -> Node {
        tree_view(*self)
    }
}

impl FileTree {
    /// Internal consistency: child names are unique normal components, and
    /// every child's stored path extends this node's path by its name.
    pub open spec fn wf_sub(self) -> bool
        decreases self,
    {
        &&& uniq_keys(self.nested@)
        &&& forall|i: int|
            0 <= i < self.nested@.len() ==> {
                &&& is_normal_component((#[trigger] self.nested@[i]).0@)
                &&& path_view(self.nested@[i].1.path@) == path_view(self.path@).push(
                    self.nested@[i].0@,
                )
                &&& self.nested@[i].1.wf_sub()
            }
    }

    /// A well-formed whole tree: internally consistent and rooted at `/`.
    pub open spec fn wf(self) -> bool {
        self.wf_sub() && self.path@.len() == 0
    }

    /// The empty tree rooted at `/`.
    pub fn root_node() -> (r: Self)
        ensures
            r.wf(),
            r@ == (Node { status: FileStatus::Unmanaged, children: Map::empty() }),
            r.path@.len() == 0,
    {
        let r = FileTree { status: FileStatus::Unmanaged, path: Vec::new(), nested: Vec::new() };
        proof {
            assert(r@.children.dom() =~= Set::<Seq<char>>::empty());
            assert(r@.children =~= Map::empty());
        }
        r
    }
}

/// Status of the node reached from `n` along `p`; `Unmanaged` when no such
/// node exists.
pub open spec fn node_status_at(n: Node, p: Seq<Seq<char>>) -> FileStatus
    decreases p.len(),
{
    if p.len() == 0 {
        n.status
    } else if n.children.contains_key(p[0]) {
        node_status_at(n.children[p[0]], p.skip(1))
    } else {
        FileStatus::Unmanaged
    }
}

/// Whether a node exists at `p` below `n`.
pub open spec fn node_has(n: Node, p: Seq<Seq<char>>) -> bool
    decreases p.len(),
{
    if p.len() == 0 {
        true
    } else if n.children.contains_key(p[0]) {
        node_has(n.children[p[0]], p.skip(1))
    } else {
        false
    }
}

/// For every entry index of a uniquely-keyed list, `key_index` finds exactly
/// that index.
pub proof fn lemma_key_index(cs: Seq<(String, FileTree)>, i: int)
    requires
        uniq_keys(cs),
        0 <= i < cs.len(),
    ensures
        has_key(cs, cs[i].0@),
        key_index(cs, cs[i].0@) == i,
{
    let k = cs[i].0@;
    assert(has_key(cs, k));
    let w = key_index(cs, k);
    assert(0 <= w < cs.len() && cs[w].0@ == k);
    if w < i {
        assert(cs[w].0@ != cs[i].0@);
    } else if i < w {
        assert(cs[i].0@ != cs[w].0@);
    }
}

/// The model child reached under the name of the `i`th entry is the model of
/// that entry's subtree.
pub proof fn lemma_view_child(t: FileTree, i: int)
    requires
        uniq_keys(t.nested@),
        0 <= i < t.nested@.len(),
    ensures
        t@.children.contains_key(t.nested@[i].0@),
        t@.children[t.nested@[i].0@] == t.nested@[i].1@,
{
    lemma_key_index(t.nested@, i);
}

/// Replacing the subtree of one entry, keeping its name, updates the children
/// view at exactly that name.
pub proof fn lemma_children_view_update(
    os: Seq<(String, FileTree)>,
    ns: Seq<(String, FileTree)>,
    j: int,
)
    requires
        uniq_keys(os),
        0 <= j < os.len(),
        ns.len() == os.len(),
        forall|m: int| 0 <= m < os.len() && m != j ==> ns[m] == os[m],
        ns[j].0@ == os[j].0@,
    ensures
        uniq_keys(ns),
        children_view(ns) == children_view(os).insert(os[j].0@, tree_view(ns[j].1)),
{
    let k = os[j].0@;
    assert forall|m: int| 0 <= m < ns.len() implies ns[m].0@ == os[m].0@ by {}
    assert(uniq_keys(ns));
    assert forall|k2: Seq<char>| has_key(ns, k2) == (has_key(os, k2) || k2 == k) by {
        if has_key(ns, k2) {
            let w = choose|w: int| 0 <= w < ns.len() && ns[w].0@ == k2;
            assert(os[w].0@ == k2);
            assert(has_key(os, k2));
        }
        if has_key(os, k2) {
            let w = choose|w: int| 0 <= w < os.len() && os[w].0@ == k2;
            assert(ns[w].0@ == k2);
            assert(has_key(ns, k2));
        }
        if k2 == k {
            assert(os[j].0@ == k2);
            assert(has_key(os, k2));
        }
    }
    assert(children_view(ns).dom() =~= children_view(os).insert(k, tree_view(ns[j].1)).dom());
    assert forall|k2: Seq<char>| #[trigger]
        children_view(ns).contains_key(k2) implies children_view(ns)[k2] == children_view(
        os,
    ).insert(k, tree_view(ns[j].1))[k2] by {
        let w = key_index(ns, k2);
        assert(0 <= w < ns.len() && ns[w].0@ == k2);
        if k2 == k {
            lemma_key_index(ns, j);
            assert(children_view(ns)[k2] == tree_view(ns[j].1));
        } else {
            assert(w != j);
            assert(os[w].0@ == k2);
            lemma_key_index(ns, w);
            lemma_key_index(os, w);
            assert(children_view(ns)[k2] == tree_view(ns[w].1));
            assert(children_view(os)[k2] == tree_view(os[w].1));
            assert(ns[w] == os[w]);
        }
    }
    assert(children_view(ns) =~= children_view(os).insert(k, tree_view(ns[j].1)));
}

/// Appending an entry under a fresh name inserts exactly that name into the
/// children view.
pub proof fn lemma_children_view_push(os: Seq<(String, FileTree)>, entry: (String, FileTree))
    requires
        uniq_keys(os),
        !has_key(os, entry.0@),
    ensures
        uniq_keys(os.push(entry)),
        children_view(os.push(entry)) == children_view(os).insert(entry.0@, tree_view(entry.1)),
{
    let k = entry.0@;
    let ns = os.push(entry);
    assert(ns[os.len() as int] == entry);
    assert forall|a: int, b: int| 0 <= a < b < ns.len() implies ns[a].0@ != ns[b].0@ by {
        if b == os.len() {
            assert(ns[a] == os[a]);
            assert(ns[b].0@ == k);
        } else {
            assert(ns[a] == os[a] && ns[b] == os[b]);
        }
    }
    assert(uniq_keys(ns));
    assert forall|k2: Seq<char>| has_key(ns, k2) == (has_key(os, k2) || k2 == k) by {
        if has_key(ns, k2) {
            let w = choose|w: int| 0 <= w < ns.len() && ns[w].0@ == k2;
            if w < os.len() {
                assert(os[w].0@ == k2);
                assert(has_key(os, k2));
            } else {
                assert(k2 == k);
            }
        }
        if has_key(os, k2) {
            let w = choose|w: int| 0 <= w < os.len() && os[w].0@ == k2;
            assert(ns[w].0@ == k2);
            assert(has_key(ns, k2));
        }
        if k2 == k {
            assert(has_key(ns, k2));
        }
    }
    assert(children_view(ns).dom() =~= children_view(os).insert(k, tree_view(entry.1)).dom());
    assert forall|k2: Seq<char>| #[trigger]
        children_view(ns).contains_key(k2) implies children_view(ns)[k2] == children_view(
        os,
    ).insert(k, tree_view(entry.1))[k2] by {
        let w = key_index(ns, k2);
        assert(0 <= w < ns.len() && ns[w].0@ == k2);
        if k2 == k {
            lemma_key_index(ns, os.len() as int);
            assert(children_view(ns)[k2] == tree_view(entry.1));
        } else {
            assert(w != os.len());
            assert(os[w].0@ == k2);
            lemma_key_index(ns, w);
            lemma_key_index(os, w);
            assert(ns[w] == os[w]);
        }
    }
    assert(children_view(ns) =~= children_view(os).insert(k, tree_view(entry.1)));
}

/// Dropping one entry removes exactly its name from the children view.
pub proof fn lemma_children_view_remove(os: Seq<(String, FileTree)>, j: int)
    requires
        uniq_keys(os),
        0 <= j < os.len(),
    ensures
        uniq_keys(os.remove(j)),
        children_view(os.remove(j)) == children_view(os).remove(os[j].0@),
{
    let k = os[j].0@;
    let ns = os.remove(j);
    assert forall|a: int, b: int| 0 <= a < b < ns.len() implies ns[a].0@ != ns[b].0@ by {
        let a2 = if a < j {
            a
        } else {
            a + 1
        };
        let b2 = if b < j {
            b
        } else {
            b + 1
        };
        assert(ns[a] == os[a2] && ns[b] == os[b2]);
    }
    assert(uniq_keys(ns));
    assert forall|k2: Seq<char>| has_key(ns, k2) == (has_key(os, k2) && k2 != k) by {
        if has_key(ns, k2) {
            let w = choose|w: int| 0 <= w < ns.len() && (#[trigger] ns[w]).0@ == k2;
            let w2 = if w < j {
                w
            } else {
                w + 1
            };
            assert(os[w2].0@ == k2);
            assert(has_key(os, k2));
            assert(k2 != k) by {
                if w2 < j {
                    assert(os[w2].0@ != os[j].0@);
                } else {
                    assert(os[j].0@ != os[w2].0@);
                }
            }
        }
        if has_key(os, k2) && k2 != k {
            let w = choose|w: int| 0 <= w < os.len() && (#[trigger] os[w]).0@ == k2;
            assert(w != j);
            let w2 = if w < j {
                w
            } else {
                w - 1
            };
            assert(ns[w2].0@ == k2);
            assert(has_key(ns, k2));
        }
    }
    assert(children_view(ns).dom() =~= children_view(os).remove(k).dom());
    assert forall|k2: Seq<char>| #[trigger]
        children_view(ns).contains_key(k2) implies children_view(ns)[k2] == children_view(
        os,
    ).remove(k)[k2] by {
        let w = key_index(ns, k2);
        assert(0 <= w < ns.len() && ns[w].0@ == k2);
        let w2 = if w < j {
            w
        } else {
            w + 1
        };
        assert(ns[w] == os[w2]);
        lemma_key_index(ns, w);
        lemma_key_index(os, w2);
        assert(children_view(ns)[k2] == tree_view(ns[w].1));
        assert(children_view(os)[k2] == tree_view(os[w2].1));
    }
    assert(children_view(ns) =~= children_view(os).remove(k));
}

/// Registering a path relabels the leaf with the given status — keeping any
/// subtree below it — and creates missing intermediate nodes as `Unmanaged`,
/// preserving the status of intermediate nodes that already exist.  An empty
/// path leaves the tree unchanged.
pub open spec fn node_register(n: Node, p: Seq<Seq<char>>, st: FileStatus) -> Node
    decreases p.len(),
{
    if p.len() == 0 {
        n
    } else {
        let sub0 = if n.children.contains_key(p[0]) {
            n.children[p[0]]
        } else {
            Node { status: FileStatus::Unmanaged, children: Map::empty() }
        };
        let sub = if p.len() == 1 {
            Node { status: st, children: sub0.children }
        } else {
            node_register(sub0, p.skip(1), st)
        };
        Node { status: n.status, children: n.children.insert(p[0], sub) }
    }
}

/// The chain of fresh nodes that registering the path `p` below a node with
/// no matching child creates: `Unmanaged` intermediates ending in a leaf with
/// status `st`.
pub open spec fn node_chain(p: Seq<Seq<char>>, st: FileStatus) -> Node
    decreases p.len(),
{
    if p.len() <= 1 {
        Node { status: st, children: Map::empty() }
    } else {
        Node {
            status: FileStatus::Unmanaged,
            children: Map::empty().insert(p[1], node_chain(p.skip(1), st)),
        }
    }
}

proof fn lemma_chain_is_register(p: Seq<Seq<char>>, st: FileStatus)
    requires
        p.len() >= 1,
    ensures
        p.len() == 1 ==> node_chain(p, st) == (Node { status: st, children: Map::empty() }),
        p.len() > 1 ==> node_chain(p, st) == node_register(
            Node { status: FileStatus::Unmanaged, children: Map::empty() },
            p.skip(1),
            st,
        ),
    decreases p.len(),
{
    if p.len() > 1 {
        let fresh = Node { status: FileStatus::Unmanaged, children: Map::empty() };
        let q = p.skip(1);
        assert(q.len() >= 1);
        assert(q[0] == p[1]);
        lemma_chain_is_register(q, st);
        if q.len() == 1 {
            assert(node_register(fresh, q, st) == (Node {
                status: FileStatus::Unmanaged,
                children: Map::empty().insert(q[0], Node { status: st, children: Map::empty() }),
            }));
            assert(node_chain(q, st) == (Node { status: st, children: Map::empty() }));
        } else {
            assert(q.skip(1) =~= p.skip(2));
            assert(node_register(fresh, q, st) == (Node {
                status: FileStatus::Unmanaged,
                children: Map::empty().insert(q[0], node_register(fresh, q.skip(1), st)),
            }));
            assert(node_chain(q, st) == node_register(fresh, q.skip(1), st));
        }
        assert(node_chain(p, st) == node_register(fresh, q, st));
    }
}

/// The children of `n` that survive deactivation with decision `d`, where
/// `at` is the absolute path of `n`.
pub open spec fn kept_children(
    n: Node,
    at: Seq<Seq<char>>,
    d: spec_fn(Seq<Seq<char>>, FileStatus) -> bool,
) -> Map<Seq<char>, Node>
    decreases n, 0int,
{
    Map::new(
        |k: Seq<char>|
            n.children.contains_key(k) && node_deactivate(n.children[k], at.push(k), d) is Some,
        |k: Seq<char>|
            if n.children.contains_key(k) && node_deactivate(n.children[k], at.push(k), d)
                is Some {
                node_deactivate(n.children[k], at.push(k), d)->0
            } else {
                empty_node()
            },
    )
}

/// Post-order deactivation of the node `n` standing at path `at`, with `d`
/// deciding, per path and status, whether a managed leaf is deleted.  After
/// the children are processed, a node left without children is pruned when it
/// is unmanaged (a pre-existing directory, never ours to delete), and when it
/// is managed and `d` consents; `None` means the node was pruned.
pub open spec fn node_deactivate(
    n: Node,
    at: Seq<Seq<char>>,
    d: spec_fn(Seq<Seq<char>>, FileStatus) -> bool,
) -> Option<Node>
    decreases n, 1int,
{
    let kept = kept_children(n, at, d);
    let none_left = forall|k: Seq<char>| !(#[trigger] kept.contains_key(k));
    if none_left {
        if n.status.spec_is_managed() {
            if d(at, n.status) {
                None
            } else {
                Some(Node { status: n.status, children: kept })
            }
        } else {
            None
        }
    } else {
        Some(Node { status: n.status, children: kept })
    }
}

/// The model of an optional tree.
pub open spec fn opt_tree_view(r: Option<FileTree>) -> Option<Node> {
    match r {
        Some(t) => Some(tree_view(t)),
        None => None,
    }
}

/// The delete-action closure can be called on any path and status.
pub open spec fn callable<F: Fn(&Vec<String>, &FileStatus) -> bool>(f: F) -> bool {
    forall|a: (&Vec<String>, &FileStatus)| #[trigger] call_requires(f, a)
}

/// Every answer the delete-action closure can give agrees with the decision
/// predicate `d` on the path and status it was asked about.
pub open spec fn decides<F: Fn(&Vec<String>, &FileStatus) -> bool>(
    f: F,
    d: spec_fn(Seq<Seq<char>>, FileStatus) -> bool,
) -> bool {
    forall|a: (&Vec<String>, &FileStatus), b: bool| #[trigger] call_ensures(f, a, b) ==> b == d(
        path_view(a.0@),
        *a.1,
    )
}

/// The set of names of a child list.
pub open spec fn keys_of(cs: Seq<(String, FileTree)>) -> Set<Seq<char>> {
    Set::new(|k: Seq<char>| has_key(cs, k))
}

/// Deactivation of only the subtree standing at the relative path `q` below
/// `n` (whose own absolute path is `at`): the subtree is deactivated
/// post-order and its record dropped when fully pruned; a path not in the
/// tree, or an empty path, changes nothing.
pub open spec fn node_deactivate_at(
    n: Node,
    q: Seq<Seq<char>>,
    at: Seq<Seq<char>>,
    d: spec_fn(Seq<Seq<char>>, FileStatus) -> bool,
) -> Node
    decreases q.len(),
{
    if q.len() == 0 {
        n
    } else if !n.children.contains_key(q[0]) {
        n
    } else if q.len() == 1 {
        match node_deactivate(n.children[q[0]], at.push(q[0]), d) {
            Some(c) => Node { status: n.status, children: n.children.insert(q[0], c) },
            None => Node { status: n.status, children: n.children.remove(q[0]) },
        }
    } else {
        Node {
            status: n.status,
            children: n.children.insert(
                q[0],
                node_deactivate_at(n.children[q[0]], q.skip(1), at.push(q[0]), d),
            ),
        }
    }
}

impl FileTree {
    /// The stored status of the node at `path`, or `Unmanaged` for a path
    /// that is not in the tree.
    pub fn get_status(&self, path: &Vec<String>) -> (r: FileStatus)
        requires
            self.wf_sub(),
        ensures
            r == node_status_at(self@, path_view(path@)),
    {
        let mut cur: &FileTree = self;
        let mut i: usize = 0;
        proof {
            assert(path_view(path@).skip(0) =~= path_view(path@));
        }
        while i < path.len()
            invariant
                0 <= i <= path.len(),
                cur.wf_sub(),
                node_status_at(self@, path_view(path@)) == node_status_at(
                    cur@,
                    path_view(path@).skip(i as int),
                ),
            decreases path.len() - i,
        {
            let mut j: usize = 0;
            let mut found: bool = false;
            while j < cur.nested.len() && !found
                invariant
                    0 <= j <= cur.nested@.len(),
                    i < path@.len(),
                    found ==> j < cur.nested@.len() && cur.nested@[j as int].0@ == path@[i as int]@,
                    !found ==> forall|m: int|
                        0 <= m < j ==> (#[trigger] cur.nested@[m]).0@ != path@[i as int]@,
                decreases cur.nested@.len() - j + (if found {
                    0int
                } else {
                    1int
                }),
            {
                if cur.nested[j].0 == path[i] {
                    found = true;
                } else {
                    j += 1;
                }
            }
            proof {
                assert(path_view(path@).skip(i as int)[0] == path@[i as int]@);
            }
            if !found {
                proof {
                    assert(!has_key(cur.nested@, path_view(path@).skip(i as int)[0]));
                }
                return FileStatus::Unmanaged;
            }
            proof {
                let k = path_view(path@).skip(i as int)[0];
                assert(cur.nested@[j as int].0@ == k);
                assert(has_key(cur.nested@, k));
                assert(key_index(cur.nested@, k) == j as int) by {
                    let w = key_index(cur.nested@, k);
                    assert(0 <= w < cur.nested@.len() && cur.nested@[w].0@ == k);
                }
                assert(cur@.children[k] == cur.nested@[j as int].1@);
                assert(path_view(path@).skip(i as int).skip(1) =~= path_view(path@).skip(
                    i as int + 1,
                ));
            }
            cur = &cur.nested[j].1;
            i += 1;
        }
        proof {
            assert(path_view(path@).skip(i as int) =~= Seq::<Seq<char>>::empty());
        }
        cur.status
    }

    /// Register `path` in the tree with status `status` at the leaf.  The
    /// leaf's status is overwritten if the node already exists; existing
    /// intermediate nodes keep their status; missing intermediate nodes are
    /// created as `Unmanaged`.  An empty path returns the tree unchanged.
    pub fn register_entry(self, path: &Vec<String>, status: FileStatus) -> (r: Self)
        requires
            self.wf_sub(),
            wf_components(path_view(path@)),
        ensures
            r@ == node_register(self@, path_view(path@), status),
            r.wf_sub(),
            r.path@ == self.path@,
            r.status == self.status,
    {
        proof {
            assert(path_view(path@).skip(0) =~= path_view(path@));
        }
        register_rec(self, path, 0, status)
    }

    /// Register `path` with the plain `Managed` status.
    pub fn register_managed_entry(self, path: &Vec<String>) -> (r: Self)
        requires
            self.wf_sub(),
            wf_components(path_view(path@)),
        ensures
            r@ == node_register(self@, path_view(path@), FileStatus::Managed),
            r.wf_sub(),
            r.path@ == self.path@,
            r.status == self.status,
    {
        self.register_entry(path, FileStatus::Managed)
    }

    /// Whether the node at `path` is managed by the tool (with or without a
    /// backup).  Paths absent from the tree are unmanaged.
    pub fn is_managed(&self, path: &Vec<String>) -> (r: bool)
        requires
            self.wf_sub(),
        ensures
            r == node_status_at(self@, path_view(path@)).spec_is_managed(),
    {
        let st = self.get_status(path);
        st.is_managed_status()
    }
}

/// Deep copy of a tree: snapshots are taken by cloning at generation
/// boundaries, so that diffing one generation against another never observes
/// the other's changes.
#[verifier::loop_isolation(false)]
fn clone_tree(t: &FileTree) -> (r: FileTree)
    ensures
        r.path@ == t.path@,
        r.status == t.status,
        t.wf_sub() ==> r@ == t@ && r.wf_sub(),
    decreases *t,
{
    let mut nested: Vec<(String, FileTree)> = Vec::new();
    let mut i: usize = 0;
    while i < t.nested.len()
        invariant
            0 <= i <= t.nested@.len(),
            nested@.len() == i,
            forall|m: int|
                0 <= m < i ==> {
                    &&& (#[trigger] nested@[m]).0@ == t.nested@[m].0@
                    &&& nested@[m].1.path@ == t.nested@[m].1.path@
                    &&& nested@[m].1.status == t.nested@[m].1.status
                    &&& (t.nested@[m].1.wf_sub() ==> nested@[m].1@ == t.nested@[m].1@
                        && nested@[m].1.wf_sub())
                },
        decreases t.nested@.len() - i,
    {
        proof {
            assert(decreases_to!(*t => t.nested));
            assert(decreases_to!(t.nested => t.nested@));
            assert(decreases_to!(t.nested@ => t.nested@[i as int]));
            assert(decreases_to!(t.nested@[i as int] => t.nested@[i as int].1));
        }
        let sub = clone_tree(&t.nested[i].1);
        nested.push((t.nested[i].0.clone(), sub));
        i += 1;
    }
    let r = FileTree { status: t.status, path: clone_components(&t.path), nested };
    proof {
        if t.wf_sub() {
            let ns = r.nested@;
            let os = t.nested@;
            assert forall|m: int| 0 <= m < ns.len() implies ns[m].0@ == os[m].0@ by {}
            assert(uniq_keys(ns)) by {
                assert forall|a: int, b: int| 0 <= a < b < ns.len() implies ns[a].0@ != ns[b].0@ by {
                    assert(os[a].0@ != os[b].0@);
                }
            }
            assert(r.wf_sub()) by {
                assert forall|m: int| 0 <= m < ns.len() implies {
                    &&& is_normal_component((#[trigger] ns[m]).0@)
                    &&& path_view(ns[m].1.path@) == path_view(r.path@).push(ns[m].0@)
                    &&& ns[m].1.wf_sub()
                } by {
                    assert(os[m] == t.nested@[m]);
                }
            }
            assert(r@.children.dom() =~= t@.children.dom()) by {
                assert forall|k2: Seq<char>| has_key(ns, k2) == has_key(os, k2) by {
                    if has_key(ns, k2) {
                        let w = choose|w: int| 0 <= w < ns.len() && (#[trigger] ns[w]).0@ == k2;
                        assert(os[w].0@ == k2);
                    }
                    if has_key(os, k2) {
                        let w = choose|w: int| 0 <= w < os.len() && (#[trigger] os[w]).0@ == k2;
                        assert(ns[w].0@ == k2);
                    }
                }
            }
            assert forall|k2: Seq<char>| #[trigger]
                r@.children.contains_key(k2) implies r@.children[k2] == t@.children[k2] by {
                let w = key_index(ns, k2);
                assert(0 <= w < ns.len() && ns[w].0@ == k2);
                lemma_key_index(ns, w);
                lemma_key_index(os, w);
                assert(r@.children[k2] == ns[w].1@);
                assert(t@.children[k2] == os[w].1@);
            }
            assert(r@.children =~= t@.children);
            assert(r@ =~= t@);
        }
    }
    r
}

impl Clone for FileTree {
    /// A deep copy; on a well-formed tree the copy carries the same model.
    fn clone(&self) -> (r: Self)
        ensures
            r.path@ == self.path@,
            r.status == self.status,
            self.wf_sub() ==> r@ == self@ && r.wf_sub(),
    {
        clone_tree(self)
    }
}

/// Copy a component vector.
fn clone_components(v: &Vec<String>) -> (r: Vec<String>)
    ensures
        r@ == v@,
{
    let mut r: Vec<String> = Vec::new();
    let mut i: usize = 0;
    while i < v.len()
        invariant
            0 <= i <= v@.len(),
            r@.len() == i,
            forall|m: int| 0 <= m < i ==> r@[m] == v@[m],
        decreases v@.len() - i,
    {
        r.push(v[i].clone());
        i += 1;
    }
    proof {
        assert(r@ =~= v@);
    }
    r
}

/// Build the fresh chain of nodes for the path suffix `comps[i..]` below a
/// node whose path is `parent_path`: `Unmanaged` intermediates and a leaf
/// with status `st`.
fn build_chain(parent_path: &Vec<String>, comps: &Vec<String>, i: usize, st: FileStatus) -> (r: (
    String,
    FileTree,
))
    requires
        i < comps@.len(),
        wf_components(path_view(comps@)),
    ensures
        r.0@ == comps@[i as int]@,
        r.1@ == node_chain(path_view(comps@).skip(i as int), st),
        r.1.wf_sub(),
        path_view(r.1.path@) == path_view(parent_path@).push(comps@[i as int]@),
    decreases comps@.len() - i,
{
    let n = comps.len();
    let mut name_path: Vec<String> = clone_components(parent_path);
    name_path.push(comps[i].clone());
    let name: String = comps[i].clone();
    let ghost p = path_view(comps@).skip(i as int);
    proof {
        assert(p[0] == comps@[i as int]@);
        assert(path_view(name_path@) =~= path_view(parent_path@).push(comps@[i as int]@));
    }
    if i + 1 == n {
        let t = FileTree { status: st, path: name_path, nested: Vec::new() };
        proof {
            assert(p.len() == 1);
            assert(t@.children.dom() =~= Set::<Seq<char>>::empty());
            assert(t@.children =~= Map::empty());
            assert(t@ =~= node_chain(p, st));
        }
        (name, t)
    } else {
        let child = build_chain(&name_path, comps, i + 1, st);
        let ghost childname = comps@[i as int + 1]@;
        let mut nested: Vec<(String, FileTree)> = Vec::new();
        nested.push(child);
        let t = FileTree { status: FileStatus::Unmanaged, path: name_path, nested };
        proof {
            assert(p.len() > 1);
            assert(path_view(comps@).skip(i as int + 1) =~= p.skip(1));
            assert(p[1] == comps@[i as int + 1]@);
            assert(t.nested@.len() == 1);
            assert(t.nested@[0].0@ == childname);
            lemma_key_index(t.nested@, 0);
            assert(t@.children.dom() =~= Set::<Seq<char>>::empty().insert(childname));
            assert(t@.children =~= Map::empty().insert(childname, node_chain(p.skip(1), st)));
            assert(t@ =~= node_chain(p, st));
            assert(t.wf_sub());
        }
        (name, t)
    }
}

/// Rebuild `t` with the path suffix `comps[i..]` registered, labelling the
/// leaf `st`.
fn register_rec(t: FileTree, comps: &Vec<String>, i: usize, st: FileStatus) -> (r: FileTree)
    requires
        t.wf_sub(),
        wf_components(path_view(comps@)),
        i <= comps@.len(),
    ensures
        r@ == node_register(t@, path_view(comps@).skip(i as int), st),
        r.wf_sub(),
        r.path@ == t.path@,
        r.status == t.status,
    decreases comps@.len() - i,
{
    let ghost p = path_view(comps@).skip(i as int);
    let n = comps.len();
    if i == n {
        proof {
            assert(p =~= Seq::<Seq<char>>::empty());
        }
        return t;
    }
    let ghost k = comps@[i as int]@;
    proof {
        assert(p[0] == k);
    }
    let ghost old_t = t;
    let FileTree { status, path, nested } = t;
    let mut nested = nested;
    let mut j: usize = 0;
    let mut found: bool = false;
    while j < nested.len() && !found
        invariant
            0 <= j <= nested@.len(),
            i < comps@.len(),
            k == comps@[i as int]@,
            nested@ == old_t.nested@,
            found ==> j < nested@.len() && nested@[j as int].0@ == k,
            !found ==> forall|m: int| 0 <= m < j ==> (#[trigger] nested@[m]).0@ != k,
        decreases nested@.len() - j + (if found {
            0int
        } else {
            1int
        }),
    {
        if nested[j].0 == comps[i] {
            found = true;
        } else {
            j += 1;
        }
    }
    if found {
        let (name, sub) = nested.remove(j);
        proof {
            lemma_key_index(old_t.nested@, j as int);
            lemma_view_child(old_t, j as int);
        }
        let ghost g_sub = sub;
        let newsub: FileTree = if i + 1 == n {
            let FileTree { status: _, path: spath, nested: snested } = sub;
            let ns = FileTree { status: st, path: spath, nested: snested };
            proof {
                assert(ns@.children =~= g_sub@.children);
                assert(p.len() == 1);
                assert(ns@ =~= (Node { status: st, children: g_sub@.children }));
                assert(old_t.nested@[j as int].1.wf_sub());
                assert(ns.nested@ == g_sub.nested@);
                assert(path_view(ns.path@) == path_view(g_sub.path@));
                assert(ns.wf_sub());
            }
            ns
        } else {
            proof {
                assert(path_view(comps@).skip(i as int + 1) =~= p.skip(1));
            }
            register_rec(sub, comps, i + 1, st)
        };
        nested.insert(j, (name, newsub));
        let r = FileTree { status, path, nested };
        proof {
            let ns = r.nested@;
            let os = old_t.nested@;
            assert(ns =~= os.update(j as int, (os[j as int].0, newsub)));
            lemma_children_view_update(os, ns, j as int);
            assert forall|m: int| 0 <= m < ns.len() implies {
                &&& is_normal_component((#[trigger] ns[m]).0@)
                &&& path_view(ns[m].1.path@) == path_view(r.path@).push(ns[m].0@)
                &&& ns[m].1.wf_sub()
            } by {
                if m != j as int {
                    assert(ns[m] == os[m]);
                    assert(os[m] == old_t.nested@[m]);
                } else {
                    assert(os[j as int] == old_t.nested@[j as int]);
                    assert(g_sub == old_t.nested@[j as int].1);
                    assert(ns[m].1 == newsub);
                    assert(path_view(newsub.path@) == path_view(g_sub.path@));
                    assert(path_view(old_t.path@).push(os[j as int].0@) == path_view(
                        g_sub.path@,
                    ));
                }
            }
            assert(r.wf_sub());
            let goal = node_register(old_t@, p, st);
            assert(goal.children == old_t@.children.insert(k, newsub@));
            lemma_tree_view_children(r);
            lemma_tree_view_children(old_t);
            assert(r@.children == children_view(os).insert(k, newsub@));
            assert(r@ =~= goal);
        }
        r
    } else {
        let entry = build_chain(&path, comps, i, st);
        proof {
            assert(!has_key(old_t.nested@, k));
            lemma_chain_is_register(p, st);
        }
        nested.push(entry);
        let r = FileTree { status, path, nested };
        proof {
            let ns = r.nested@;
            let os = old_t.nested@;
            assert(ns =~= os.push(entry));
            lemma_children_view_push(os, entry);
            assert forall|m: int| 0 <= m < ns.len() implies {
                &&& is_normal_component((#[trigger] ns[m]).0@)
                &&& path_view(ns[m].1.path@) == path_view(r.path@).push(ns[m].0@)
                &&& ns[m].1.wf_sub()
            } by {
                if m < os.len() {
                    assert(ns[m] == os[m]);
                } else {
                    assert(ns[m] == entry);
                }
            }
            assert(r.wf_sub());
            let goal = node_register(old_t@, p, st);
            let fresh = Node { status: FileStatus::Unmanaged, children: Map::empty() };
            assert(goal.children == old_t@.children.insert(k, entry.1@)) by {
                if p.len() == 1 {
                    assert(entry.1@ == (Node { status: st, children: fresh.children }));
                } else {
                    assert(entry.1@ == node_register(fresh, p.skip(1), st));
                }
            }
            lemma_tree_view_children(r);
            lemma_tree_view_children(old_t);
            assert(r@.children == children_view(os).insert(k, entry.1@));
            assert(r@ =~= goal);
        }
        r
    }
}

/// The children of the tree that diffing `n` against the previous generation
/// `prev` produces: children only in `n` are kept as they are; children in
/// both are recursively diffed, their status folded with the status the
/// previous generation recorded; children only in `prev` are deactivated and
/// kept only where some node refused deletion.
pub open spec fn updated_children(
    n: Node,
    prev: Node,
    at: Seq<Seq<char>>,
    d: spec_fn(Seq<Seq<char>>, FileStatus) -> bool,
) -> Map<Seq<char>, Node>
    decreases prev, 0int,
{
    Map::new(
        |k: Seq<char>|
            n.children.contains_key(k) || (prev.children.contains_key(k) && node_deactivate(
                prev.children[k],
                at.push(k),
                d,
            ) is Some),
        |k: Seq<char>|
            if n.children.contains_key(k) && !prev.children.contains_key(k) {
                n.children[k]
            } else if n.children.contains_key(k) && prev.children.contains_key(k) {
                let m = node_update(n.children[k], prev.children[k], at.push(k), d);
                Node {
                    status: m.status.spec_merge(prev.children[k].status),
                    children: m.children,
                }
            } else if prev.children.contains_key(k) && node_deactivate(
                prev.children[k],
                at.push(k),
                d,
            ) is Some {
                node_deactivate(prev.children[k], at.push(k), d)->0
            } else {
                empty_node()
            },
    )
}

/// Diffing `n` against the previous generation `prev`: the relative
/// complement of `prev` in `n` is deactivated, common subtrees are merged
/// recursively, and the node's own status is kept.
pub open spec fn node_update(
    n: Node,
    prev: Node,
    at: Seq<Seq<char>>,
    d: spec_fn(Seq<Seq<char>>, FileStatus) -> bool,
) -> Node
    decreases prev, 1int,
{
    Node { status: n.status, children: updated_children(n, prev, at, d) }
}

/// Intermediate shape of the child list while the previous generation's
/// children are folded in one at a time: children of `a` whose name was not
/// processed yet are still untouched, processed names already carry their
/// final value from `goal`, and no other name is present.
pub open spec fn update_partial(
    cur: Map<Seq<char>, Node>,
    a: Node,
    bproc: Set<Seq<char>>,
    goal: Map<Seq<char>, Node>,
) -> bool {
    forall|k: Seq<char>|
        #![auto]
        {
            &&& (a.children.contains_key(k) && !bproc.contains(k) ==> cur.contains_key(k) && cur[k]
                == a.children[k])
            &&& (bproc.contains(k) ==> (cur.contains_key(k) <==> goal.contains_key(k)) && (
            goal.contains_key(k) ==> cur[k] == goal[k]))
            &&& (!a.children.contains_key(k) && !bproc.contains(k) ==> !cur.contains_key(k))
        }
}

/// Rebuild `t` after post-order deactivation, calling `f` on every node that
/// ends up a managed leaf; `None` means the whole subtree was pruned.
#[verifier::loop_isolation(false)]
fn deactivate_rec<F: Fn(&Vec<String>, &FileStatus) -> bool>(t: FileTree, f: &F) -> (r: Option<
    FileTree,
>)
    requires
        t.wf_sub(),
        callable(*f),
    ensures
        forall|d: spec_fn(Seq<Seq<char>>, FileStatus) -> bool| #[trigger]
            decides(*f, d) ==> opt_tree_view(r) == node_deactivate(t@, path_view(t.path@), d),
        r is Some ==> (r->0).wf_sub() && (r->0).path@ == t.path@ && (r->0).status == t.status,
    decreases t,
{
    let ghost old_t = t;
    let ghost base = path_view(t.path@);
    let ghost os = t.nested@;
    let FileTree { status, path, nested } = t;
    let mut nested = nested;
    let mut out: Vec<(String, FileTree)> = Vec::new();
    proof {
        assert(nested@ =~= os.skip(0));
        assert(keys_of(os.take(0)) =~= Set::<Seq<char>>::empty());
        assert forall|d: spec_fn(Seq<Seq<char>>, FileStatus) -> bool| #[trigger]
            decides(*f, d) implies children_view(out@) == kept_children(old_t@, base, d).restrict(
            keys_of(os.take(0)),
        ) by {
            assert(children_view(out@).dom() =~= kept_children(old_t@, base, d).restrict(
                keys_of(os.take(0)),
            ).dom());
            assert(children_view(out@) =~= kept_children(old_t@, base, d).restrict(
                keys_of(os.take(0)),
            ));
        }
    }
    while nested.len() > 0
        invariant
            callable(*f),
            old_t.wf_sub(),
            base == path_view(old_t.path@),
            os == old_t.nested@,
            nested@.len() <= os.len(),
            nested@ == os.skip(os.len() - nested@.len()),
            uniq_keys(out@),
            forall|w: int|
                0 <= w < out@.len() ==> has_key(
                    os.take(os.len() - nested@.len()),
                    (#[trigger] out@[w]).0@,
                ),
            forall|w: int|
                0 <= w < out@.len() ==> {
                    &&& is_normal_component((#[trigger] out@[w]).0@)
                    &&& path_view(out@[w].1.path@) == base.push(out@[w].0@)
                    &&& out@[w].1.wf_sub()
                },
            forall|d: spec_fn(Seq<Seq<char>>, FileStatus) -> bool| #[trigger]
                decides(*f, d) ==> children_view(out@) == kept_children(old_t@, base, d).restrict(
                    keys_of(os.take(os.len() - nested@.len())),
                ),
        decreases nested@.len(),
    {
        let ghost m = os.len() - nested@.len();
        let (name, child) = nested.remove(0);
        let ghost k = name@;
        proof {
            assert(os.skip(m)[0] == os[m]);
            assert((name, child) == os[m]);
            assert(nested@ =~= os.skip(m + 1));
            assert(os[m].1.wf_sub());
            assert(decreases_to!(old_t => old_t.nested));
            assert(decreases_to!(old_t.nested => old_t.nested@));
            assert(decreases_to!(old_t.nested@ => old_t.nested@[m]));
            assert(decreases_to!(old_t.nested@[m] => old_t.nested@[m].1));
            assert(decreases_to!(old_t => child));
            assert(path_view(child.path@) == base.push(k));
            lemma_view_child(old_t, m);
        }
        let ghost old_out = out@;
        let sub = deactivate_rec(child, f);
        proof {
            // the name of this entry is new to `out`
            assert(!has_key(old_out, k)) by {
                if has_key(old_out, k) {
                    let w = choose|w: int| 0 <= w < old_out.len() && old_out[w].0@ == k;
                    assert(has_key(os.take(m), k));
                    let v = choose|v: int| 0 <= v < os.take(m).len() && os.take(m)[v].0@ == k;
                    assert(os[v].0@ == os[m].0@);
                }
            }
        }
        match sub {
            Some(c) => {
                out.push((name, c));
                proof {
                    let entry = (out@[out@.len() - 1].0, c);
                    assert(out@ =~= old_out.push(out@[out@.len() - 1]));
                    assert(out@[out@.len() - 1].0@ == k);
                    lemma_children_view_push(old_out, out@[out@.len() - 1]);
                    assert forall|w: int| 0 <= w < out@.len() implies has_key(
                        os.take(m + 1),
                        (#[trigger] out@[w]).0@,
                    ) by {
                        if w < out@.len() - 1 {
                            let v = choose|v: int|
                                0 <= v < os.take(m).len() && (#[trigger] os.take(m)[v]).0@ == out@[w].0@;
                            assert(os.take(m + 1)[v].0@ == out@[w].0@);
                        } else {
                            assert(os.take(m + 1)[m].0@ == k);
                        }
                    }
                    assert forall|d: spec_fn(Seq<Seq<char>>, FileStatus) -> bool| #[trigger]
                        decides(*f, d) implies children_view(out@) == kept_children(
                        old_t@,
                        base,
                        d,
                    ).restrict(keys_of(os.take(m + 1))) by {
                        let kept = kept_children(old_t@, base, d);
                        assert(opt_tree_view(sub) == node_deactivate(child@, base.push(k), d));
                        assert(old_t@.children[k] == child@);
                        assert(kept.contains_key(k));
                        assert(kept[k] == c@);
                        assert(children_view(old_out) == kept.restrict(keys_of(os.take(m))));
                        assert forall|k2: Seq<char>| #[trigger]
                            keys_of(os.take(m + 1)).contains(k2) <==> keys_of(
                            os.take(m),
                        ).contains(k2) || k2 == k by {
                            if has_key(os.take(m + 1), k2) {
                                let v = choose|v: int|
                                    0 <= v < os.take(m + 1).len() && (#[trigger] os.take(m + 1)[v]).0@ == k2;
                                if v < m {
                                    assert(os.take(m)[v].0@ == k2);
                                } else {
                                    assert(k2 == k);
                                }
                            }
                            if has_key(os.take(m), k2) {
                                let v = choose|v: int|
                                    0 <= v < os.take(m).len() && (#[trigger] os.take(m)[v]).0@ == k2;
                                assert(os.take(m + 1)[v].0@ == k2);
                            }
                            if k2 == k {
                                assert(os.take(m + 1)[m].0@ == k);
                            }
                        }
                        assert(children_view(out@) =~= kept.restrict(keys_of(os.take(m + 1))));
                    }
                }
            },
            None => {
                proof {
                    assert forall|d: spec_fn(Seq<Seq<char>>, FileStatus) -> bool| #[trigger]
                        decides(*f, d) implies children_view(out@) == kept_children(
                        old_t@,
                        base,
                        d,
                    ).restrict(keys_of(os.take(m + 1))) by {
                        let kept = kept_children(old_t@, base, d);
                        assert(opt_tree_view(sub) == node_deactivate(child@, base.push(k), d));
                        assert(old_t@.children[k] == child@);
                        assert(!kept.contains_key(k));
                        assert(children_view(out@) == kept.restrict(keys_of(os.take(m))));
                        assert forall|k2: Seq<char>| #[trigger]
                            keys_of(os.take(m + 1)).contains(k2) <==> keys_of(
                            os.take(m),
                        ).contains(k2) || k2 == k by {
                            if has_key(os.take(m + 1), k2) {
                                let v = choose|v: int|
                                    0 <= v < os.take(m + 1).len() && (#[trigger] os.take(m + 1)[v]).0@ == k2;
                                if v < m {
                                    assert(os.take(m)[v].0@ == k2);
                                } else {
                                    assert(k2 == k);
                                }
                            }
                            if has_key(os.take(m), k2) {
                                let v = choose|v: int|
                                    0 <= v < os.take(m).len() && (#[trigger] os.take(m)[v]).0@ == k2;
                                assert(os.take(m + 1)[v].0@ == k2);
                            }
                            if k2 == k {
                                assert(os.take(m + 1)[m].0@ == k);
                            }
                        }
                        assert(kept.restrict(keys_of(os.take(m + 1))) =~= kept.restrict(
                            keys_of(os.take(m)),
                        ));
                    }
                }
            },
        }
    }
    proof {
        assert(os.take(os.len() as int) =~= os);
    }
    let r: Option<FileTree> = if out.len() == 0 {
        if status.is_managed_status() {
            let del = f(&path, &status);
            if del {
                None
            } else {
                Some(FileTree { status, path, nested: out })
            }
        } else {
            None
        }
    } else {
        Some(FileTree { status, path, nested: out })
    };
    proof {
        lemma_tree_view_children(old_t);
        assert forall|d: spec_fn(Seq<Seq<char>>, FileStatus) -> bool| #[trigger]
            decides(*f, d) implies opt_tree_view(r) == node_deactivate(old_t@, base, d) by {
            let kept = kept_children(old_t@, base, d);
            assert(kept.restrict(keys_of(os)) =~= kept) by {
                assert forall|k2: Seq<char>| #[trigger]
                    kept.contains_key(k2) implies keys_of(os).contains(k2) by {
                    assert(old_t@.children.contains_key(k2));
                    assert(children_view(os).contains_key(k2));
                }
            }
            if r is Some {
                let rt = r->0;
                assert(rt.nested@ == out@);
                lemma_tree_view_children(rt);
                assert(rt@.children == kept);
            }
            if out@.len() == 0 {
                assert(forall|k2: Seq<char>| !(#[trigger] kept.contains_key(k2))) by {
                    assert forall|k2: Seq<char>| !(#[trigger] kept.contains_key(k2)) by {
                        if kept.contains_key(k2) {
                            assert(children_view(out@).contains_key(k2));
                            let w = choose|w: int| 0 <= w < out@.len() && out@[w].0@ == k2;
                        }
                    }
                }
            } else {
                let k2 = out@[0].0@;
                assert(has_key(out@, k2));
                assert(children_view(out@).contains_key(k2));
                assert(kept.contains_key(k2));
            }
        }
    }
    r
}

impl FileTree {
    /// Post-order deactivation of the whole tree.  `delete_action` is called
    /// on every node that ends up a managed leaf, and answers whether the
    /// node's path was removed from disk; nodes it refuses stay in the tree.
    /// Unmanaged nodes left without children are pruned silently.  `None`
    /// means every node was pruned.
    pub fn deactivate<F: Fn(&Vec<String>, &FileStatus) -> bool>(self, delete_action: &F) -> (r:
        Option<FileTree>)
        requires
            self.wf_sub(),
            callable(*delete_action),
        ensures
            forall|d: spec_fn(Seq<Seq<char>>, FileStatus) -> bool| #[trigger]
                decides(*delete_action, d) ==> opt_tree_view(r) == node_deactivate(
                    self@,
                    path_view(self.path@),
                    d,
                ),
            r is Some ==> (r->0).wf_sub() && (r->0).path@ == self.path@ && (r->0).status
                == self.status,
    {
        deactivate_rec(self, delete_action)
    }

    /// Compute the new generation's tree from this tree and the previous
    /// generation `other`: paths recorded only in `other` are deactivated
    /// (records of nodes that refused deletion are kept), common subtrees are
    /// merged recursively with the status fold, and paths only in this tree
    /// stay unchanged.
    #[verifier::loop_isolation(false)]
    pub fn update_state<F: Fn(&Vec<String>, &FileStatus) -> bool>(
        self,
        other: Self,
        delete_action: &F,
    ) -> (r: Option<Self>)
        requires
            self.wf_sub(),
            other.wf_sub(),
            path_view(self.path@) == path_view(other.path@),
            callable(*delete_action),
        ensures
            r is Some,
            forall|d: spec_fn(Seq<Seq<char>>, FileStatus) -> bool| #[trigger]
                decides(*delete_action, d) ==> (r->0)@ == node_update(
                    self@,
                    other@,
                    path_view(self.path@),
                    d,
                ),
            (r->0).wf_sub(),
            (r->0).path@ == self.path@,
            (r->0).status == self.status,
        decreases other,
    {
        let f = delete_action;
        let ghost old_self = self;
        let ghost old_other = other;
        let ghost base = path_view(self.path@);
        let ghost b_os = other.nested@;
        let FileTree { status, path, nested } = self;
        let mut nested = nested;
        let FileTree { status: _, path: _, nested: other_nested } = other;
        let mut other_nested = other_nested;
        proof {
            assert(other_nested@ =~= b_os.skip(0));
            assert(keys_of(b_os.take(0)) =~= Set::<Seq<char>>::empty());
            lemma_tree_view_children(old_self);
        }
        while other_nested.len() > 0
            invariant
                callable(*f),
                uniq_keys(nested@),
                other_nested@.len() <= b_os.len(),
                other_nested@ == b_os.skip(b_os.len() - other_nested@.len()),
                forall|w: int|
                    0 <= w < nested@.len() ==> {
                        &&& is_normal_component((#[trigger] nested@[w]).0@)
                        &&& path_view(nested@[w].1.path@) == base.push(nested@[w].0@)
                        &&& nested@[w].1.wf_sub()
                    },
                forall|d: spec_fn(Seq<Seq<char>>, FileStatus) -> bool| #[trigger]
                    decides(*f, d) ==> update_partial(
                        children_view(nested@),
                        old_self@,
                        keys_of(b_os.take(b_os.len() - other_nested@.len())),
                        updated_children(old_self@, old_other@, base, d),
                    ),
            decreases other_nested@.len(),
        {
            let ghost m = b_os.len() - other_nested@.len();
            let (bname, prev_child) = other_nested.remove(0);
            let ghost k = bname@;
            proof {
                assert(b_os.skip(m)[0] == b_os[m]);
                assert((bname, prev_child) == b_os[m]);
                assert(other_nested@ =~= b_os.skip(m + 1));
                assert(b_os[m].1.wf_sub());
                assert(path_view(prev_child.path@) == base.push(k));
                lemma_view_child(old_other, m);
                assert(old_other@.children[k] == prev_child@);
                assert(decreases_to!(old_other => old_other.nested));
                assert(decreases_to!(old_other.nested => old_other.nested@));
                assert(decreases_to!(old_other.nested@ => old_other.nested@[m]));
                assert(decreases_to!(old_other.nested@[m] => old_other.nested@[m].1));
                assert(decreases_to!(old_other => prev_child));
                // processed-key sets grow by exactly `k`
                assert forall|k2: Seq<char>| #[trigger]
                    keys_of(b_os.take(m + 1)).contains(k2) <==> keys_of(b_os.take(m)).contains(k2)
                    || k2 == k by {
                    if has_key(b_os.take(m + 1), k2) {
                        let v = choose|v: int|
                            0 <= v < b_os.take(m + 1).len() && (#[trigger] b_os.take(m + 1)[v]).0@
                                == k2;
                        if v < m {
                            assert(b_os.take(m)[v].0@ == k2);
                        } else {
                            assert(k2 == k);
                        }
                    }
                    if has_key(b_os.take(m), k2) {
                        let v = choose|v: int|
                            0 <= v < b_os.take(m).len() && (#[trigger] b_os.take(m)[v]).0@ == k2;
                        assert(b_os.take(m + 1)[v].0@ == k2);
                    }
                    if k2 == k {
                        assert(b_os.take(m + 1)[m].0@ == k);
                    }
                }
            }
            let pst = prev_child.status;
            let mut j: usize = 0;
            let mut found: bool = false;
            while j < nested.len() && !found
                invariant
                    0 <= j <= nested@.len(),
                    found ==> j < nested@.len() && nested@[j as int].0@ == k,
                    !found ==> forall|w: int| 0 <= w < j ==> (#[trigger] nested@[w]).0@ != k,
                decreases nested@.len() - j + (if found {
                    0int
                } else {
                    1int
                }),
            {
                if nested[j].0 == bname {
                    found = true;
                } else {
                    j += 1;
                }
            }
            let ghost pre = nested@;
            let ghost g_prev = prev_child;
            proof {
                // the name being processed is new to the processed set
                assert(!keys_of(b_os.take(m)).contains(k)) by {
                    if has_key(b_os.take(m), k) {
                        let v = choose|v: int|
                            0 <= v < b_os.take(m).len() && (#[trigger] b_os.take(m)[v]).0@ == k;
                        assert(b_os[v].0@ == b_os[m].0@);
                    }
                }
            }
            if found {
                let (aname, achild) = nested.remove(j);
                let ghost g_achild = achild;
                proof {
                    lemma_key_index(pre, j as int);
                    assert(children_view(pre).contains_key(k));
                    assert(children_view(pre)[k] == achild@);
                    assert(path_view(achild.path@) == base.push(k));
                }
                let u_opt = achild.update_state(prev_child, f);
                let u = u_opt.unwrap();
                let ghost g_u = u;
                let FileTree { status: ust, path: upath, nested: unested } = u;
                let merged_status = ust.merge(&pst);
                let newsub = FileTree { status: merged_status, path: upath, nested: unested };
                let ghost g_new = newsub;
                nested.insert(j, (aname, newsub));
                proof {
                    let ns = nested@;
                    assert(ns =~= pre.update(j as int, (pre[j as int].0, g_new)));
                    lemma_children_view_update(pre, ns, j as int);
                    lemma_tree_view_children(g_new);
                    lemma_tree_view_children(g_u);
                    assert(g_new.nested@ == g_u.nested@);
                    assert(g_new@.children == g_u@.children);
                    assert(g_new.wf_sub()) by {
                        assert(path_view(g_new.path@) == path_view(g_u.path@));
                    }
                    assert(path_view(g_new.path@) == base.push(k));
                    assert forall|w: int| 0 <= w < ns.len() implies {
                        &&& is_normal_component((#[trigger] ns[w]).0@)
                        &&& path_view(ns[w].1.path@) == base.push(ns[w].0@)
                        &&& ns[w].1.wf_sub()
                    } by {
                        if w != j as int {
                            assert(ns[w] == pre[w]);
                        } else {
                            assert(ns[w].0@ == k && ns[w].1 == g_new);
                        }
                    }
                    assert forall|d: spec_fn(Seq<Seq<char>>, FileStatus) -> bool| #[trigger]
                        decides(*f, d) implies update_partial(
                        children_view(ns),
                        old_self@,
                        keys_of(b_os.take(m + 1)),
                        updated_children(old_self@, old_other@, base, d),
                    ) by {
                        let goal = updated_children(old_self@, old_other@, base, d);
                        let bp0 = keys_of(b_os.take(m));
                        let bp1 = keys_of(b_os.take(m + 1));
                        assert(update_partial(children_view(pre), old_self@, bp0, goal));
                        // this name stands in both generations
                        assert(old_self@.children.contains_key(k)) by {
                            if !old_self@.children.contains_key(k) {
                                assert(!children_view(pre).contains_key(k));
                            }
                        }
                        assert(old_other@.children.contains_key(k));
                        assert(children_view(pre)[k] == old_self@.children[k]);
                        assert(g_achild@ == old_self@.children[k]);
                        assert(g_u@ == node_update(g_achild@, g_prev@, base.push(k), d));
                        assert(g_prev@.status == pst);
                        assert(goal.contains_key(k));
                        assert(g_new@ =~= goal[k]);
                        assert(children_view(ns) == children_view(pre).insert(k, g_new@));
                        assert forall|k2: Seq<char>|
                            #![auto]
                            {
                                &&& (old_self@.children.contains_key(k2) && !bp1.contains(k2)
                                    ==> children_view(ns).contains_key(k2) && children_view(ns)[k2]
                                    == old_self@.children[k2])
                                &&& (bp1.contains(k2) ==> (children_view(ns).contains_key(k2)
                                    <==> goal.contains_key(k2)) && (goal.contains_key(k2)
                                    ==> children_view(ns)[k2] == goal[k2]))
                                &&& (!old_self@.children.contains_key(k2) && !bp1.contains(k2)
                                    ==> !children_view(ns).contains_key(k2))
                            } by {
                            if k2 != k {
                                assert(bp1.contains(k2) <==> bp0.contains(k2));
                                if children_view(ns).contains_key(k2) {
                                    assert(children_view(ns)[k2] == children_view(pre)[k2]);
                                }
                            }
                        }
                        assert(update_partial(children_view(ns), old_self@, bp1, goal));
                    }
                }
            } else {
                proof {
                    assert(!has_key(pre, k));
                    assert(!children_view(pre).contains_key(k));
                    assert(is_normal_component(k));
                }
                let sub = deactivate_rec(prev_child, f);
                match sub {
                    Some(c) => {
                        nested.push((bname, c));
                        proof {
                            let ns = nested@;
                            let entry = ns[ns.len() - 1];
                            assert(ns =~= pre.push(entry));
                            assert(entry.0@ == k);
                            lemma_children_view_push(pre, entry);
                            assert forall|w: int| 0 <= w < ns.len() implies {
                                &&& is_normal_component((#[trigger] ns[w]).0@)
                                &&& path_view(ns[w].1.path@) == base.push(ns[w].0@)
                                &&& ns[w].1.wf_sub()
                            } by {
                                if w < pre.len() {
                                    assert(ns[w] == pre[w]);
                                } else {
                                    assert(ns[w] == entry);
                                    assert(path_view(entry.1.path@) == path_view(g_prev.path@));
                                }
                            }
                            assert forall|d: spec_fn(Seq<Seq<char>>, FileStatus) -> bool|
                                #[trigger]
                                decides(*f, d) implies update_partial(
                                children_view(ns),
                                old_self@,
                                keys_of(b_os.take(m + 1)),
                                updated_children(old_self@, old_other@, base, d),
                            ) by {
                                let goal = updated_children(old_self@, old_other@, base, d);
                                let bp0 = keys_of(b_os.take(m));
                                let bp1 = keys_of(b_os.take(m + 1));
                                assert(update_partial(children_view(pre), old_self@, bp0, goal));
                                assert(!old_self@.children.contains_key(k)) by {
                                    if old_self@.children.contains_key(k) {
                                        assert(children_view(pre).contains_key(k));
                                    }
                                }
                                assert(old_other@.children.contains_key(k));
                                assert(opt_tree_view(sub) == node_deactivate(
                                    g_prev@,
                                    base.push(k),
                                    d,
                                ));
                                assert(goal.contains_key(k));
                                assert(goal[k] == entry.1@);
                                assert(children_view(ns) == children_view(pre).insert(
                                    k,
                                    entry.1@,
                                ));
                                assert forall|k2: Seq<char>|
                                    #![auto]
                                    {
                                        &&& (old_self@.children.contains_key(k2) && !bp1.contains(
                                            k2,
                                        ) ==> children_view(ns).contains_key(k2) && children_view(
                                            ns,
                                        )[k2] == old_self@.children[k2])
                                        &&& (bp1.contains(k2) ==> (children_view(
                                            ns,
                                        ).contains_key(k2) <==> goal.contains_key(k2)) && (
                                        goal.contains_key(k2) ==> children_view(ns)[k2]
                                            == goal[k2]))
                                        &&& (!old_self@.children.contains_key(k2)
                                            && !bp1.contains(k2) ==> !children_view(
                                            ns,
                                        ).contains_key(k2))
                                    } by {
                                    if k2 != k {
                                        assert(bp1.contains(k2) <==> bp0.contains(k2));
                                        if children_view(ns).contains_key(k2) {
                                            assert(children_view(ns)[k2] == children_view(
                                                pre,
                                            )[k2]);
                                        }
                                    }
                                }
                                assert(update_partial(children_view(ns), old_self@, bp1, goal));
                            }
                        }
                    },
                    None => {
                        proof {
                            assert forall|d: spec_fn(Seq<Seq<char>>, FileStatus) -> bool|
                                #[trigger]
                                decides(*f, d) implies update_partial(
                                children_view(nested@),
                                old_self@,
                                keys_of(b_os.take(m + 1)),
                                updated_children(old_self@, old_other@, base, d),
                            ) by {
                                let goal = updated_children(old_self@, old_other@, base, d);
                                let bp0 = keys_of(b_os.take(m));
                                let bp1 = keys_of(b_os.take(m + 1));
                                assert(update_partial(children_view(pre), old_self@, bp0, goal));
                                assert(!old_self@.children.contains_key(k)) by {
                                    if old_self@.children.contains_key(k) {
                                        assert(children_view(pre).contains_key(k));
                                    }
                                }
                                assert(old_other@.children.contains_key(k));
                                assert(opt_tree_view(sub) == node_deactivate(
                                    g_prev@,
                                    base.push(k),
                                    d,
                                ));
                                assert(!goal.contains_key(k));
                                assert forall|k2: Seq<char>|
                                    #![auto]
                                    {
                                        &&& (old_self@.children.contains_key(k2) && !bp1.contains(
                                            k2,
                                        ) ==> children_view(nested@).contains_key(k2)
                                            && children_view(nested@)[k2]
                                            == old_self@.children[k2])
                                        &&& (bp1.contains(k2) ==> (children_view(
                                            nested@,
                                        ).contains_key(k2) <==> goal.contains_key(k2)) && (
                                        goal.contains_key(k2) ==> children_view(nested@)[k2]
                                            == goal[k2]))
                                        &&& (!old_self@.children.contains_key(k2)
                                            && !bp1.contains(k2) ==> !children_view(
                                            nested@,
                                        ).contains_key(k2))
                                    } by {
                                    if k2 != k {
                                        assert(bp1.contains(k2) <==> bp0.contains(k2));
                                    }
                                }
                                assert(update_partial(
                                    children_view(nested@),
                                    old_self@,
                                    bp1,
                                    goal,
                                ));
                            }
                        }
                    },
                }
            }
        }
        proof {
            assert(b_os.take(b_os.len() as int) =~= b_os);
        }
        let r = FileTree { status, path, nested };
        proof {
            assert(r.wf_sub());
            lemma_tree_view_children(r);
            lemma_tree_view_children(old_other);
            assert forall|d: spec_fn(Seq<Seq<char>>, FileStatus) -> bool| #[trigger]
                decides(*f, d) implies r@ == node_update(old_self@, old_other@, base, d) by {
                let goal = updated_children(old_self@, old_other@, base, d);
                let bp = keys_of(b_os);
                assert(update_partial(children_view(r.nested@), old_self@, bp, goal));
                assert forall|k2: Seq<char>|
                    #![auto]
                    old_other@.children.contains_key(k2) <==> bp.contains(k2) by {
                    assert(old_other@.children.contains_key(k2) == has_key(b_os, k2));
                }
                assert(r@.children.dom() =~= goal.dom()) by {
                    assert forall|k2: Seq<char>|
                        #![auto]
                        r@.children.contains_key(k2) <==> goal.contains_key(k2) by {
                        if bp.contains(k2) {
                        } else {
                            if old_self@.children.contains_key(k2) {
                                assert(r@.children.contains_key(k2));
                                assert(goal.contains_key(k2));
                            } else {
                                assert(!r@.children.contains_key(k2));
                                assert(!goal.contains_key(k2));
                            }
                        }
                    }
                }
                assert forall|k2: Seq<char>| #[trigger]
                    r@.children.contains_key(k2) implies r@.children[k2] == goal[k2] by {
                    if !bp.contains(k2) {
                        assert(old_self@.children.contains_key(k2));
                        assert(r@.children[k2] == old_self@.children[k2]);
                        assert(goal[k2] == old_self@.children[k2]);
                    }
                }
                assert(r@.children =~= goal);
                assert(r@ =~= node_update(old_self@, old_other@, base, d));
            }
        }
        Some(r)
    }

    /// Deactivate only the subtree standing at `path`, dropping its record
    /// when it is fully pruned.  A path that is not in the tree, or an empty
    /// path, changes nothing.
    pub fn deactivate_managed_entry<F: Fn(&Vec<String>, &FileStatus) -> bool>(
        self,
        path: &Vec<String>,
        delete_action: &F,
    ) -> (r: Self)
        requires
            self.wf_sub(),
            callable(*delete_action),
        ensures
            forall|d: spec_fn(Seq<Seq<char>>, FileStatus) -> bool| #[trigger]
                decides(*delete_action, d) ==> r@ == node_deactivate_at(
                    self@,
                    path_view(path@),
                    path_view(self.path@),
                    d,
                ),
            r.wf_sub(),
            r.path@ == self.path@,
            r.status == self.status,
    {
        proof {
            assert(path_view(path@).skip(0) =~= path_view(path@));
        }
        deactivate_at_rec(self, path, 0, delete_action)
    }
}

/// Rebuild `t` with the subtree at the path suffix `comps[i..]` deactivated.
#[verifier::loop_isolation(false)]
fn deactivate_at_rec<F: Fn(&Vec<String>, &FileStatus) -> bool>(
    t: FileTree,
    comps: &Vec<String>,
    i: usize,
    f: &F,
) -> (r: FileTree)
    requires
        t.wf_sub(),
        callable(*f),
        i <= comps@.len(),
    ensures
        forall|d: spec_fn(Seq<Seq<char>>, FileStatus) -> bool| #[trigger]
            decides(*f, d) ==> r@ == node_deactivate_at(
                t@,
                path_view(comps@).skip(i as int),
                path_view(t.path@),
                d,
            ),
        r.wf_sub(),
        r.path@ == t.path@,
        r.status == t.status,
    decreases comps@.len() - i,
{
    let ghost q = path_view(comps@).skip(i as int);
    let n = comps.len();
    if i == n {
        proof {
            assert(q =~= Seq::<Seq<char>>::empty());
        }
        return t;
    }
    let ghost k = comps@[i as int]@;
    let ghost old_t = t;
    let ghost base = path_view(t.path@);
    proof {
        assert(q[0] == k);
        lemma_tree_view_children(old_t);
    }
    let FileTree { status, path, nested } = t;
    let mut nested = nested;
    let mut j: usize = 0;
    let mut found: bool = false;
    while j < nested.len() && !found
        invariant
            0 <= j <= nested@.len(),
            nested@ == old_t.nested@,
            found ==> j < nested@.len() && nested@[j as int].0@ == k,
            !found ==> forall|m: int| 0 <= m < j ==> (#[trigger] nested@[m]).0@ != k,
        decreases nested@.len() - j + (if found {
            0int
        } else {
            1int
        }),
    {
        if nested[j].0 == comps[i] {
            found = true;
        } else {
            j += 1;
        }
    }
    if !found {
        let r = FileTree { status, path, nested };
        proof {
            assert(!has_key(old_t.nested@, k));
            assert(!old_t@.children.contains_key(k));
            assert(r@ =~= old_t@);
        }
        return r;
    }
    let (name, child) = nested.remove(j);
    proof {
        lemma_key_index(old_t.nested@, j as int);
        lemma_view_child(old_t, j as int);
        assert(old_t.nested@[j as int].1.wf_sub());
        assert(path_view(child.path@) == base.push(k));
    }
    if i + 1 == n {
        let sub = deactivate_rec(child, f);
        match sub {
            Some(c) => {
                nested.insert(j, (name, c));
                let r = FileTree { status, path, nested };
                proof {
                    let ns = r.nested@;
                    let os = old_t.nested@;
                    assert(ns =~= os.update(j as int, (os[j as int].0, c)));
                    lemma_children_view_update(os, ns, j as int);
                    assert forall|m: int| 0 <= m < ns.len() implies {
                        &&& is_normal_component((#[trigger] ns[m]).0@)
                        &&& path_view(ns[m].1.path@) == base.push(ns[m].0@)
                        &&& ns[m].1.wf_sub()
                    } by {
                        if m != j as int {
                            assert(ns[m] == os[m]);
                        } else {
                            assert(ns[m].0@ == k && ns[m].1 == c);
                        }
                    }
                    assert(r.wf_sub());
                    lemma_tree_view_children(r);
                    assert forall|d: spec_fn(Seq<Seq<char>>, FileStatus) -> bool| #[trigger]
                        decides(*f, d) implies r@ == node_deactivate_at(old_t@, q, base, d) by {
                        assert(q.len() == 1);
                        assert(opt_tree_view(sub) == node_deactivate(child@, base.push(k), d));
                        assert(r@.children == old_t@.children.insert(k, c@));
                        assert(r@ =~= node_deactivate_at(old_t@, q, base, d));
                    }
                }
                r
            },
            None => {
                let r = FileTree { status, path, nested };
                proof {
                    let ns = r.nested@;
                    let os = old_t.nested@;
                    lemma_children_view_remove(os, j as int);
                    assert forall|m: int| 0 <= m < ns.len() implies {
                        &&& is_normal_component((#[trigger] ns[m]).0@)
                        &&& path_view(ns[m].1.path@) == base.push(ns[m].0@)
                        &&& ns[m].1.wf_sub()
                    } by {
                        let m2 = if m < j as int {
                            m
                        } else {
                            m + 1
                        };
                        assert(ns[m] == os[m2]);
                    }
                    assert(r.wf_sub());
                    lemma_tree_view_children(r);
                    assert forall|d: spec_fn(Seq<Seq<char>>, FileStatus) -> bool| #[trigger]
                        decides(*f, d) implies r@ == node_deactivate_at(old_t@, q, base, d) by {
                        assert(q.len() == 1);
                        assert(opt_tree_view(sub) == node_deactivate(child@, base.push(k), d));
                        assert(r@.children == old_t@.children.remove(k));
                        assert(r@ =~= node_deactivate_at(old_t@, q, base, d));
                    }
                }
                r
            },
        }
    } else {
        proof {
            assert(path_view(comps@).skip(i as int + 1) =~= q.skip(1));
        }
        let sub = deactivate_at_rec(child, comps, i + 1, f);
        nested.insert(j, (name, sub));
        let r = FileTree { status, path, nested };
        proof {
            let ns = r.nested@;
            let os = old_t.nested@;
            assert(ns =~= os.update(j as int, (os[j as int].0, sub)));
            lemma_children_view_update(os, ns, j as int);
            assert forall|m: int| 0 <= m < ns.len() implies {
                &&& is_normal_component((#[trigger] ns[m]).0@)
                &&& path_view(ns[m].1.path@) == base.push(ns[m].0@)
                &&& ns[m].1.wf_sub()
            } by {
                if m != j as int {
                    assert(ns[m] == os[m]);
                } else {
                    assert(ns[m].0@ == k && ns[m].1 == sub);
                }
            }
            assert(r.wf_sub());
            lemma_tree_view_children(r);
            assert forall|d: spec_fn(Seq<Seq<char>>, FileStatus) -> bool| #[trigger]
                decides(*f, d) implies r@ == node_deactivate_at(old_t@, q, base, d) by {
                assert(q.len() > 1);
                assert(sub@ == node_deactivate_at(child@, q.skip(1), base.push(k), d));
                assert(r@.children == old_t@.children.insert(k, sub@));
                assert(r@ =~= node_deactivate_at(old_t@, q, base, d));
            }
        }
        r
    }
}

} // verus!

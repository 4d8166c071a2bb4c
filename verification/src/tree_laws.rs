//! Laws of the managed-path tree, stated over the ghost model and proved
//! once and for all: what registering guarantees, what deactivation
//! preserves and prunes, the status merge law, and the identity of the
//! generation diff.

use crate::etc_tree::{
    empty_node, kept_children, node_deactivate, node_has, node_register, node_status_at,
    node_update, updated_children, FileStatus, Node,
};
use vstd::prelude::*;

verus! {

/// The node standing at the relative path `q` below `n`; an absent path
/// yields the empty unmanaged node.
pub open spec fn node_at(n: Node, q: Seq<Seq<char>>) -> Node
    decreases q.len(),
{
    if q.len() == 0 {
        n
    } else if n.children.contains_key(q[0]) {
        node_at(n.children[q[0]], q.skip(1))
    } else {
        empty_node()
    }
}

/// A node with no children.
pub open spec fn is_leaf(n: Node) -> bool {
    forall|k: Seq<char>| !(#[trigger] n.children.contains_key(k))
}

/// Every node of the subtree `n`, including `n` itself, is unmanaged.
pub open spec fn all_unmanaged(n: Node) -> bool
    decreases n,
{
    &&& n.status == FileStatus::Unmanaged
    &&& forall|k: Seq<char>| #[trigger]
        n.children.contains_key(k) ==> all_unmanaged(n.children[k])
}

/// Every node of the subtree of `n` that has children is managed, the root
/// `n` itself excepted.
pub open spec fn no_unmanaged_intermediates(n: Node) -> bool {
    forall|k: Seq<char>| #[trigger]
        n.children.contains_key(k) ==> intermediates_managed(n.children[k])
}

pub open spec fn intermediates_managed(n: Node) -> bool
    decreases n,
{
    &&& (!is_leaf(n) ==> n.status.spec_is_managed())
    &&& forall|k: Seq<char>| #[trigger]
        n.children.contains_key(k) ==> intermediates_managed(n.children[k])
}

/// Two sequences with equal heads and equal tails are equal.
proof fn lemma_cons_eq(p: Seq<Seq<char>>, q: Seq<Seq<char>>)
    requires
        p.len() > 0,
        q.len() > 0,
        q[0] == p[0],
        q.skip(1) == p.skip(1),
    ensures
        q == p,
{
    assert(q.skip(1) == q.subrange(1, q.len() as int));
    assert(q.subrange(1, q.len() as int).len() == q.len() - 1);
    assert(p.skip(1) == p.subrange(1, p.len() as int));
    assert(p.subrange(1, p.len() as int).len() == p.len() - 1);
    assert(q.len() == p.len());
    assert forall|i: int| 0 <= i < q.len() implies q[i] == p[i] by {
        if i > 0 {
            assert(0 <= i - 1 < q.len() - 1);
            assert(q.subrange(1, q.len() as int)[i - 1] == q[i]);
            assert(q.skip(1) == q.subrange(1, q.len() as int));
            assert(p.subrange(1, p.len() as int)[i - 1] == p[i]);
            assert(p.skip(1) == p.subrange(1, p.len() as int));
        }
    }
    assert(q =~= p);
}

/// Registering a non-empty path stores the given status at its leaf.
pub proof fn lemma_register_status(n: Node, p: Seq<Seq<char>>, st: FileStatus)
    requires
        p.len() > 0,
    ensures
        node_status_at(node_register(n, p, st), p) == st,
    decreases p.len(),
{
    let r = node_register(n, p, st);
    let sub0 = if n.children.contains_key(p[0]) {
        n.children[p[0]]
    } else {
        empty_node()
    };
    assert(r.children.contains_key(p[0]));
    assert(node_status_at(r, p) == node_status_at(r.children[p[0]], p.skip(1)));
    if p.len() == 1 {
        let sub = Node { status: st, children: sub0.children };
        assert(r.children[p[0]] == sub);
        assert(p.skip(1) =~= Seq::<Seq<char>>::empty());
    } else {
        lemma_register_status(sub0, p.skip(1), st);
        assert(r.children[p[0]] == node_register(sub0, p.skip(1), st));
    }
}

/// Registering a path with the `Managed` status makes that path managed.
pub proof fn lemma_register_is_managed(n: Node, p: Seq<Seq<char>>)
    requires
        p.len() > 0,
    ensures
        node_status_at(node_register(n, p, FileStatus::Managed), p).spec_is_managed(),
{
    lemma_register_status(n, p, FileStatus::Managed);
}

/// Registering a fresh chain leaves every path other than the registered one
/// unmanaged.
proof fn lemma_fresh_register_status(p: Seq<Seq<char>>, q: Seq<Seq<char>>, st: FileStatus)
    requires
        p.len() > 0,
        q != p,
    ensures
        node_status_at(node_register(empty_node(), p, st), q) == FileStatus::Unmanaged,
    decreases p.len(),
{
    let r = node_register(empty_node(), p, st);
    if q.len() == 0 {
        assert(r.status == FileStatus::Unmanaged);
    } else if q[0] != p[0] {
        assert(!r.children.contains_key(q[0]));
    } else {
        let q1 = q.skip(1);
        let p1 = p.skip(1);
        assert(q1 != p1) by {
            if q1 == p1 {
                lemma_cons_eq(p, q);
            }
        }
        assert(r.children.contains_key(q[0]));
        assert(node_status_at(r, q) == node_status_at(r.children[q[0]], q1));
        if p.len() == 1 {
            let sub = Node { status: st, children: empty_node().children };
            assert(r.children[q[0]] == sub);
            assert(q1.len() > 0) by {
                if q1.len() == 0 {
                    assert(q1 =~= p1);
                }
            }
            assert(!sub.children.contains_key(q1[0]));
        } else {
            lemma_fresh_register_status(p1, q1, st);
            assert(r.children[q[0]] == node_register(empty_node(), p1, st));
        }
    }
}

/// Registering a path changes the status of no other path at all, prefixes
/// of the registered path included: intermediate nodes keep their status,
/// and freshly created intermediates are unmanaged, which is also what a
/// missing node reports.
pub proof fn lemma_register_preserves(n: Node, p: Seq<Seq<char>>, q: Seq<Seq<char>>, st: FileStatus)
    requires
        p != q,
    ensures
        node_status_at(node_register(n, p, st), q) == node_status_at(n, q),
    decreases p.len(),
{
    let r = node_register(n, p, st);
    if p.len() == 0 {
        assert(r == n);
    } else if q.len() == 0 {
        assert(r.status == n.status);
    } else {
        if q[0] != p[0] {
            if n.children.contains_key(q[0]) {
                assert(r.children.contains_key(q[0]));
                assert(r.children[q[0]] == n.children[q[0]]);
                assert(node_status_at(r, q) == node_status_at(r.children[q[0]], q.skip(1)));
                assert(node_status_at(n, q) == node_status_at(n.children[q[0]], q.skip(1)));
            } else {
                assert(!r.children.contains_key(q[0]));
            }
        } else {
            let q1 = q.skip(1);
            let p1 = p.skip(1);
            assert(q1 != p1) by {
                if q1 == p1 {
                    lemma_cons_eq(p, q);
                }
            }
            let sub0 = if n.children.contains_key(p[0]) {
                n.children[p[0]]
            } else {
                empty_node()
            };
            assert(r.children.contains_key(q[0]));
            assert(node_status_at(r, q) == node_status_at(r.children[q[0]], q1));
            if n.children.contains_key(p[0]) {
                assert(node_status_at(n, q) == node_status_at(sub0, q1));
                if p.len() == 1 {
                    let sub = Node { status: st, children: sub0.children };
                    assert(r.children[q[0]] == sub);
                    assert(q1.len() > 0) by {
                        if q1.len() == 0 {
                            assert(q =~= p);
                        }
                    }
                    assert(node_status_at(sub, q1) == node_status_at(sub0, q1));
                } else {
                    lemma_register_preserves(sub0, p1, q1, st);
                    assert(r.children[q[0]] == node_register(sub0, p1, st));
                }
            } else {
                assert(!n.children.contains_key(q[0]));
                assert(node_status_at(n, q) == FileStatus::Unmanaged);
                if p.len() == 1 {
                    let sub = Node { status: st, children: empty_node().children };
                    assert(r.children[q[0]] == sub);
                    assert(q1.len() > 0) by {
                        if q1.len() == 0 {
                            assert(q =~= p);
                        }
                    }
                    assert(!sub.children.contains_key(q1[0]));
                } else {
                    lemma_fresh_register_status(p1, q1, st);
                    assert(r.children[q[0]] == node_register(empty_node(), p1, st));
                }
            }
        }
    }
}

/// Registering a path changes the status of no path that is neither the
/// registered path nor one of its prefixes.
pub proof fn lemma_register_no_spillover(n: Node, p: Seq<Seq<char>>, q: Seq<Seq<char>>)
    requires
        p != q,
        !q.is_prefix_of(p),
    ensures
        node_status_at(node_register(n, p, FileStatus::Managed), q) == node_status_at(n, q),
{
    lemma_register_preserves(n, p, q, FileStatus::Managed);
}

/// Registering the same path with the same status twice equals registering it
/// once.
pub proof fn lemma_register_idempotent(n: Node, p: Seq<Seq<char>>)
    ensures
        node_register(node_register(n, p, FileStatus::Managed), p, FileStatus::Managed)
            == node_register(n, p, FileStatus::Managed),
    decreases p.len(),
{
    let st = FileStatus::Managed;
    let r1 = node_register(n, p, st);
    let r2 = node_register(r1, p, st);
    if p.len() == 0 {
    } else {
        let sub0 = if n.children.contains_key(p[0]) {
            n.children[p[0]]
        } else {
            empty_node()
        };
        let sub1 = if p.len() == 1 {
            Node { status: st, children: sub0.children }
        } else {
            node_register(sub0, p.skip(1), st)
        };
        assert(r1.children == n.children.insert(p[0], sub1));
        assert(r1.children.contains_key(p[0]) && r1.children[p[0]] == sub1);
        if p.len() == 1 {
            assert(r2.children =~= r1.children);
            assert(r2 =~= r1);
        } else {
            lemma_register_idempotent(sub0, p.skip(1));
            assert(node_register(sub1, p.skip(1), st) == sub1);
            assert(r2.children =~= r1.children);
            assert(r2 =~= r1);
        }
    }
}

/// A delete action that consents to everything deactivates every subtree
/// completely.
proof fn lemma_deactivate_with_true(
    n: Node,
    at: Seq<Seq<char>>,
    d: spec_fn(Seq<Seq<char>>, FileStatus) -> bool,
)
    requires
        forall|p: Seq<Seq<char>>, s: FileStatus| #[trigger] d(p, s),
    ensures
        node_deactivate(n, at, d) is None,
    decreases n,
{
    let kept = kept_children(n, at, d);
    assert forall|k: Seq<char>| !(#[trigger] kept.contains_key(k)) by {
        if n.children.contains_key(k) {
            lemma_deactivate_with_true(n.children[k], at.push(k), d);
        }
    }
    assert(d(at, n.status));
}

/// Deactivation with a delete action that always consents empties a tree
/// without unmanaged intermediate nodes.
pub proof fn lemma_deactivate_all(n: Node, at: Seq<Seq<char>>)
    requires
        no_unmanaged_intermediates(n),
    ensures
        node_deactivate(n, at, (|p: Seq<Seq<char>>, s: FileStatus| true)) is None,
{
    lemma_deactivate_with_true(n, at, (|p: Seq<Seq<char>>, s: FileStatus| true));
}

/// Deactivation with a delete action that always refuses keeps the whole
/// tree: in particular every managed leaf survives with its status.
pub proof fn lemma_deactivate_none_preserves(n: Node, at: Seq<Seq<char>>, q: Seq<Seq<char>>)
    requires
        node_has(n, q),
        node_status_at(n, q).spec_is_managed(),
        is_leaf(node_at(n, q)),
    ensures
        node_deactivate(n, at, (|p: Seq<Seq<char>>, s: FileStatus| false)) is Some,
        node_status_at(
            node_deactivate(n, at, (|p: Seq<Seq<char>>, s: FileStatus| false))->0,
            q,
        ) == node_status_at(n, q),
    decreases q.len(),
{
    let d = (|p: Seq<Seq<char>>, s: FileStatus| false);
    let kept = kept_children(n, at, d);
    if q.len() == 0 {
        assert(n.status.spec_is_managed());
        assert(forall|k: Seq<char>| !(#[trigger] kept.contains_key(k))) by {
            assert(forall|k: Seq<char>| !(#[trigger] n.children.contains_key(k)));
        }
        assert(!d(at, n.status));
        assert(node_deactivate(n, at, d) == Some(Node { status: n.status, children: kept }));
    } else {
        let k = q[0];
        let child = n.children[k];
        assert(node_has(child, q.skip(1)));
        assert(node_status_at(child, q.skip(1)) == node_status_at(n, q));
        lemma_deactivate_none_preserves(child, at.push(k), q.skip(1));
        assert(kept.contains_key(k));
        assert(kept[k] == node_deactivate(child, at.push(k), d)->0);
        let r = Node { status: n.status, children: kept };
        assert(node_deactivate(n, at, d) == Some(r));
        assert(node_status_at(r, q) == node_status_at(kept[k], q.skip(1)));
    }
}

/// A subtree that is unmanaged throughout deactivates to nothing, whatever
/// the delete action answers.
proof fn lemma_all_unmanaged_deactivates(
    n: Node,
    at: Seq<Seq<char>>,
    d: spec_fn(Seq<Seq<char>>, FileStatus) -> bool,
)
    requires
        all_unmanaged(n),
    ensures
        node_deactivate(n, at, d) is None,
    decreases n,
{
    let kept = kept_children(n, at, d);
    assert forall|k: Seq<char>| !(#[trigger] kept.contains_key(k)) by {
        if n.children.contains_key(k) {
            lemma_all_unmanaged_deactivates(n.children[k], at.push(k), d);
        }
    }
}

/// Pruning law: a subtree reached only through unmanaged intermediate nodes
/// and containing no managed node is pruned by deactivation, whatever the
/// delete action answers.
pub proof fn lemma_prune_unmanaged_subtree(
    n: Node,
    at: Seq<Seq<char>>,
    q: Seq<Seq<char>>,
    d: spec_fn(Seq<Seq<char>>, FileStatus) -> bool,
)
    requires
        q.len() > 0,
        node_has(n, q),
        all_unmanaged(node_at(n, q)),
        forall|m: int| 0 < m < q.len() ==> node_status_at(n, #[trigger] q.take(m))
            == FileStatus::Unmanaged,
    ensures
        node_deactivate(n, at, d) is Some ==> !node_has(node_deactivate(n, at, d)->0, q),
    decreases q.len(),
{
    let kept = kept_children(n, at, d);
    let k = q[0];
    let child = n.children[k];
    if q.len() == 1 {
        assert(node_at(n, q) == node_at(child, q.skip(1)));
        assert(q.skip(1).len() == 0);
        assert(all_unmanaged(child));
        lemma_all_unmanaged_deactivates(child, at.push(k), d);
        assert(!kept.contains_key(k));
        if node_deactivate(n, at, d) is Some {
            let r = node_deactivate(n, at, d)->0;
            assert(r.children == kept);
            assert(!node_has(r, q));
        }
    } else {
        assert(node_has(child, q.skip(1)));
        assert(node_at(child, q.skip(1)) == node_at(n, q));
        assert forall|m: int| 0 < m < q.skip(1).len() implies node_status_at(
            child,
            #[trigger] q.skip(1).take(m),
        ) == FileStatus::Unmanaged by {
            assert(q.take(m + 1).len() == m + 1);
            assert(q.take(m + 1)[0] == k);
            assert(q.take(m + 1).skip(1) =~= q.skip(1).take(m));
            assert(node_status_at(n, q.take(m + 1)) == node_status_at(child, q.skip(1).take(m)));
        }
        lemma_prune_unmanaged_subtree(child, at.push(k), q.skip(1), d);
        if node_deactivate(n, at, d) is Some {
            let r = node_deactivate(n, at, d)->0;
            assert(r.children == kept);
            if kept.contains_key(k) {
                assert(kept[k] == node_deactivate(child, at.push(k), d)->0);
                assert(!node_has(kept[k], q.skip(1)));
            }
        }
    }
}

/// The merge law, confirmed for all nine status pairs: `ManagedWithBackup`
/// absorbs everything, `Managed` absorbs `Unmanaged`, and two `Unmanaged`
/// stay `Unmanaged`.
pub proof fn lemma_merge_law()
    ensures
        FileStatus::Managed.spec_merge(FileStatus::Managed) == FileStatus::Managed,
        FileStatus::Managed.spec_merge(FileStatus::ManagedWithBackup)
            == FileStatus::ManagedWithBackup,
        FileStatus::Managed.spec_merge(FileStatus::Unmanaged) == FileStatus::Managed,
        FileStatus::ManagedWithBackup.spec_merge(FileStatus::Managed)
            == FileStatus::ManagedWithBackup,
        FileStatus::ManagedWithBackup.spec_merge(FileStatus::ManagedWithBackup)
            == FileStatus::ManagedWithBackup,
        FileStatus::ManagedWithBackup.spec_merge(FileStatus::Unmanaged)
            == FileStatus::ManagedWithBackup,
        FileStatus::Unmanaged.spec_merge(FileStatus::Managed) == FileStatus::Managed,
        FileStatus::Unmanaged.spec_merge(FileStatus::ManagedWithBackup)
            == FileStatus::ManagedWithBackup,
        FileStatus::Unmanaged.spec_merge(FileStatus::Unmanaged) == FileStatus::Unmanaged,
        forall|a: FileStatus, b: FileStatus| #[trigger] a.spec_merge(b) == b.spec_merge(a),
{
}

/// Diffing a tree against itself with a delete action that always refuses
/// changes nothing.
pub proof fn lemma_update_identity(n: Node, at: Seq<Seq<char>>)
    ensures
        node_update(n, n, at, (|p: Seq<Seq<char>>, s: FileStatus| false)) == n,
    decreases n,
{
    let d = (|p: Seq<Seq<char>>, s: FileStatus| false);
    let ch = updated_children(n, n, at, d);
    assert forall|k: Seq<char>| #[trigger]
        n.children.contains_key(k) implies ch.contains_key(k) && ch[k] == n.children[k] by {
        let child = n.children[k];
        lemma_update_identity(child, at.push(k));
        assert(node_update(child, child, at.push(k), d) == child);
        assert(child.status.spec_merge(child.status) == child.status);
        assert(ch[k] == (Node {
            status: child.status.spec_merge(child.status),
            children: child.children,
        }));
        assert(ch[k] =~= child);
    }
    assert(ch.dom() =~= n.children.dom());
    assert(ch =~= n.children);
    assert(node_update(n, n, at, d) =~= n);
}

} // verus!

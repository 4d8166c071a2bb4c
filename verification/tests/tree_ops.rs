//! The managed-path tree: registering, querying, deactivating and diffing.

use std::cell::RefCell;
use system_manager::etc_tree::{FileStatus, FileTree};
use system_manager::etc_tree::FileStatus::{Managed, ManagedWithBackup, Unmanaged};

fn p(path: &str) -> Vec<String> {
    path.split('/').filter(|s| !s.is_empty()).map(String::from).collect()
}

fn keys(t: &FileTree) -> Vec<String> {
    let mut ks: Vec<String> = t.nested.iter().map(|e| e.0.clone()).collect();
    ks.sort();
    ks
}

fn child<'a>(t: &'a FileTree, name: &str) -> &'a FileTree {
    &t.nested.iter().find(|e| e.0 == name).expect("missing child").1
}

fn tree_eq(a: &FileTree, b: &FileTree) -> bool {
    if a.status != b.status || a.path != b.path || a.nested.len() != b.nested.len() {
        return false;
    }
    for (name, sub) in &a.nested {
        match b.nested.iter().find(|e| &e.0 == name) {
            Some(other) => {
                if !tree_eq(sub, &other.1) {
                    return false;
                }
            }
            None => return false,
        }
    }
    true
}

#[test]
fn get_status() {
    let tree1 = FileTree::root_node()
        .register_managed_entry(&p("/foo/bar"))
        .register_managed_entry(&p("/foo2"))
        .register_managed_entry(&p("/foo2/baz"))
        .register_managed_entry(&p("/foo2/baz/bar"))
        .register_managed_entry(&p("/foo2/baz2"))
        .register_managed_entry(&p("/foo2/baz2/bar"))
        .register_managed_entry(&p("/foo3/baz2/bar"))
        .register_managed_entry(&p("/foo4"))
        .register_managed_entry(&p("/foo4/baz"))
        .register_managed_entry(&p("/foo4/baz/bar"))
        .register_managed_entry(&p("/foo5"))
        .register_managed_entry(&p("/foo5/baz"))
        .register_managed_entry(&p("/foo5/baz2"))
        .register_managed_entry(&p("/foo5/baz/bar"));

    assert!(tree1.is_managed(&p("/foo5/baz/bar")));
    assert!(!tree1.is_managed(&p("/foo")));
    assert!(!tree1.is_managed(&p("/foo/nonexistent")));
}

#[test]
fn register() {
    let tree = FileTree::root_node()
        .register_managed_entry(&p("/foo/bar"))
        .register_managed_entry(&p("/foo2/baz/bar"))
        .register_managed_entry(&p("/foo2/baz2/bar"));
    assert_eq!(keys(&tree), ["foo", "foo2"]);
    assert_eq!(
        child(child(child(&tree, "foo2"), "baz"), "bar").path,
        p("/foo2/baz/bar")
    );
}

#[test]
fn deactivate() {
    let tree1 = FileTree::root_node()
        .register_managed_entry(&p("/foo/bar"))
        .register_managed_entry(&p("/foo2"))
        .register_managed_entry(&p("/foo2/baz"))
        .register_managed_entry(&p("/foo2/baz/bar"))
        .register_managed_entry(&p("/foo2/baz2"))
        .register_managed_entry(&p("/foo2/baz2/bar"))
        .register_managed_entry(&p("/foo3/baz2/bar"))
        .register_managed_entry(&p("/foo4"))
        .register_managed_entry(&p("/foo4/baz"))
        .register_managed_entry(&p("/foo4/baz/bar"))
        .register_managed_entry(&p("/foo5"))
        .register_managed_entry(&p("/foo5/baz"))
        .register_managed_entry(&p("/foo5/baz2"))
        .register_managed_entry(&p("/foo5/baz/bar"));
    let tree2 = tree1
        .clone()
        .deactivate_managed_entry(&p("/foo4"), &|path: &Vec<String>, _status: &FileStatus| {
            println!("Deactivating: /{}", path.join("/"));
            false
        })
        .deactivate_managed_entry(&p("/foo2"), &|path: &Vec<String>, _status: &FileStatus| {
            println!("Deactivating: /{}", path.join("/"));
            true
        })
        .deactivate_managed_entry(&p("/foo3"), &|path: &Vec<String>, _status: &FileStatus| {
            println!("Deactivating: /{}", path.join("/"));
            true
        })
        .deactivate_managed_entry(
            &p("/foo5/baz"),
            &|path: &Vec<String>, _status: &FileStatus| {
                println!("Deactivating: /{}", path.join("/"));
                true
            },
        );
    assert_eq!(keys(&tree2), ["foo", "foo4", "foo5"]);
    assert!(keys(child(&tree2, "foo5")).contains(&"baz2".to_string()));
    assert!(child(child(&tree2, "foo5"), "baz2").nested.is_empty());
    assert_eq!(keys(&tree1), ["foo", "foo2", "foo3", "foo4", "foo5"]);
}

#[test]
fn update_state() {
    let tree1 = FileTree::root_node()
        .register_managed_entry(&p("/foo/bar"))
        .register_managed_entry(&p("/foo2"))
        .register_managed_entry(&p("/foo2/baz"))
        .register_managed_entry(&p("/foo2/baz/bar"))
        .register_managed_entry(&p("/foo2/baz2"))
        .register_managed_entry(&p("/foo2/baz2/bar"))
        .register_managed_entry(&p("/foo3/baz2/bar"));
    let tree2 = FileTree::root_node()
        .register_managed_entry(&p("/foo/bar"))
        .register_managed_entry(&p("/foo3/bar"))
        .register_managed_entry(&p("/foo4"))
        .register_managed_entry(&p("/foo4/bar"))
        .register_managed_entry(&p("/foo5"))
        .register_managed_entry(&p("/foo5/bar"));
    let new_tree = tree1.update_state(tree2, &|path: &Vec<String>, _status: &FileStatus| {
        println!("Deactivating path: /{}", path.join("/"));
        *path != p("/foo5/bar")
    });
    assert_eq!(keys(&new_tree.unwrap()), ["foo", "foo2", "foo3", "foo5"]);
}

#[test]
fn etc_tree_register() {
    let tree = FileTree::root_node()
        .register_managed_entry(&p("/foo/bar"))
        .register_managed_entry(&p("/foo2/baz/bar"))
        .register_managed_entry(&p("/foo2/baz2/bar"));
    assert_eq!(keys(&tree), ["foo", "foo2"]);
    assert_eq!(
        child(child(child(&tree, "foo2"), "baz"), "bar").path,
        p("/foo2/baz/bar")
    );
}

#[test]
fn etc_tree_update_state() {
    let tree1 = FileTree::root_node()
        .register_managed_entry(&p("/foo/bar"))
        .register_managed_entry(&p("/foo2"))
        .register_managed_entry(&p("/foo2/baz"))
        .register_managed_entry(&p("/foo2/baz/bar"))
        .register_managed_entry(&p("/foo2/baz2"))
        .register_managed_entry(&p("/foo2/baz2/bar"))
        .register_managed_entry(&p("/foo3/baz2/bar"));
    let tree2 = FileTree::root_node()
        .register_managed_entry(&p("/foo/bar"))
        .register_managed_entry(&p("/foo3/bar"))
        .register_managed_entry(&p("/foo4"))
        .register_managed_entry(&p("/foo4/bar"))
        .register_managed_entry(&p("/foo5"))
        .register_managed_entry(&p("/foo5/bar"));
    let new_tree = tree1.update_state(tree2, &|path: &Vec<String>, _status: &FileStatus| {
        println!("Deactivating path: /{}", path.join("/"));
        *path != p("/foo5/bar")
    });
    assert_eq!(keys(&new_tree.unwrap()), ["foo", "foo2", "foo3", "foo5"]);
}

// Registering makes the registered path managed.
#[test]
fn register_makes_managed() {
    let t = FileTree::root_node().register_managed_entry(&p("/srv/www/index"));
    assert!(t.is_managed(&p("/srv/www/index")));
    assert_eq!(t.get_status(&p("/srv/www/index")), FileStatus::Managed);
}

// Registering one path leaves every other path's status alone.
#[test]
fn register_no_spillover() {
    let t = FileTree::root_node().register_managed_entry(&p("/a/b"));
    let before_other = t.get_status(&p("/c/d"));
    let before_mid = t.get_status(&p("/a"));
    let t2 = t.register_managed_entry(&p("/c/e"));
    assert_eq!(t2.get_status(&p("/c/d")), before_other);
    assert_eq!(t2.get_status(&p("/a")), before_mid);
    assert_eq!(t2.get_status(&p("/a/b")), FileStatus::Managed);
}

// Registering the same path twice equals registering it once.
#[test]
fn register_idempotent() {
    let once = FileTree::root_node().register_managed_entry(&p("/x/y/z"));
    let twice = once.clone().register_managed_entry(&p("/x/y/z"));
    assert!(tree_eq(&once, &twice));
}

// A delete action that always consents empties the tree.
#[test]
fn deactivate_all_consenting() {
    let t = FileTree::root_node()
        .register_managed_entry(&p("/a"))
        .register_managed_entry(&p("/a/b"))
        .register_managed_entry(&p("/c"));
    let r = t.deactivate(&|_: &Vec<String>, _: &FileStatus| true);
    assert!(r.is_none());
}

// A delete action that always refuses preserves every managed leaf.
#[test]
fn deactivate_none_preserves() {
    let t = FileTree::root_node()
        .register_managed_entry(&p("/a/b"))
        .register_managed_entry(&p("/c"));
    let r = t.deactivate(&|_: &Vec<String>, _: &FileStatus| false).expect("tree kept");
    assert_eq!(r.get_status(&p("/a/b")), FileStatus::Managed);
    assert_eq!(r.get_status(&p("/c")), FileStatus::Managed);
}

// A subtree reachable only through unmanaged nodes with no managed
// descendants is pruned, whatever the delete action answers.
#[test]
fn prune_unmanaged_subtree() {
    let all_unmanaged = FileTree {
        status: FileStatus::Unmanaged,
        path: p("/u"),
        nested: vec![(
            "v".to_string(),
            FileTree { status: FileStatus::Unmanaged, path: p("/u/v"), nested: vec![] },
        )],
    };
    let root = FileTree {
        status: FileStatus::Unmanaged,
        path: vec![],
        nested: vec![
            ("u".to_string(), all_unmanaged),
            (
                "m".to_string(),
                FileTree { status: FileStatus::Managed, path: p("/m"), nested: vec![] },
            ),
        ],
    };
    let r = root.deactivate(&|_: &Vec<String>, _: &FileStatus| false).expect("tree kept");
    assert_eq!(keys(&r), ["m"]);
}

// The merge law on all nine status pairs.
#[test]
fn merge_law_all_pairs() {
    assert_eq!(Managed.merge(&Managed), Managed);
    assert_eq!(Managed.merge(&ManagedWithBackup), ManagedWithBackup);
    assert_eq!(Managed.merge(&Unmanaged), Managed);
    assert_eq!(ManagedWithBackup.merge(&Managed), ManagedWithBackup);
    assert_eq!(ManagedWithBackup.merge(&ManagedWithBackup), ManagedWithBackup);
    assert_eq!(ManagedWithBackup.merge(&Unmanaged), ManagedWithBackup);
    assert_eq!(Unmanaged.merge(&Managed), Managed);
    assert_eq!(Unmanaged.merge(&ManagedWithBackup), ManagedWithBackup);
    assert_eq!(Unmanaged.merge(&Unmanaged), Unmanaged);
}

// Diffing a tree against itself with a refusing delete action is identity.
#[test]
fn update_state_identity() {
    let t = FileTree::root_node()
        .register_managed_entry(&p("/a/b"))
        .register_managed_entry(&p("/c"));
    let r = t
        .clone()
        .update_state(t.clone(), &|_: &Vec<String>, _: &FileStatus| false)
        .expect("always a tree");
    assert!(tree_eq(&t, &r));
}

// Scenario: register and query.
#[test]
fn register_and_query() {
    let t = FileTree::root_node()
        .register_managed_entry(&p("/foo/bar"))
        .register_managed_entry(&p("/foo2/baz/bar"))
        .register_managed_entry(&p("/foo2/baz2/bar"));
    assert_eq!(keys(&t), ["foo", "foo2"]);
    assert_eq!(t.get_status(&p("/foo2/baz/bar")), FileStatus::Managed);
    assert_eq!(t.get_status(&p("/foo2")), FileStatus::Unmanaged);
    assert!(!t.is_managed(&p("/foo")));
}

// Scenario: a backup-carrying status propagates through deactivation and
// the merge.
#[test]
fn managed_with_backup_propagates() {
    let t = FileTree::root_node()
        .register_entry(&p("/etc/nix.conf"), FileStatus::ManagedWithBackup)
        .register_entry(&p("/etc/other"), FileStatus::Managed);
    assert_eq!(t.get_status(&p("/etc/nix.conf")), FileStatus::ManagedWithBackup);
    assert!(t.is_managed(&p("/etc/nix.conf")));

    let seen: RefCell<Vec<FileStatus>> = RefCell::new(Vec::new());
    let r = t.deactivate(&|_: &Vec<String>, status: &FileStatus| {
        seen.borrow_mut().push(*status);
        false
    });
    assert!(r.is_some());
    let seen = seen.into_inner();
    assert_eq!(seen.len(), 2);
    assert!(seen.contains(&FileStatus::ManagedWithBackup));
    assert!(seen.contains(&FileStatus::Managed));

    assert_eq!(
        FileStatus::ManagedWithBackup.merge(&FileStatus::Unmanaged),
        FileStatus::ManagedWithBackup
    );
}

// An empty unmanaged root deactivates to nothing; registering the empty
// path changes nothing.
#[test]
fn edge_cases() {
    let t = FileTree::root_node();
    assert!(t.deactivate(&|_: &Vec<String>, _: &FileStatus| false).is_none());

    let t = FileTree::root_node().register_managed_entry(&p("/a"));
    let t2 = t.clone().register_managed_entry(&Vec::new());
    assert!(tree_eq(&t, &t2));
}

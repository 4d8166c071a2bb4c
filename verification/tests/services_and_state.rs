//! Service-set diffing, job bookkeeping, and the activation record.

use system_manager::activate::{activate, deactivate, prepopulate, ActivationError, State};
use system_manager::etc_tree::{FileStatus, FileTree};
use system_manager::services::{
    convert_services, get_services_to_reload, services_to_stop, ServiceConfig, Services,
};
use system_manager::store_path::StorePath;
use system_manager::systemd::remove_completed;

fn sp(s: &str) -> StorePath {
    StorePath::try_new(s.to_string()).expect("store path")
}

fn svc(pairs: &[(&str, &str)]) -> Services {
    let mut s = Services::new();
    for (name, path) in pairs {
        s = s.insert(name.to_string(), ServiceConfig { store_path: sp(path) });
    }
    s
}

fn names_of(s: &Services) -> Vec<String> {
    let mut ns = convert_services(s);
    ns.sort();
    ns
}

// Scenario: the stop set and the reload set between two generations.
#[test]
fn stop_and_reload_sets() {
    let prev = svc(&[("a", "/nix/store/s1"), ("b", "/nix/store/s2")]);
    let new = svc(&[("a", "/nix/store/s1"), ("b", "/nix/store/s3"), ("c", "/nix/store/s4")]);

    let stop = services_to_stop(&prev, &new);
    assert!(names_of(&stop).is_empty());

    let reload = get_services_to_reload(&new, &prev);
    assert_eq!(names_of(&reload), ["b"]);
    assert_eq!(
        reload.get(&"b".to_string()).unwrap().store_path.store_path,
        "/nix/store/s3"
    );
}

#[test]
fn stop_set_holds_removed_units() {
    let prev = svc(&[("x", "/nix/store/s1"), ("y", "/nix/store/s2")]);
    let new = svc(&[("y", "/nix/store/s2")]);
    let stop = services_to_stop(&prev, &new);
    assert_eq!(names_of(&stop), ["x"]);
    assert!(stop.get(&"y".to_string()).is_none());
}

#[test]
fn insert_overwrites() {
    let s = svc(&[("a", "/nix/store/s1")]);
    let s = s.insert("a".to_string(), ServiceConfig { store_path: sp("/nix/store/s9") });
    assert_eq!(s.len(), 1);
    assert_eq!(s.get(&"a".to_string()).unwrap().store_path.store_path, "/nix/store/s9");
    assert!(s.contains(&"a".to_string()));
    assert!(!s.contains(&"zz".to_string()));
    assert!(!s.is_empty());
    assert!(Services::new().is_empty());
}

#[test]
fn remove_completed_filters_in_order() {
    let waiting = vec!["a".to_string(), "b".to_string(), "c".to_string()];
    let done = vec!["b".to_string(), "zz".to_string()];
    assert_eq!(remove_completed(&waiting, &done), vec!["a", "c"]);
    assert_eq!(remove_completed(&Vec::new(), &done), Vec::<String>::new());
}

fn tree_with(path: &str) -> FileTree {
    let comps: Vec<String> =
        path.split('/').filter(|s| !s.is_empty()).map(String::from).collect();
    FileTree::root_node().register_managed_entry(&comps)
}

// A run where both stages succeed records both new components.
#[test]
fn activation_record_success() {
    let old = State::empty();
    let t = tree_with("/etc/a");
    let s = svc(&[("a", "/nix/store/s1")]);
    let r = activate(old, Ok(t), Some(Ok(s)));
    assert_eq!(r.file_tree.get_status(&vec!["etc".to_string(), "a".to_string()]),
        FileStatus::Managed);
    assert!(r.services.contains(&"a".to_string()));
}

// A failed file stage keeps the previous services and records the partial
// tree.
#[test]
fn activation_record_partial_files() {
    let mut old = State::empty();
    old.services = svc(&[("old", "/nix/store/s0")]);
    let partial = tree_with("/etc/partial");
    let r = activate(
        old,
        Err(ActivationError::with_partial_result(partial, "disk full".to_string())),
        None,
    );
    assert_eq!(
        r.file_tree.get_status(&vec!["etc".to_string(), "partial".to_string()]),
        FileStatus::Managed
    );
    assert!(r.services.contains(&"old".to_string()));
}

// A failed service stage keeps the new tree and records the partial set.
#[test]
fn activation_record_partial_services() {
    let old = State::empty();
    let t = tree_with("/etc/a");
    let partial = svc(&[("half", "/nix/store/s1")]);
    let e = ActivationError::with_partial_result(partial, "bus gone".to_string());
    let r = prepopulate(old, Ok(t), Some(Err(e)));
    assert!(r.services.contains(&"half".to_string()));
}

// Deactivation folds outcomes the same way.
#[test]
fn deactivation_record() {
    let mut old = State::empty();
    old.services = svc(&[("old", "/nix/store/s0")]);
    let r = deactivate(old, Ok(FileTree::root_node()), Some(Ok(Services::new())));
    assert!(r.services.is_empty());
    assert!(r.file_tree.nested.is_empty());
}

#[test]
fn partial_of_unwraps() {
    let e = ActivationError::with_partial_result(7u32, "why".to_string());
    let ActivationError::WithPartialResult { result, message } = e;
    assert_eq!(result, 7);
    assert_eq!(message, "why");
    // the spec-level accessor agrees with the destructuring
    let e2 = ActivationError::with_partial_result(3u32, "m".to_string());
    match e2 {
        ActivationError::WithPartialResult { result, .. } => assert_eq!(result, 3),
    }
}

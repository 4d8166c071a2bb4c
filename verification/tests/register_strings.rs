//! Flake-URI handling, name quoting and build-output selection.

use system_manager::register::{
    escape_nix_string, flake_attr_root, full_flake_uri, select_build_output, split_flake_uri,
    system_qualified_attr, BuildOutputError, FlakeUriError, NixBuildOutput,
};

#[test]
fn split_uri_forms() {
    assert_eq!(
        split_flake_uri(".#test").unwrap(),
        (".".to_string(), Some("test".to_string()))
    );
    assert_eq!(split_flake_uri("github:o/r").unwrap(), ("github:o/r".to_string(), None));
    assert_eq!(split_flake_uri("flake#").unwrap(), ("flake".to_string(), None));
    assert_eq!(split_flake_uri("flake##").unwrap(), ("flake".to_string(), None));
    assert_eq!(split_flake_uri("a#b#c"), Err(FlakeUriError::TooManyHashes));
}

#[test]
fn uri_assembly() {
    assert_eq!(flake_attr_root(), "systemConfigs");
    assert_eq!(full_flake_uri(".", "myhost"), ".#systemConfigs.myhost");
    assert_eq!(system_qualified_attr("x86_64-linux", "default"), "x86_64-linux.default");
}

// Quoting wraps the name in double quotes, characters unchanged.
#[test]
fn quoting() {
    assert_eq!(escape_nix_string("host"), "\"host\"");
    assert_eq!(escape_nix_string(""), "\"\"");
    assert_eq!(escape_nix_string("string.literal/key"), "\"string.literal/key\"");
}

fn result_with(outputs: &[(&str, &str)]) -> NixBuildOutput {
    NixBuildOutput {
        drv_path: "/nix/store/d.drv".to_string(),
        outputs: outputs.iter().map(|(k, v)| (k.to_string(), v.to_string())).collect(),
    }
}

#[test]
fn build_output_selection() {
    let single = vec![result_with(&[("doc", "/nix/store/doc"), ("out", "/nix/store/out")])];
    assert_eq!(select_build_output(&single).unwrap(), "/nix/store/out");

    let none: Vec<NixBuildOutput> = Vec::new();
    assert_eq!(select_build_output(&none), Err(BuildOutputError::NotSingleResult));

    let two = vec![result_with(&[("out", "/nix/store/a")]), result_with(&[("out", "/nix/store/b")])];
    assert_eq!(select_build_output(&two), Err(BuildOutputError::NotSingleResult));

    let missing = vec![result_with(&[("doc", "/nix/store/doc")])];
    assert_eq!(select_build_output(&missing), Err(BuildOutputError::MissingOutOutput));
}

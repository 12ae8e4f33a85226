use cargo_nono::cargo_build::features_arg;
use cargo_nono::metadata::{Metadata, Package};
use cargo_nono::util::{main_ws_member_from_args, MemberError};

fn s(x: &str) -> String {
    x.to_owned()
}

fn pkg(id: &str, name: &str, manifest: &str) -> Package {
    Package {
        id: s(id),
        name: s(name),
        version: s("0.1.0"),
        manifest_path: s(manifest),
        dependencies: vec![],
        features: vec![],
        targets: vec![],
    }
}

fn ws(members: &[&str]) -> Metadata {
    Metadata {
        packages: vec![
            pkg("a 0.1.0", "a", "/ws/a/Cargo.toml"),
            pkg("b 0.1.0", "b", "/ws/b/Cargo.toml"),
            pkg("dep 1.0.0", "dep", "/reg/dep/Cargo.toml"),
        ],
        resolve: vec![],
        workspace_members: members.iter().map(|m| s(m)).collect(),
    }
}

#[test]
fn single_member_is_chosen() {
    let m = ws(&["b 0.1.0"]);
    assert_eq!(main_ws_member_from_args(&m, None, &s("/elsewhere")).ok(), Some(s("b 0.1.0")));
}

#[test]
fn member_by_name_or_directory() {
    let m = ws(&["a 0.1.0", "b 0.1.0"]);
    assert_eq!(main_ws_member_from_args(&m, Some(s("b")), &s("/ws/a")).ok(), Some(s("b 0.1.0")));
    assert_eq!(main_ws_member_from_args(&m, None, &s("/ws/a")).ok(), Some(s("a 0.1.0")));
    assert_eq!(main_ws_member_from_args(&m, None, &s("/ws/b")).ok(), Some(s("b 0.1.0")));
}

#[test]
fn unknown_member_lists_candidates() {
    let m = ws(&["a 0.1.0", "b 0.1.0"]);
    match main_ws_member_from_args(&m, Some(s("dep")), &s("/ws/a")) {
        Err(MemberError::UnknownPackage(names)) => assert_eq!(names, vec![s("a"), s("b")]),
        other => panic!("unexpected {:?}", other),
    }
}

#[test]
fn ambiguous_member_lists_candidates() {
    let m = ws(&["a 0.1.0", "b 0.1.0"]);
    match main_ws_member_from_args(&m, None, &s("/ws")) {
        Err(MemberError::Ambiguous(names)) => assert_eq!(names, vec![s("a"), s("b")]),
        other => panic!("unexpected {:?}", other),
    }
    match main_ws_member_from_args(&m, None, &s("/ws/a/src")) {
        Err(MemberError::Ambiguous(_)) => {}
        other => panic!("unexpected {:?}", other),
    }
}

#[test]
fn build_features_are_space_separated() {
    assert_eq!(features_arg(&vec![s("a"), s("b,c"), s("d")]), "a b,c d");
    assert_eq!(features_arg(&vec![]), "");
    assert_eq!(features_arg(&vec![s("x")]), "x");
}

use cargo_nono::verify::{
    die_entry_is_namespace, is_object_member, object_members, rlib_contains_namespace, DebugEntry,
    ObjectDebugInfo,
};

fn ns(name: &str) -> DebugEntry {
    DebugEntry { is_namespace: true, name: Some(name.to_owned()) }
}

fn other(name: &str) -> DebugEntry {
    DebugEntry { is_namespace: false, name: Some(name.to_owned()) }
}

#[test]
fn archive_with_std_namespace_is_detected() {
    let objects = vec![ObjectDebugInfo { entries: vec![other("crate"), ns("core"), ns("std")] }];
    assert!(rlib_contains_namespace(&objects, "std"));
}

#[test]
fn archive_with_only_core_and_alloc_is_clean() {
    let objects = vec![
        ObjectDebugInfo { entries: vec![ns("core"), ns("alloc"), other("std")] },
        ObjectDebugInfo { entries: vec![] },
    ];
    assert!(!rlib_contains_namespace(&objects, "std"));
    assert!(!rlib_contains_namespace(&vec![], "std"));
}

#[test]
fn namespace_entry_needs_tag_and_name() {
    assert!(die_entry_is_namespace(&ns("std"), "std"));
    assert!(!die_entry_is_namespace(&ns("stdx"), "std"));
    assert!(!die_entry_is_namespace(&other("std"), "std"));
    assert!(!die_entry_is_namespace(&DebugEntry { is_namespace: true, name: None }, "std"));
}

#[test]
fn object_member_names() {
    assert!(is_object_member("foo-1234.foo.0.rcgu.o"));
    assert!(is_object_member("a.o"));
    assert!(!is_object_member(".o"));
    assert!(!is_object_member("lib.rmeta"));
    assert!(!is_object_member("dir/.o"));
}

fn ar_member(name: &str, data: &[u8]) -> Vec<u8> {
    let mut h = format!("{:<16}{:<12}{:<6}{:<6}{:<8}{:<10}`\n", format!("{}/", name), 0, 0, 0, 644, data.len()).into_bytes();
    h.extend_from_slice(data);
    if data.len() % 2 == 1 {
        h.push(b'\n');
    }
    h
}

#[test]
fn object_members_are_read_from_the_archive() {
    let mut archive = b"!<arch>\n".to_vec();
    archive.extend(ar_member("a.o", b"OBJA"));
    archive.extend(ar_member("lib.rmeta", b"META"));
    archive.extend(ar_member("b.o", b"OBJB1"));
    let members = object_members(&archive).expect("archive parses");
    let got: Vec<(String, Vec<u8>)> = members;
    assert_eq!(got, vec![("a.o".to_owned(), b"OBJA".to_vec()), ("b.o".to_owned(), b"OBJB1".to_vec())]);
    assert!(object_members(&b"not an archive".to_vec()).is_none());
}

use cargo_nono::check::{
    attribute_kind, check_package, AttributeKind, CheckResult, ConditionalAttribute, CrateSupport,
    CrateSources,
};
use cargo_nono::check_source::{get_crate_support_from_source, is_std_use, SourceOffense};
use cargo_nono::ext::{Feature, FeatureCause};
use cargo_nono::metadata::{Package, Target};

fn s(x: &str) -> String {
    x.to_owned()
}

fn sources(main: &str, others: &[(&str, &str)]) -> CrateSources {
    CrateSources {
        main_path: s("/p/src/lib.rs"),
        main_src: s(main),
        others: others.iter().map(|(p, t)| (s(p), s(t))).collect(),
    }
}

fn support(main: &str, others: &[(&str, &str)]) -> CrateSupport {
    let c = sources(main, others);
    get_crate_support_from_source(&c.main_path, &c.main_src, &c.others).expect("sources parse")
}

fn result(support: CrateSupport, active: &[&str]) -> CheckResult {
    CheckResult {
        package_name: s("p"),
        support,
        active_features: active.iter().map(|n| Feature::new(s("p 1.0.0"), s(n))).collect(),
    }
}

#[test]
fn attribute_grammar() {
    assert!(matches!(attribute_kind("no_std"), AttributeKind::NoStd));
    assert!(matches!(attribute_kind("cfg_attr (not (test) , no_std)"), AttributeKind::NoStdUnlessTest));
    assert!(matches!(
        attribute_kind("cfg_attr (not (feature = \"std\") , no_std)"),
        AttributeKind::NoStdUnlessFeature(f) if f == "std"
    ));
    assert!(matches!(attribute_kind("cfg_attr (feature = \"std\" , no_std)"), AttributeKind::Other));
    assert!(matches!(attribute_kind("cfg_attr (not (test) , deny (warnings))"), AttributeKind::Other));
    assert!(matches!(attribute_kind("deny (missing_docs)"), AttributeKind::Other));
    let c = ConditionalAttribute::from_attribute("cfg_attr(not(feature = \"alloc\"), no_std)").unwrap();
    assert_eq!(c.condition, "not(feature=\"alloc\")");
    assert_eq!(c.attributes, vec![s("no_std")]);
    let list = ConditionalAttribute::from_attribute("cfg_attr(all(unix, not(test)), no_std, deny(warnings))").unwrap();
    assert_eq!(list.condition, "all(unix,not(test))");
    assert_eq!(list.attributes, vec![s("no_std"), s("deny(warnings)")]);
    assert_eq!(list.required_feature(), None);
    assert!(matches!(
        attribute_kind("cfg_attr (not (feature = \"std\") , no_std , allow (unused))"),
        AttributeKind::NoStdUnlessFeature(f) if f == "std"
    ));
    assert!(ConditionalAttribute::from_attribute("cfg_attr(test)").is_none());
    assert_eq!(c.required_feature(), Some(s("alloc")));
    assert!(ConditionalAttribute::from_attribute("no_std").is_none());
}

#[test]
fn use_tree_rooted_at_std() {
    assert!(is_std_use("std :: vec :: Vec"));
    assert!(is_std_use("std :: { fmt , io }"));
    assert!(!is_std_use("core :: fmt"));
    assert!(!is_std_use("std"));
    assert!(!is_std_use("stdx :: y"));
}

#[test]
fn marked_crate_without_std_uses_has_no_offense() {
    let v = support("#![no_std]\nuse core::fmt;\npub fn f() {}\n", &[("/p/src/a.rs", "use alloc::vec::Vec;\n")]);
    assert!(matches!(v, CrateSupport::NoOffenseDetected));
    let t = support("#![cfg_attr(not(test), no_std)]\npub fn f() {}\n", &[]);
    assert!(matches!(t, CrateSupport::NoOffenseDetected));
}

#[test]
fn gated_crate_with_std_active_is_not_compliant() {
    let v = support("#![cfg_attr(not(feature = \"std\"), no_std)]\nuse std::vec::Vec;\n", &[]);
    assert!(matches!(&v, CrateSupport::OnlyWithoutFeature(f) if f == "std"));
    let r = result(v, &["default", "std"]);
    assert!(r.is_feature_active("std"));
    assert_eq!(r.find_active_feature_by_name("std").map(|f| f.name.clone()), Some(s("std")));
    assert!(!r.no_std_itself());
}

#[test]
fn entry_gate_decides_without_reading_other_files() {
    let c = sources(
        "#![cfg_attr(not(feature = \"std\"), no_std)]\nuse std::vec::Vec;\n",
        &[("/p/src/broken.rs", "struct {"), ("/p/src/a.rs", "use std::fmt;\n")],
    );
    let v = get_crate_support_from_source(&c.main_path, &c.main_src, &c.others);
    assert!(matches!(v, Some(CrateSupport::OnlyWithoutFeature(f)) if f == "std"));
}

#[test]
fn gated_crate_without_std_is_compliant() {
    let v = support("#![cfg_attr(not(feature = \"std\"), no_std)]\n", &[]);
    let r = result(v, &["alloc"]);
    assert!(!r.is_feature_active("std"));
    assert!(r.no_std_itself());
}

#[test]
fn std_use_in_other_file_is_flagged() {
    let v = support(
        "#![no_std]\n",
        &[("/p/src/a.rs", "#![cfg_attr(not(feature = \"std\"), no_std)]\n#![no_std]\nuse std::string::String;\n")],
    );
    match v {
        CrateSupport::SourceOffenses(off) => {
            assert_eq!(off.len(), 1);
            match &off[0] {
                SourceOffense::UseStdStatement(stmt) => {
                    assert_eq!(stmt.src_path, "/p/src/a.rs");
                    assert_eq!(stmt.item_tree.replace(' ', ""), "std::string::String");
                }
                other => panic!("unexpected offense {:?}", other),
            }
        }
        other => panic!("unexpected verdict {:?}", other),
    }
}

#[test]
fn entry_without_marker_is_missing_attribute() {
    let v = support("use std::fmt;\npub fn f() {}\n", &[]);
    match v {
        CrateSupport::SourceOffenses(off) => {
            assert_eq!(off.len(), 2);
            assert!(matches!(off[0], SourceOffense::UseStdStatement(_)));
            assert!(matches!(off[1], SourceOffense::MissingNoStdAttribute));
        }
        other => panic!("unexpected verdict {:?}", other),
    }
    assert!(!result(support("pub fn f() {}\n", &[]), &[]).no_std_itself());
}

#[test]
fn unparsable_source_gives_no_verdict() {
    let c = sources("fn (", &[]);
    assert!(get_crate_support_from_source(&c.main_path, &c.main_src, &c.others).is_none());
    let c = sources("#![no_std]\n", &[("/p/src/b.rs", "struct {")]);
    assert!(get_crate_support_from_source(&c.main_path, &c.main_src, &c.others).is_none());
}

fn proc_macro_package() -> Package {
    Package {
        id: s("m 1.0.0"),
        name: s("m"),
        version: s("1.0.0"),
        manifest_path: s("/m/Cargo.toml"),
        dependencies: vec![],
        features: vec![],
        targets: vec![Target { name: s("m"), kind: vec![s("proc-macro")], src_path: s("/m/src/lib.rs") }],
    }
}

#[test]
fn proc_macro_is_compliant_whatever_its_source() {
    let p = proc_macro_package();
    assert!(p.is_proc_macro());
    let src = sources("use std::collections::HashMap;\n", &[]);
    let mut seed = Feature::new(s("m 1.0.0"), s("default"));
    seed.causes.push(FeatureCause::Default(s("root")));
    let r = check_package(&p, &vec![seed], Some(&src)).unwrap();
    assert!(matches!(r.support, CrateSupport::ProcMacro));
    assert!(r.no_std_itself());
    assert_eq!(r.package_name, "m");
    assert_eq!(r.active_features.len(), 1);
}

#[test]
fn package_check_uses_its_own_features() {
    let p = Package {
        id: s("p 1.0.0"),
        name: s("p"),
        version: s("1.0.0"),
        manifest_path: s("/p/Cargo.toml"),
        dependencies: vec![],
        features: vec![(s("default"), vec![s("std")]), (s("std"), vec![])],
        targets: vec![
            Target { name: s("p"), kind: vec![s("lib")], src_path: s("/p/src/lib.rs") },
            Target { name: s("pbin"), kind: vec![s("bin")], src_path: s("/p/src/main.rs") },
        ],
    };
    assert_eq!(cargo_nono::check::entry_source(&p, false), Some(s("/p/src/lib.rs")));
    assert_eq!(cargo_nono::check::entry_source(&p, true), Some(s("/p/src/main.rs")));
    let feats = vec![Feature::new(s("p 1.0.0"), s("default")), Feature::new(s("q 1.0.0"), s("other"))];
    let src = sources("#![cfg_attr(not(feature = \"std\"), no_std)]\n", &[]);
    let r = check_package(&p, &feats, Some(&src)).unwrap();
    let names: Vec<String> = r.active_features.iter().map(|f| f.name.clone()).collect();
    assert_eq!(names, vec![s("default"), s("std")]);
    assert!(!r.no_std_itself());
    let none = check_package(&p, &feats, None).unwrap();
    assert!(matches!(none.support, CrateSupport::NoOffenseDetected));
}

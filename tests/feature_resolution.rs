use cargo_nono::ext::{Feature, FeatureCause};
use cargo_nono::metadata::{Dependency, DependencyKind, Metadata, Package, ResolveNode, Target};
use cargo_nono::util::features_from_args;

fn s(x: &str) -> String {
    x.to_owned()
}

fn dep(name: &str, optional: bool, uses_default_features: bool, features: &[&str]) -> Dependency {
    Dependency {
        name: s(name),
        kind: DependencyKind::Normal,
        optional,
        uses_default_features,
        features: features.iter().map(|f| s(f)).collect(),
    }
}

fn package(id: &str, name: &str, deps: Vec<Dependency>, features: &[(&str, &[&str])]) -> Package {
    Package {
        id: s(id),
        name: s(name),
        version: s("0.1.0"),
        manifest_path: format!("/ws/{}/Cargo.toml", name),
        dependencies: deps,
        features: features
            .iter()
            .map(|(k, v)| (s(k), v.iter().map(|x| s(x)).collect()))
            .collect(),
        targets: vec![Target { name: s(name), kind: vec![s("lib")], src_path: format!("/ws/{}/src/lib.rs", name) }],
    }
}

fn cli(id: &str, name: &str) -> Feature {
    let mut f = Feature::new(s(id), s(name));
    f.causes.push(FeatureCause::CliFlag(s(name)));
    f
}

fn names(fs: &[Feature]) -> Vec<String> {
    fs.iter().map(|f| f.name.clone()).collect()
}

fn parent_name(f: &Feature) -> Option<String> {
    match f.causes.first() {
        Some(FeatureCause::Feature(p)) => Some(p.name.clone()),
        _ => None,
    }
}

#[test]
fn leaf_feature_resolves_to_itself() {
    let p = package("root 0.1.0", "root", vec![], &[("leaf", &[])]);
    let r = p.active_features_for_feature(&cli("root 0.1.0", "leaf"));
    assert_eq!(names(&r), vec![s("leaf")]);
    assert_eq!(r[0].causes.len(), 1);
    assert!(matches!(&r[0].causes[0], FeatureCause::CliFlag(x) if x == "leaf"));
    let unknown = p.active_features_for_feature(&cli("root 0.1.0", "missing"));
    assert_eq!(names(&unknown), vec![s("missing")]);
}

#[test]
fn feature_cycle_resolves_to_both_once() {
    let p = package("root 0.1.0", "root", vec![], &[("a", &["b"]), ("b", &["a"])]);
    let r = p.active_features_for_feature(&cli("root 0.1.0", "a"));
    assert_eq!(names(&r), vec![s("a"), s("b")]);
    assert_eq!(parent_name(&r[1]), Some(s("a")));
    assert_eq!(r[1].package_id, "root 0.1.0");
}

#[test]
fn chain_keeps_one_cause_per_feature() {
    let p = package("root 0.1.0", "root", vec![], &[("a", &["b", "c"]), ("b", &["c", "d"]), ("c", &[])]);
    let r = p.active_features_for_feature(&cli("root 0.1.0", "a"));
    assert_eq!(names(&r), vec![s("a"), s("b"), s("c"), s("d")]);
    assert_eq!(parent_name(&r[2]), Some(s("a")));
    assert_eq!(parent_name(&r[3]), Some(s("b")));
}

fn graph() -> (Package, Metadata) {
    let root = package(
        "root 0.1.0",
        "root",
        vec![dep("serde", false, true, &["derive"]), dep("d", true, false, &[])],
        &[("default", &["std"]), ("std", &["serde/std"]), ("foo", &["d"])],
    );
    let serde = package("serde 1.0.0", "serde", vec![], &[("std", &[]), ("derive", &[]), ("default", &["std"])]);
    let d = package("d 0.2.0", "d", vec![], &[]);
    let other_serde = package("serde 0.9.0", "serde", vec![], &[]);
    let m = Metadata {
        packages: vec![root, other_serde, serde, d],
        resolve: vec![
            ResolveNode { id: s("root 0.1.0"), dependencies: vec![s("serde 1.0.0"), s("d 0.2.0")] },
            ResolveNode { id: s("serde 1.0.0"), dependencies: vec![] },
        ],
        workspace_members: vec![s("root 0.1.0")],
    };
    let root = package(
        "root 0.1.0",
        "root",
        vec![dep("serde", false, true, &["derive"]), dep("d", true, false, &[])],
        &[("default", &["std"]), ("std", &["serde/std"]), ("foo", &["d"])],
    );
    (root, m)
}

#[test]
fn cross_reference_is_not_a_local_feature() {
    let (root, m) = graph();
    let seeds = features_from_args(s("root 0.1.0"), false, vec![]);
    let active = root.active_features_for_features(&seeds);
    assert_eq!(names(&active), vec![s("default"), s("std")]);
    assert!(active.iter().all(|f| !f.name.contains('/')));
    let cross = root.dependency_features_for_features(&m, &active);
    assert_eq!(cross.len(), 1);
    assert_eq!(cross[0].package_id, "serde 1.0.0");
    assert_eq!(cross[0].name, "std");
    assert_eq!(parent_name(&cross[0]), Some(s("std")));
    let direct = root.active_features_for_feature(&cli("root 0.1.0", "serde/std"));
    assert!(direct.is_empty());
    let rewritten = root.dependency_feature_for_feature(&m, &cli("root 0.1.0", "serde/std")).unwrap();
    assert_eq!((rewritten.package_id.as_str(), rewritten.name.as_str()), ("serde 1.0.0", "std"));
    assert!(root.dependency_feature_for_feature(&m, &cli("root 0.1.0", "nothere/std")).is_none());
    assert!(root.dependency_feature_for_feature(&m, &cli("root 0.1.0", "std")).is_none());
}

#[test]
fn dependency_resolves_along_the_resolve_graph() {
    let (root, m) = graph();
    let serde_dep = dep("serde", false, true, &[]);
    assert_eq!(m.dependency_package_id(&root, &serde_dep), Some(s("serde 1.0.0")));
    let unknown = dep("rand", false, true, &[]);
    assert_eq!(m.dependency_package_id(&root, &unknown), None);
    assert_eq!(m.find_package("d 0.2.0").map(|p| p.name.clone()), Some(s("d")));
    assert!(m.find_package("nope").is_none());
}

#[test]
fn fixed_dependency_features_follow_declarations() {
    let (root, m) = graph();
    let fixed = root.fixed_dependency_features(&m);
    let keys: Vec<(String, String)> = fixed.iter().map(|f| (f.package_id.clone(), f.name.clone())).collect();
    assert_eq!(
        keys,
        vec![
            (s("serde 1.0.0"), s("derive")),
            (s("serde 1.0.0"), s("default")),
        ]
    );
    assert!(matches!(&fixed[0].causes[0], FeatureCause::Explicit(id) if id == "root 0.1.0"));
    assert!(matches!(&fixed[1].causes[0], FeatureCause::Default(id) if id == "root 0.1.0"));
    let all = root.all_dependency_features(&m, &root.active_features_for_features(&features_from_args(s("root 0.1.0"), false, vec![])));
    assert_eq!(all.len(), 3);
    assert_eq!(all[2].name, "std");
}

#[test]
fn optional_dependency_follows_its_feature() {
    let (root, m) = graph();
    let with_foo = root.active_features_for_features(&features_from_args(s("root 0.1.0"), true, vec![s("foo")]));
    let deps = root.active_dependencies(&with_foo);
    let dep_names: Vec<String> = deps.iter().map(|d| d.name.clone()).collect();
    assert_eq!(dep_names, vec![s("serde"), s("d")]);
    let packages = cargo_nono::util::dependencies_to_packages(&root, &m, &deps);
    let ids: Vec<String> = packages.iter().map(|p| p.id.clone()).collect();
    assert_eq!(ids, vec![s("serde 1.0.0"), s("d 0.2.0")]);

    let nothing = root.active_features_for_features(&features_from_args(s("root 0.1.0"), true, vec![]));
    assert!(nothing.is_empty());
    let deps = root.active_dependencies(&nothing);
    let dep_names: Vec<String> = deps.iter().map(|d| d.name.clone()).collect();
    assert_eq!(dep_names, vec![s("serde")]);
}

#[test]
fn only_normal_dependencies_are_active_once() {
    let mut dev = dep("tester", false, true, &[]);
    dev.kind = DependencyKind::Development;
    let p = package("p 1.0.0", "p", vec![dep("a", false, true, &[]), dev, dep("a", false, true, &[])], &[]);
    let deps = p.active_dependencies(&vec![]);
    assert_eq!(deps.len(), 1);
    assert_eq!(deps[0].name, "a");
    assert_eq!(p.always_on_dependencies().len(), 3);
}

#[test]
fn command_line_features_are_split_at_commas() {
    let fs = features_from_args(s("p 1.0.0"), false, vec![s("a,b"), s("c")]);
    assert_eq!(names(&fs), vec![s("default"), s("a"), s("b"), s("c")]);
    assert!(matches!(&fs[0].causes[0], FeatureCause::Default(id) if id == "p 1.0.0"));
    assert!(matches!(&fs[2].causes[0], FeatureCause::CliFlag(x) if x == "b"));
    let none = features_from_args(s("p 1.0.0"), true, vec![]);
    assert!(none.is_empty());
    let empty_piece = features_from_args(s("p 1.0.0"), true, vec![s("a,,b")]);
    assert_eq!(names(&empty_piece), vec![s("a"), s(""), s("b")]);
}

#[test]
fn dependencies_named_by_a_resolution() {
    let (root, _) = graph();
    let deps = root.active_dependencies_for_feature(&cli("root 0.1.0", "foo"));
    let dep_names: Vec<String> = deps.iter().map(|d| d.name.clone()).collect();
    assert_eq!(dep_names, vec![s("d")]);
    assert!(root.active_dependencies_for_feature(&cli("root 0.1.0", "std")).is_empty());
}

#[test]
fn command_line_cross_reference_reaches_the_dependency() {
    let (root, m) = graph();
    let seeds = features_from_args(s("root 0.1.0"), true, vec![s("serde/derive")]);
    assert!(root.active_features_for_features(&seeds).is_empty());
    let cross = root.dependency_features_for_features(&m, &seeds);
    assert_eq!(cross.len(), 1);
    assert_eq!((cross[0].package_id.as_str(), cross[0].name.as_str()), ("serde 1.0.0", "derive"));
    assert!(matches!(&cross[0].causes[0], FeatureCause::Feature(f) if f.name == "serde/derive"));
}

#[test]
fn requests_of_a_check_list_every_source() {
    let (root, m) = graph();
    let seeds = features_from_args(s("root 0.1.0"), true, vec![s("std"), s("serde/derive")]);
    let active = root.active_features_for_features(&seeds);
    let requests = root.dependency_requests(&m, &seeds, &active);
    let keys: Vec<(String, String)> = requests.iter().map(|f| (f.package_id.clone(), f.name.clone())).collect();
    assert_eq!(
        keys,
        vec![
            (s("serde 1.0.0"), s("derive")),
            (s("serde 1.0.0"), s("default")),
            (s("serde 1.0.0"), s("std")),
            (s("serde 1.0.0"), s("std")),
            (s("serde 1.0.0"), s("derive")),
            (s("root 0.1.0"), s("std")),
            (s("root 0.1.0"), s("serde/derive")),
        ]
    );
    assert!(matches!(&requests[5].causes[0], FeatureCause::CliFlag(x) if x == "std"));
}

#[test]
fn first_explanation_is_kept() {
    let p = package("root 0.1.0", "root", vec![], &[("a", &["c"]), ("b", &["c"]), ("c", &[])]);
    let merged = p.active_features_for_features(&vec![cli("root 0.1.0", "a"), cli("root 0.1.0", "b")]);
    assert_eq!(names(&merged), vec![s("a"), s("c"), s("b")]);
    assert_eq!(parent_name(&merged[1]), Some(s("a")));
}

#[test]
fn seed_keeps_its_root_cause() {
    let p = package("root 0.1.0", "root", vec![], &[("default", &["x"])]);
    let mut seed = Feature::new(s("root 0.1.0"), s("default"));
    seed.causes.push(FeatureCause::Default(s("root 0.1.0")));
    let r = p.active_features_for_feature(&seed);
    assert!(matches!(&r[0].causes[0], FeatureCause::Default(id) if id == "root 0.1.0"));
    match &r[1].causes[0] {
        FeatureCause::Feature(parent) => {
            assert_eq!(parent.name, "default");
            assert!(matches!(&parent.causes[0], FeatureCause::Default(id) if id == "root 0.1.0"));
        }
        other => panic!("unexpected cause {:?}", other),
    }
}

//! Read-only model of the package graph: packages, their dependency edges,
//! feature tables and build targets, and the resolve graph.
use vstd::prelude::*;

verus! {

/// Kind of a dependency edge, as declared in a package manifest.
#[derive(Clone, Copy, Debug, PartialEq, Eq, Structural)]
pub enum DependencyKind {
    Normal,
    Development,
    Build,
    Unknown,
}

/// An edge from a package to another package, by name.
#[derive(Debug)]
pub struct Dependency {
    pub name: String,
    pub kind: DependencyKind,
    pub optional: bool,
    pub uses_default_features: bool,
    pub features: Vec<String>,
}

/// A build target of a package (library, binary, proc-macro, ...).
#[derive(Debug)]
pub struct Target {
    pub name: String,
    pub kind: Vec<String>,
    pub src_path: String,
}

/// One resolved build unit.
#[derive(Debug)]
pub struct Package {
    pub id: String,
    pub name: String,
    pub version: String,
    pub manifest_path: String,
    pub dependencies: Vec<Dependency>,
    /// Feature table: feature name and the names that it activates.
    pub features: Vec<(String, Vec<String>)>,
    pub targets: Vec<Target>,
}

/// The resolved dependencies of one package, by package id.
#[derive(Debug)]
pub struct ResolveNode {
    pub id: String,
    pub dependencies: Vec<String>,
}

/// A snapshot of the whole package graph.
#[derive(Debug)]
pub struct Metadata {
    pub packages: Vec<Package>,
    pub resolve: Vec<ResolveNode>,
    pub workspace_members: Vec<String>,
}

pub open spec fn strs(v: Seq<String>) -> Seq<Seq<char>> {
    v.map_values(|s: String| s@)
}

pub struct DependencyView {
    pub name: Seq<char>,
    pub kind: DependencyKind,
    pub optional: bool,
    pub uses_default_features: bool,
    pub features: Seq<Seq<char>>,
}

impl View for Dependency {
    type V = DependencyView;

    open spec fn view(&self) -> DependencyView {
        DependencyView {
            name: self.name@,
            kind: self.kind,
            optional: self.optional,
            uses_default_features: self.uses_default_features,
            features: strs(self.features@),
        }
    }
}

pub struct TargetView {
    pub name: Seq<char>,
    pub kind: Seq<Seq<char>>,
    pub src_path: Seq<char>,
}

impl View for Target {
    type V = TargetView;

    open spec fn view(&self) -> TargetView {
        TargetView { name: self.name@, kind: strs(self.kind@), src_path: self.src_path@ }
    }
}

pub struct PackageView {
    pub id: Seq<char>,
    pub name: Seq<char>,
    pub version: Seq<char>,
    pub manifest_path: Seq<char>,
    pub dependencies: Seq<DependencyView>,
    pub features: Seq<(Seq<char>, Seq<Seq<char>>)>,
    pub targets: Seq<TargetView>,
}

impl View for Package {
    type V = PackageView;

    open spec fn view(&self) -> PackageView {
        PackageView {
            id: self.id@,
            name: self.name@,
            version: self.version@,
            manifest_path: self.manifest_path@,
            dependencies: self.dependencies@.map_values(|d: Dependency| d@),
            features: self.features@.map_values(|e: (String, Vec<String>)| (e.0@, strs(e.1@))),
            targets: self.targets@.map_values(|t: Target| t@),
        }
    }
}

/// A copy of a list of strings.
pub fn copy_strings(v: &Vec<String>) -> (r: Vec<String>)
    ensures
        strs(r@) == strs(v@),
{
    let mut r: Vec<String> = Vec::new();
    let mut i: usize = 0;
    while i < v.len()
        invariant
            i <= v.len(),
            strs(r@) == strs(v@.subrange(0, i as int)),
        decreases v.len() - i,
    {
        let ghost r0 = r@;
        r.push(v[i].clone());
        proof {
            assert(v@.subrange(0, i + 1) == v@.subrange(0, i as int).push(v@[i as int]));
            assert(strs(r@) =~= strs(r0).push(v@[i as int]@));
            assert(strs(v@.subrange(0, i + 1)) =~= strs(v@.subrange(0, i as int)).push(
                v@[i as int]@,
            ));
        }
        i = i + 1;
    }
    proof {
        assert(v@.subrange(0, i as int) == v@);
    }
    r
}

impl Dependency {
    pub fn copy(&self) -> (r: Dependency)
        ensures
            r@ == self@,
    {
        Dependency {
            name: self.name.clone(),
            kind: self.kind,
            optional: self.optional,
            uses_default_features: self.uses_default_features,
            features: copy_strings(&self.features),
        }
    }
}

pub struct MetadataView {
    pub packages: Seq<PackageView>,
    pub resolve: Seq<(Seq<char>, Seq<Seq<char>>)>,
    pub workspace_members: Seq<Seq<char>>,
}

impl View for Metadata {
    type V = MetadataView;

    open spec fn view(&self) -> MetadataView {
        MetadataView {
            packages: self.packages@.map_values(|p: Package| p@),
            resolve: self.resolve@.map_values(|n: ResolveNode| (n.id@, strs(n.dependencies@))),
            workspace_members: strs(self.workspace_members@),
        }
    }
}

/// The first index below `n` that satisfies `pred`.
pub open spec fn first_where(n: int, pred: spec_fn(int) -> bool) -> Option<int>
    decreases n,
{
    if n <= 0 {
        None
    } else {
        match first_where(n - 1, pred) {
            Some(i) => Some(i),
            None => if pred(n - 1) {
                Some(n - 1)
            } else {
                None
            },
        }
    }
}

pub proof fn lemma_first_where_stays(n: int, m: int, pred: spec_fn(int) -> bool)
    requires
        n <= m,
        first_where(n, pred).is_some(),
    ensures
        first_where(m, pred) == first_where(n, pred),
    decreases m - n,
{
    if n < m {
        lemma_first_where_stays(n, m - 1, pred);
    }
}

pub open spec fn has_id(m: MetadataView, id: Seq<char>) -> spec_fn(int) -> bool {
    |k: int| m.packages[k].id == id
}

pub open spec fn is_node_of(m: MetadataView, id: Seq<char>) -> spec_fn(int) -> bool {
    |i: int| m.resolve[i].0 == id
}

pub open spec fn is_dependency_named(m: MetadataView, i: int, name: Seq<char>) -> spec_fn(
    int,
) -> bool {
    |k: int| m.resolve[i].1.contains(m.packages[k].id) && m.packages[k].name == name
}

/// The index of the package with id `id`.
pub open spec fn package_index(m: MetadataView, id: Seq<char>) -> Option<int> {
    first_where(m.packages.len() as int, has_id(m, id))
}

/// The index of the resolve node of the package with id `id`.
pub open spec fn node_index(m: MetadataView, id: Seq<char>) -> Option<int> {
    first_where(m.resolve.len() as int, is_node_of(m, id))
}

/// The package named `name` among the resolved dependencies of node `i`.
pub open spec fn resolved_dependency(m: MetadataView, i: int, name: Seq<char>) -> Option<int> {
    first_where(m.packages.len() as int, is_dependency_named(m, i, name))
}

/// The id of the package that the dependency `name` of package `id` resolves to.
pub open spec fn dep_package_id(m: MetadataView, id: Seq<char>, name: Seq<char>) -> Option<Seq<char>> {
    match node_index(m, id) {
        None => None,
        Some(i) => match resolved_dependency(m, i, name) {
            None => None,
            Some(k) => Some(m.packages[k].id),
        },
    }
}

/// Whether `v` holds a string equal to `s`.
pub fn contains_str(v: &Vec<String>, s: &String) -> (r: bool)
    ensures
        r == strs(v@).contains(s@),
{
    let mut i: usize = 0;
    while i < v.len()
        invariant
            i <= v.len(),
            forall|j: int| 0 <= j < i ==> strs(v@)[j] != s@,
        decreases v.len() - i,
    {
        if v[i] == *s {
            assert(strs(v@)[i as int] == s@);
            return true;
        }
        i = i + 1;
    }
    false
}

impl Metadata {
    /// The first package with id `package_id`.
    pub fn find_package(&self, package_id: &str) -> (r: Option<&Package>)
        ensures
            r.is_some() == package_index(self@, package_id@).is_some(),
            r matches Some(p) ==> p@ == self@.packages[package_index(self@, package_id@)->0],
    {
        let id = package_id.to_owned();
        let ghost pred = has_id(self@, package_id@);
        let mut k: usize = 0;
        while k < self.packages.len()
            invariant
                k <= self.packages.len(),
                pred == has_id(self@, package_id@),
                id@ == package_id@,
                first_where(k as int, pred).is_none(),
            decreases self.packages.len() - k,
        {
            if self.packages[k].id == id {
                proof {
                    lemma_first_where_stays(k + 1, self.packages.len() as int, pred);
                }
                return Some(&self.packages[k]);
            }
            k = k + 1;
        }
        None
    }

    /// The id of the package that `dependency` of `package` resolves to: the
    /// package of that name among those that the resolve graph lists for
    /// `package`.
    pub fn dependency_package_id(&self, package: &Package, dependency: &Dependency) -> (r: Option<
        String,
    >)
        ensures
            r.is_some() == dep_package_id(self@, package@.id, dependency@.name).is_some(),
            r matches Some(id) ==> Some(id@) == dep_package_id(self@, package@.id, dependency@.name),
    {
        let ghost npred = is_node_of(self@, package@.id);
        let mut i: usize = 0;
        while i < self.resolve.len()
            invariant
                i <= self.resolve.len(),
                npred == is_node_of(self@, package@.id),
                first_where(i as int, npred).is_none(),
            decreases self.resolve.len() - i,
        {
            if self.resolve[i].id == package.id {
                proof {
                    lemma_first_where_stays(i + 1, self.resolve.len() as int, npred);
                }
                let node = &self.resolve[i];
                let ghost kpred = is_dependency_named(self@, i as int, dependency@.name);
                let mut k: usize = 0;
                while k < self.packages.len()
                    invariant
                        i < self.resolve.len(),
                        *node == self.resolve@[i as int],
                        node_index(self@, package@.id) == Some(i as int),
                        k <= self.packages.len(),
                        kpred == is_dependency_named(self@, i as int, dependency@.name),
                        first_where(k as int, kpred).is_none(),
                    decreases self.packages.len() - k,
                {
                    let p = &self.packages[k];
                    if contains_str(&node.dependencies, &p.id) && p.name == dependency.name {
                        proof {
                            lemma_first_where_stays(k + 1, self.packages.len() as int, kpred);
                        }
                        return Some(p.id.clone());
                    }
                    k = k + 1;
                }
                return None;
            }
            i = i + 1;
        }
        None
    }
}

/// The source paths of the first `n` targets whose kinds include `kind`.
pub open spec fn target_sources(ts: Seq<TargetView>, kind: Seq<char>, n: int) -> Seq<Seq<char>>
    decreases n,
{
    if n <= 0 {
        seq![]
    } else if ts[n - 1].kind.contains(kind) {
        target_sources(ts, kind, n - 1).push(ts[n - 1].src_path)
    } else {
        target_sources(ts, kind, n - 1)
    }
}

/// Some target of `p` is a procedural macro.
pub open spec fn proc_macro_package(p: PackageView) -> bool {
    exists|i: int| 0 <= i < p.targets.len() && #[trigger] p.targets[i].kind.contains("proc-macro"@)
}

impl Target {
    pub fn copy(&self) -> (r: Target)
        ensures
            r@ == self@,
    {
        Target { name: self.name.clone(), kind: copy_strings(&self.kind), src_path: self.src_path.clone() }
    }
}

impl Package {
    /// The source paths of the targets whose kinds include `kind`.
    fn sources_of_kind(&self, kind: &String) -> (r: Vec<String>)
        ensures
            strs(r@) == target_sources(self@.targets, kind@, self@.targets.len() as int),
    {
        let mut r: Vec<String> = Vec::new();
        let mut i: usize = 0;
        while i < self.targets.len()
            invariant
                i <= self.targets.len(),
                strs(r@) == target_sources(self@.targets, kind@, i as int),
            decreases self.targets.len() - i,
        {
            assert(self.targets@[i as int]@ == self@.targets[i as int]);
            if contains_str(&self.targets[i].kind, kind) {
                let ghost r0 = r@;
                r.push(self.targets[i].src_path.clone());
                assert(strs(r@) =~= strs(r0).push(self@.targets[i as int].src_path));
            }
            i = i + 1;
        }
        r
    }

    /// The source paths of the library targets.
    pub fn lib_target_sources(&self) -> (r: Vec<String>)
        ensures
            strs(r@) == target_sources(self@.targets, "lib"@, self@.targets.len() as int),
    {
        self.sources_of_kind(&"lib".to_owned())
    }

    /// The source paths of the binary targets.
    pub fn bin_target_sources(&self) -> (r: Vec<String>)
        ensures
            strs(r@) == target_sources(self@.targets, "bin"@, self@.targets.len() as int),
    {
        self.sources_of_kind(&"bin".to_owned())
    }

    /// Whether some target of this package is a procedural macro.
    pub fn is_proc_macro(&self) -> (r: bool)
        ensures
            r == proc_macro_package(self@),
    {
        let kind = "proc-macro".to_owned();
        let mut i: usize = 0;
        while i < self.targets.len()
            invariant
                i <= self.targets.len(),
                kind@ == "proc-macro"@,
                forall|j: int| 0 <= j < i ==> !#[trigger] self@.targets[j].kind.contains("proc-macro"@),
            decreases self.targets.len() - i,
        {
            assert(self.targets@[i as int]@ == self@.targets[i as int]);
            if contains_str(&self.targets[i].kind, &kind) {
                assert(self@.targets[i as int].kind.contains("proc-macro"@));
                return true;
            }
            i = i + 1;
        }
        false
    }

    /// A copy of this package.
    pub fn copy(&self) -> (r: Package)
        ensures
            r@ == self@,
    {
        let mut dependencies: Vec<Dependency> = Vec::new();
        let mut i: usize = 0;
        while i < self.dependencies.len()
            invariant
                i <= self.dependencies.len(),
                dependencies@.len() == i,
                dependencies@.map_values(|d: Dependency| d@) == self.dependencies@.subrange(0, i as int).map_values(|d: Dependency| d@),
            decreases self.dependencies.len() - i,
        {
            let ghost d0 = dependencies@;
            dependencies.push(self.dependencies[i].copy());
            assert(dependencies@.map_values(|d: Dependency| d@) =~= self.dependencies@.subrange(0, i + 1).map_values(|d: Dependency| d@)) by {
                assert(self.dependencies@.subrange(0, i + 1) =~= self.dependencies@.subrange(0, i as int).push(self.dependencies@[i as int]));
                assert(dependencies@ =~= d0.push(dependencies@[i as int]));
                assert(dependencies@.map_values(|d: Dependency| d@) =~= d0.map_values(|d: Dependency| d@).push((|d: Dependency| d@)(dependencies@[i as int])));
                assert(self.dependencies@.subrange(0, i + 1).map_values(|d: Dependency| d@) =~= self.dependencies@.subrange(0, i as int).map_values(|d: Dependency| d@).push((|d: Dependency| d@)(self.dependencies@[i as int])));
            }
            i = i + 1;
        }
        let mut features: Vec<(String, Vec<String>)> = Vec::new();
        let mut i: usize = 0;
        while i < self.features.len()
            invariant
                i <= self.features.len(),
                features@.len() == i,
                features@.map_values(|e: (String, Vec<String>)| (e.0@, strs(e.1@))) == self.features@.subrange(0, i as int).map_values(|e: (String, Vec<String>)| (e.0@, strs(e.1@))),
            decreases self.features.len() - i,
        {
            let ghost f0 = features@;
            features.push((self.features[i].0.clone(), copy_strings(&self.features[i].1)));
            assert(features@.map_values(|e: (String, Vec<String>)| (e.0@, strs(e.1@))) =~= self.features@.subrange(0, i + 1).map_values(|e: (String, Vec<String>)| (e.0@, strs(e.1@)))) by {
                assert(self.features@.subrange(0, i + 1) =~= self.features@.subrange(0, i as int).push(self.features@[i as int]));
                assert(features@ =~= f0.push(features@[i as int]));
                assert(features@.map_values(|e: (String, Vec<String>)| (e.0@, strs(e.1@))) =~= f0.map_values(|e: (String, Vec<String>)| (e.0@, strs(e.1@))).push((|e: (String, Vec<String>)| (e.0@, strs(e.1@)))(features@[i as int])));
                assert(self.features@.subrange(0, i + 1).map_values(|e: (String, Vec<String>)| (e.0@, strs(e.1@))) =~= self.features@.subrange(0, i as int).map_values(|e: (String, Vec<String>)| (e.0@, strs(e.1@))).push((|e: (String, Vec<String>)| (e.0@, strs(e.1@)))(self.features@[i as int])));
            }
            i = i + 1;
        }
        let mut targets: Vec<Target> = Vec::new();
        let mut i: usize = 0;
        while i < self.targets.len()
            invariant
                i <= self.targets.len(),
                targets@.len() == i,
                targets@.map_values(|t: Target| t@) == self.targets@.subrange(0, i as int).map_values(|t: Target| t@),
            decreases self.targets.len() - i,
        {
            let ghost t0 = targets@;
            targets.push(self.targets[i].copy());
            assert(targets@.map_values(|t: Target| t@) =~= self.targets@.subrange(0, i + 1).map_values(|t: Target| t@)) by {
                assert(self.targets@.subrange(0, i + 1) =~= self.targets@.subrange(0, i as int).push(self.targets@[i as int]));
                assert(targets@ =~= t0.push(targets@[i as int]));
                assert(targets@.map_values(|t: Target| t@) =~= t0.map_values(|t: Target| t@).push((|t: Target| t@)(targets@[i as int])));
                assert(self.targets@.subrange(0, i + 1).map_values(|t: Target| t@) =~= self.targets@.subrange(0, i as int).map_values(|t: Target| t@).push((|t: Target| t@)(self.targets@[i as int])));
            }
            i = i + 1;
        }
        proof {
            assert(self.dependencies@.subrange(0, self.dependencies@.len() as int) == self.dependencies@);
            assert(self.features@.subrange(0, self.features@.len() as int) == self.features@);
            assert(self.targets@.subrange(0, self.targets@.len() as int) == self.targets@);
        }
        Package {
            id: self.id.clone(),
            name: self.name.clone(),
            version: self.version.clone(),
            manifest_path: self.manifest_path.clone(),
            dependencies,
            features,
            targets,
        }
    }
}

} // verus!

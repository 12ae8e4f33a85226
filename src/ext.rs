//! Features, their causes, and the resolution of the features and
//! dependencies that a selection of features activates.
use vstd::prelude::*;

use crate::metadata::{
    dep_package_id, Dependency, DependencyKind, DependencyView, Metadata, MetadataView, Package,
    PackageView,
};
use crate::text::{find_char, has_char};

verus! {

/// One activated feature flag, scoped to the package that owns it.
#[derive(Debug, PartialEq, Eq, Hash)]
pub struct Feature {
    pub package_id: String,
    pub name: String,
    pub causes: Vec<FeatureCause>,
}

/// Why a feature is active.
#[derive(Debug, PartialEq, Eq, Hash)]
pub enum FeatureCause {
    /// Activated by another feature.
    Feature(Box<Feature>),
    /// Activated as a default feature by the package with this id.
    Default(String),
    /// Requested explicitly by the package with this id.
    Explicit(String),
    /// Requested through a `--features` flag.
    CliFlag(String),
}

/// The feature that a cause names, as (package id, name).
pub open spec fn cause_key(c: FeatureCause) -> Option<(Seq<char>, Seq<char>)> {
    match c {
        FeatureCause::Feature(f) => Some(f.key()),
        _ => None,
    }
}

/// The same cause: of the same kind, with the same text or the same feature.
pub open spec fn same_cause(a: FeatureCause, b: FeatureCause) -> bool
    decreases a,
{
    match a {
        FeatureCause::Feature(x) => match b {
            FeatureCause::Feature(y) => x.similar(*y),
            _ => false,
        },
        FeatureCause::Default(s) => match b {
            FeatureCause::Default(t) => s@ == t@,
            _ => false,
        },
        FeatureCause::Explicit(s) => match b {
            FeatureCause::Explicit(t) => s@ == t@,
            _ => false,
        },
        FeatureCause::CliFlag(s) => match b {
            FeatureCause::CliFlag(t) => s@ == t@,
            _ => false,
        },
    }
}

pub proof fn lemma_similar_trans(a: Feature, b: Feature, c: Feature)
    requires
        a.similar(b),
        b.similar(c),
    ensures
        a.similar(c),
    decreases a,
{
    assert forall|i: int| 0 <= i < a.causes@.len() implies same_cause(
        #[trigger] a.causes@[i],
        c.causes@[i],
    ) by {
        assert(decreases_to!(a => a.causes@[i]));
        lemma_same_cause_trans(a.causes@[i], b.causes@[i], c.causes@[i]);
    }
}

pub proof fn lemma_same_cause_trans(x: FeatureCause, y: FeatureCause, z: FeatureCause)
    requires
        same_cause(x, y),
        same_cause(y, z),
    ensures
        same_cause(x, z),
    decreases x,
{
    match x {
        FeatureCause::Feature(p) => match y {
            FeatureCause::Feature(q) => match z {
                FeatureCause::Feature(r) => lemma_similar_trans(*p, *q, *r),
                _ => {},
            },
            _ => {},
        },
        _ => {},
    }
}

proof fn lemma_same_cause_key(x: FeatureCause, y: FeatureCause)
    requires
        same_cause(x, y),
    ensures
        cause_key(x) == cause_key(y),
{
}

/// A cross-package feature reference, written `dependency/feature`.
pub open spec fn is_cross(name: Seq<char>) -> bool {
    name.contains('/')
}

/// The feature table of `p` lists `b` under feature `a`.
pub open spec fn activates(p: PackageView, a: Seq<char>, b: Seq<char>) -> bool {
    exists|i: int, j: int|
        0 <= i < p.features.len() && 0 <= j < p.features[i].1.len() && p.features[i].0 == a
            && #[trigger] p.features[i].1[j] == b
}

/// Some feature of `fs` has this (package id, name).
pub open spec fn has_key(fs: Seq<Feature>, key: (Seq<char>, Seq<char>)) -> bool {
    exists|m: int| 0 <= m < fs.len() && #[trigger] fs[m].key() == key
}

/// No two features of `fs` share a (package id, name).
pub open spec fn distinct_keys(fs: Seq<Feature>) -> bool {
    forall|a: int, b: int| 0 <= a < b < fs.len() ==> fs[a].key() != fs[b].key()
}

/// `fs[k]` is a local feature of `p` activated by an earlier feature of `fs`,
/// which its single cause names.
pub open spec fn derived_in(p: PackageView, fs: Seq<Feature>, k: int) -> bool {
    &&& fs[k].package_id@ == p.id
    &&& !is_cross(fs[k].name@)
    &&& exists|j: int|
        0 <= j < k && #[trigger] fs[k].caused_by(fs[j].key()) && activates(p, fs[j].name@, fs[k].name@)
}

/// Every local name that a feature of `fs` activates is a feature of `p` in `fs`.
pub open spec fn closed_under(p: PackageView, fs: Seq<Feature>) -> bool {
    forall|k: int, t: Seq<char>|
        0 <= k < fs.len() && #[trigger] activates(p, fs[k].name@, t) && !is_cross(t) ==> has_key(
            fs,
            (p.id, t),
        )
}

/// The names that the feature table of `p` lists, as a set.
pub open spec fn table_names(fs: Seq<(Seq<char>, Seq<Seq<char>>)>) -> Set<Seq<char>>
    decreases fs.len(),
{
    if fs.len() == 0 {
        Set::empty()
    } else {
        table_names(fs.drop_last()).union(fs.last().1.to_set())
    }
}

proof fn lemma_table_names(fs: Seq<(Seq<char>, Seq<Seq<char>>)>)
    ensures
        table_names(fs).finite(),
        forall|a: int, b: int|
            0 <= a < fs.len() && 0 <= b < fs[a].1.len() ==> table_names(fs).contains(
                #[trigger] fs[a].1[b],
            ),
    decreases fs.len(),
{
    broadcast use vstd::seq_lib::seq_to_set_is_finite;

    if fs.len() > 0 {
        lemma_table_names(fs.drop_last());
        assert forall|a: int, b: int|
            0 <= a < fs.len() && 0 <= b < fs[a].1.len() implies table_names(fs).contains(
                #[trigger] fs[a].1[b],
            ) by {
            if a < fs.len() - 1 {
                assert(fs.drop_last()[a] == fs[a]);
            } else {
                assert(fs.last().1.contains(fs[a].1[b]));
            }
        }
    }
}

impl Feature {
    pub open spec fn key(self) -> (Seq<char>, Seq<char>) {
        (self.package_id@, self.name@)
    }

    /// The only cause of this feature is the feature with key `parent`.
    pub open spec fn caused_by(self, parent: (Seq<char>, Seq<char>)) -> bool {
        self.causes@.len() == 1 && cause_key(self.causes@[0]) == Some(parent)
    }

    /// The same feature: same package, name and causes, each cause of the
    /// same kind with the same text or, for a feature, the same feature.
    pub open spec fn similar(self, o: Feature) -> bool
        decreases self,
    {
        &&& self.key() == o.key()
        &&& self.causes@.len() == o.causes@.len()
        &&& forall|i: int|
            0 <= i < self.causes@.len() ==> same_cause(#[trigger] self.causes@[i], o.causes@[i])
    }

    /// The only cause of this feature is a copy of `parent`.
    pub open spec fn caused_by_copy_of(self, parent: Feature) -> bool {
        &&& self.causes@.len() == 1
        &&& match self.causes@[0] {
            FeatureCause::Feature(b) => b.similar(parent),
            _ => false,
        }
    }

    pub fn new(package_id: String, feature: String) -> (r: Feature)
        ensures
            r.package_id@ == package_id@,
            r.name@ == feature@,
            r.causes@.len() == 0,
    {
        Feature { package_id, name: feature, causes: Vec::new() }
    }

    /// A copy of this feature, its causes naming the same features.
    pub fn copy(&self) -> (r: Feature)
        ensures
            r.similar(*self),
        decreases self,
    {
        let mut causes: Vec<FeatureCause> = Vec::new();
        let mut i: usize = 0;
        while i < self.causes.len()
            invariant
                i <= self.causes.len(),
                causes@.len() == i,
                forall|j: int| 0 <= j < i ==> same_cause(#[trigger] causes@[j], self.causes@[j]),
            decreases self.causes.len() - i,
        {
            proof {
                assert(decreases_to!(self.causes => self.causes@[i as int]));
            }
            causes.push(self.causes[i].copy());
            i = i + 1;
        }
        Feature { package_id: self.package_id.clone(), name: self.name.clone(), causes }
    }

    /// A new feature `name` of the package `package_id`, activated by this one.
    pub fn activate(&self, package_id: String, name: String) -> (r: Feature)
        ensures
            r.key() == (package_id@, name@),
            r.caused_by(self.key()),
            r.caused_by_copy_of(*self),
    {
        let mut f = Feature::new(package_id, name);
        f.causes.push(FeatureCause::Feature(Box::new(self.copy())));
        f
    }
}

impl FeatureCause {
    /// A copy of this cause.
    pub fn copy(&self) -> (r: FeatureCause)
        ensures
            same_cause(r, *self),
        decreases self,
    {
        match self {
            FeatureCause::Feature(f) => FeatureCause::Feature(Box::new(f.copy())),
            FeatureCause::Default(id) => FeatureCause::Default(id.clone()),
            FeatureCause::Explicit(id) => FeatureCause::Explicit(id.clone()),
            FeatureCause::CliFlag(flag) => FeatureCause::CliFlag(flag.clone()),
        }
    }
}

/// Whether some feature of `fs` is `name` of the package `package_id`.
pub fn contains_key(fs: &Vec<Feature>, package_id: &String, name: &String) -> (r: bool)
    ensures
        r == has_key(fs@, (package_id@, name@)),
{
    let mut i: usize = 0;
    while i < fs.len()
        invariant
            i <= fs.len(),
            forall|m: int| 0 <= m < i ==> fs@[m].key() != (package_id@, name@),
        decreases fs.len() - i,
    {
        if fs[i].package_id == *package_id && fs[i].name == *name {
            assert(fs@[i as int].key() == (package_id@, name@));
            return true;
        }
        i = i + 1;
    }
    false
}

/// Every local name that one of the first `n` features of `fs` activates is
/// a feature of `p` in `fs`.
pub open spec fn expanded_upto(p: PackageView, fs: Seq<Feature>, n: int) -> bool {
    forall|k: int, t: Seq<char>|
        0 <= k < n && #[trigger] activates(p, fs[k].name@, t) && !is_cross(t) ==> has_key(
            fs,
            (p.id, t),
        )
}

/// Every local name listed under `name` in the table entries before `(i, j)`
/// is a feature of `p` in `fs`.
pub open spec fn entries_done(p: PackageView, fs: Seq<Feature>, name: Seq<char>, i: int, j: int) -> bool {
    forall|a: int, b: int|
        (0 <= a < i && 0 <= b < p.features[a].1.len() || a == i && 0 <= b < j) && p.features[a].0
            == name && !is_cross(#[trigger] p.features[a].1[b]) ==> has_key(
            fs,
            (p.id, p.features[a].1[b]),
        )
}

/// `added` holds exactly the names of the features derived so far.
pub open spec fn tracks(p: PackageView, fs: Seq<Feature>, added: Set<Seq<char>>) -> bool {
    &&& forall|k: int| 1 <= k < fs.len() ==> added.contains(#[trigger] fs[k].name@)
    &&& forall|n: Seq<char>| #[trigger] added.contains(n) ==> has_key(fs, (p.id, n))
}

/// The cause of each feature after the first is a copy of an earlier one.
pub open spec fn all_caused_by_copies(fs: Seq<Feature>) -> bool {
    forall|k: int| 1 <= k < fs.len() ==> #[trigger] caused_by_earlier(fs, k)
}

/// The cause of `fs[k]` is a copy of a feature before it.
pub open spec fn caused_by_earlier(fs: Seq<Feature>, k: int) -> bool {
    exists|j: int| 0 <= j < k && #[trigger] fs[k].caused_by_copy_of(fs[j])
}

pub open spec fn all_derived(p: PackageView, fs: Seq<Feature>) -> bool {
    forall|k: int| 1 <= k < fs.len() ==> derived_in(p, fs, k)
}

proof fn lemma_has_key_push(fs: Seq<Feature>, f: Feature, key: (Seq<char>, Seq<char>))
    requires
        has_key(fs, key),
    ensures
        has_key(fs.push(f), key),
{
    let m = choose|m: int| 0 <= m < fs.len() && #[trigger] fs[m].key() == key;
    assert(fs.push(f)[m] == fs[m]);
}

/// Appending a local feature activated by `fs[parent]` keeps every invariant
/// of the resolution.
proof fn lemma_push_derived(
    p: PackageView,
    fs: Seq<Feature>,
    f: Feature,
    parent: int,
    next: int,
    name: Seq<char>,
    i: int,
    j: int,
    added: Set<Seq<char>>,
)
    requires
        0 <= parent < fs.len(),
        0 <= i < p.features.len(),
        0 <= j < p.features[i].1.len(),
        p.features[i].0 == name,
        fs[parent].name@ == name,
        f.key() == (p.id, p.features[i].1[j]),
        !is_cross(p.features[i].1[j]),
        f.caused_by(fs[parent].key()),
        f.caused_by_copy_of(fs[parent]),
        !has_key(fs, f.key()),
        distinct_keys(fs),
        all_derived(p, fs),
        all_caused_by_copies(fs),
        expanded_upto(p, fs, next),
        entries_done(p, fs, name, i, j),
        tracks(p, fs, added),
    ensures
        distinct_keys(fs.push(f)),
        all_derived(p, fs.push(f)),
        all_caused_by_copies(fs.push(f)),
        expanded_upto(p, fs.push(f), next),
        entries_done(p, fs.push(f), name, i, j + 1),
        tracks(p, fs.push(f), added.insert(f.name@)),
        !added.contains(f.name@),
{
    let r = fs.push(f);
    let tv = p.features[i].1[j];
    assert forall|k: int| 1 <= k < r.len() implies #[trigger] caused_by_earlier(r, k) by {
        if k < r.len() - 1 {
            assert(caused_by_earlier(fs, k));
            let j2 = choose|j2: int| 0 <= j2 < k && #[trigger] fs[k].caused_by_copy_of(fs[j2]);
            assert(r[k] == fs[k] && r[j2] == fs[j2]);
        } else {
            assert(r[k] == f && r[parent] == fs[parent]);
        }
    }
    assert(activates(p, fs[parent].name@, tv));
    assert(r[parent] == fs[parent]);
    assert(r[r.len() - 1] == f);
    assert(r[r.len() - 1].caused_by(r[parent].key()));
    assert(activates(p, r[parent].name@, r[r.len() - 1].name@));
    assert(derived_in(p, r, r.len() - 1));
    assert forall|k: int| 1 <= k < r.len() implies derived_in(p, r, k) by {
        if k < r.len() - 1 {
            assert(r[k] == fs[k]);
            assert(derived_in(p, fs, k));
            let jj = choose|jj: int|
                0 <= jj < k && #[trigger] fs[k].caused_by(fs[jj].key()) && activates(
                    p,
                    fs[jj].name@,
                    fs[k].name@,
                );
            assert(r[jj] == fs[jj]);
        }
    }
    assert forall|a: int, b: int| 0 <= a < b < r.len() implies r[a].key() != r[b].key() by {
        if b == r.len() - 1 {
            assert(r[a] == fs[a]);
        } else {
            assert(r[a] == fs[a] && r[b] == fs[b]);
        }
    }
    assert(has_key(r, (p.id, tv))) by {
        assert(r[r.len() - 1].key() == (p.id, tv));
    }
    assert forall|k: int, t: Seq<char>|
        0 <= k < next && #[trigger] activates(p, r[k].name@, t) && !is_cross(t) implies has_key(
            r,
            (p.id, t),
        ) by {
        assert(r[k] == fs[k]);
        lemma_has_key_push(fs, f, (p.id, t));
    }
    assert forall|a: int, b: int|
        (0 <= a < i && 0 <= b < p.features[a].1.len() || a == i && 0 <= b < j + 1)
            && p.features[a].0 == name && !is_cross(#[trigger] p.features[a].1[b]) implies has_key(
        r,
        (p.id, p.features[a].1[b]),
    ) by {
        if !(a == i && b == j) {
            lemma_has_key_push(fs, f, (p.id, p.features[a].1[b]));
        }
    }
    assert forall|k: int| 1 <= k < r.len() implies added.insert(f.name@).contains(
        #[trigger] r[k].name@,
    ) by {
        if k < r.len() - 1 {
            assert(r[k] == fs[k]);
        }
    }
    assert forall|n: Seq<char>| #[trigger] added.insert(f.name@).contains(n) implies has_key(
        r,
        (p.id, n),
    ) by {
        if n != f.name@ {
            lemma_has_key_push(fs, f, (p.id, n));
        }
    }
}

/// Once the entries of the table have all been gone through for
/// `fs[next]`, the first `next + 1` features are expanded.
proof fn lemma_expanded_next(p: PackageView, fs: Seq<Feature>, next: int)
    requires
        0 <= next < fs.len(),
        expanded_upto(p, fs, next),
        entries_done(p, fs, fs[next].name@, p.features.len() as int, 0),
    ensures
        expanded_upto(p, fs, next + 1),
{
    assert forall|k: int, t: Seq<char>|
        0 <= k < next + 1 && #[trigger] activates(p, fs[k].name@, t) && !is_cross(t) implies has_key(
        fs,
        (p.id, t),
    ) by {
        if k == next {
            let (a, b) = choose|a: int, b: int|
                0 <= a < p.features.len() && 0 <= b < p.features[a].1.len() && p.features[a].0
                    == fs[k].name@ && #[trigger] p.features[a].1[b] == t;
        }
    }
}

/// `fs` is the resolution of `seed` in `p`: empty for a cross-package
/// reference; otherwise `seed` first, each feature once, each later one a
/// local feature caused by an earlier one, and closed under the feature table.
pub open spec fn resolution_of(p: PackageView, seed: Feature, fs: Seq<Feature>) -> bool {
    &&& is_cross(seed.name@) ==> fs.len() == 0
    &&& !is_cross(seed.name@) ==> {
        &&& fs.len() >= 1
        &&& fs[0].similar(seed)
        &&& distinct_keys(fs)
        &&& all_derived(p, fs)
        &&& all_caused_by_copies(fs)
        &&& closed_under(p, fs)
    }
}

/// Following the single feature cause of `f` at most `n` times reaches a
/// copy of `seed`.
pub open spec fn chain_reaches(f: Feature, seed: Feature, n: nat) -> bool
    decreases n,
{
    f.similar(seed) || (n > 0 && f.causes@.len() == 1 && match f.causes@[0] {
        FeatureCause::Feature(b) => chain_reaches(*b, seed, (n - 1) as nat),
        _ => false,
    })
}

proof fn lemma_chain_similar(a: Feature, b: Feature, seed: Feature, n: nat)
    requires
        a.similar(b),
        chain_reaches(b, seed, n),
    ensures
        chain_reaches(a, seed, n),
    decreases n,
{
    if b.similar(seed) {
        lemma_similar_trans(a, b, seed);
    } else {
        assert(same_cause(a.causes@[0], b.causes@[0]));
        match b.causes@[0] {
            FeatureCause::Feature(bb) => match a.causes@[0] {
                FeatureCause::Feature(aa) => {
                    lemma_chain_similar(*aa, *bb, seed, (n - 1) as nat);
                },
                _ => {},
            },
            _ => {},
        }
    }
}

proof fn lemma_chain_longer(f: Feature, seed: Feature, n: nat, m: nat)
    requires
        chain_reaches(f, seed, n),
        n <= m,
    ensures
        chain_reaches(f, seed, m),
    decreases n,
{
    if !f.similar(seed) {
        match f.causes@[0] {
            FeatureCause::Feature(b) => lemma_chain_longer(*b, seed, (n - 1) as nat, (m - 1) as nat),
            _ => {},
        }
    }
}

/// Every feature of a resolution reaches the seed through its causes: each
/// cause chain ends at the seed, with the seed's own causes.
pub proof fn lemma_resolution_chains_end_at_seed(p: PackageView, seed: Feature, fs: Seq<Feature>, k: int)
    requires
        resolution_of(p, seed, fs),
        0 <= k < fs.len(),
    ensures
        chain_reaches(fs[k], seed, k as nat),
    decreases k,
{
    if k > 0 {
        assert(caused_by_earlier(fs, k));
        let j = choose|j: int| 0 <= j < k && #[trigger] fs[k].caused_by_copy_of(fs[j]);
        lemma_resolution_chains_end_at_seed(p, seed, fs, j);
        match fs[k].causes@[0] {
            FeatureCause::Feature(b) => {
                lemma_chain_similar(*b, fs[j], seed, j as nat);
                lemma_chain_longer(*b, seed, j as nat, (k - 1) as nat);
            },
            _ => {},
        }
    }
}

/// A feature that activates nothing resolves to itself alone, with its own
/// causes.
pub proof fn lemma_leaf_feature_resolves_to_itself(p: PackageView, seed: Feature, fs: Seq<Feature>)
    requires
        resolution_of(p, seed, fs),
        !is_cross(seed.name@),
        forall|t: Seq<char>| !activates(p, seed.name@, t),
    ensures
        fs.len() == 1,
        fs[0].similar(seed),
{
    if fs.len() > 1 {
        assert(derived_in(p, fs, 1));
    }
}

proof fn lemma_cycle_names(p: PackageView, fs: Seq<Feature>, a: Seq<char>, b: Seq<char>, k: int)
    requires
        all_derived(p, fs),
        fs.len() >= 1,
        fs[0].name@ == a,
        forall|t: Seq<char>| activates(p, a, t) <==> t == b,
        forall|t: Seq<char>| activates(p, b, t) <==> t == a,
        0 <= k < fs.len(),
    ensures
        fs[k].name@ == a || fs[k].name@ == b,
    decreases k,
{
    if k > 0 {
        assert(derived_in(p, fs, k));
        let j = choose|j: int|
            0 <= j < k && #[trigger] fs[k].caused_by(fs[j].key()) && activates(
                p,
                fs[j].name@,
                fs[k].name@,
            );
        lemma_cycle_names(p, fs, a, b, j);
    }
}

/// Two features of `p` that activate each other resolve, from either one, to
/// exactly the two of them, each once.
pub proof fn lemma_feature_cycle_resolves_to_both(
    p: PackageView,
    seed: Feature,
    b: Seq<char>,
    fs: Seq<Feature>,
)
    requires
        resolution_of(p, seed, fs),
        seed.package_id@ == p.id,
        !is_cross(seed.name@),
        !is_cross(b),
        seed.name@ != b,
        forall|t: Seq<char>| activates(p, seed.name@, t) <==> t == b,
        forall|t: Seq<char>| activates(p, b, t) <==> t == seed.name@,
    ensures
        fs.len() == 2,
        fs[0].key() == (p.id, seed.name@),
        fs[1].key() == (p.id, b),
{
    let a = seed.name@;
    assert(activates(p, fs[0].name@, b));
    assert(has_key(fs, (p.id, b)));
    let m = choose|m: int| 0 <= m < fs.len() && #[trigger] fs[m].key() == (p.id, b);
    assert(m != 0);
    assert forall|k: int| 0 <= k < fs.len() implies #[trigger] fs[k].key() == (p.id, a) || fs[k].key()
        == (p.id, b) by {
        lemma_cycle_names(p, fs, a, b, k);
        if k > 0 {
            assert(derived_in(p, fs, k));
        }
    }
    if fs.len() > 2 {
        assert(fs[0].key() != fs[1].key() && fs[0].key() != fs[2].key() && fs[1].key() != fs[2].key());
    }
}

/// No feature that a resolution gives its package is a cross-package
/// reference.
pub proof fn lemma_resolution_has_no_cross_names(p: PackageView, seed: Feature, fs: Seq<Feature>)
    requires
        resolution_of(p, seed, fs),
    ensures
        forall|k: int| 0 <= k < fs.len() ==> !is_cross(#[trigger] fs[k].name@),
{
    assert forall|k: int| 0 <= k < fs.len() implies !is_cross(#[trigger] fs[k].name@) by {
        if k > 0 {
            assert(derived_in(p, fs, k));
        }
    }
}

/// The lists of `cls` one after the other.
pub open spec fn concat_all(cls: Seq<Seq<Feature>>) -> Seq<Feature>
    decreases cls.len(),
{
    if cls.len() == 0 {
        seq![]
    } else {
        concat_all(cls.drop_last()) + cls.last()
    }
}

/// `s` without each feature whose (package id, name) an earlier one has.
pub open spec fn first_by_key(s: Seq<Feature>) -> Seq<Feature>
    decreases s.len(),
{
    if s.len() == 0 {
        seq![]
    } else {
        let prev = first_by_key(s.drop_last());
        if has_key(prev, s.last().key()) {
            prev
        } else {
            prev.push(s.last())
        }
    }
}

/// `a` and `b` hold the same features, position by position.
pub open spec fn same_features(a: Seq<Feature>, b: Seq<Feature>) -> bool {
    a.len() == b.len() && forall|k: int| 0 <= k < a.len() ==> (#[trigger] a[k]).similar(b[k])
}

/// `fs` keeps, of the resolutions `cls` of the seeds taken in order, the
/// first feature of each (package id, name).
pub open spec fn first_explanations(p: PackageView, seeds: Seq<Feature>, cls: Seq<Seq<Feature>>, fs: Seq<Feature>) -> bool {
    &&& cls.len() == seeds.len()
    &&& forall|i: int| 0 <= i < cls.len() ==> resolution_of(p, seeds[i], #[trigger] cls[i])
    &&& same_features(fs, first_by_key(concat_all(cls)))
}

proof fn lemma_same_features_keys(a: Seq<Feature>, b: Seq<Feature>, key: (Seq<char>, Seq<char>))
    requires
        same_features(a, b),
    ensures
        has_key(a, key) == has_key(b, key),
{
    if has_key(a, key) {
        let m = choose|m: int| 0 <= m < a.len() && #[trigger] a[m].key() == key;
        assert(a[m].similar(b[m]));
    }
    if has_key(b, key) {
        let m = choose|m: int| 0 <= m < b.len() && #[trigger] b[m].key() == key;
        assert(a[m].similar(b[m]));
    }
}

/// `fs` is the resolution of every seed of `seeds` in `p`, merged: each
/// local seed is present, each feature once, every feature is a copy of a
/// local seed or a local feature caused by an earlier one, and the list is
/// closed under the feature table.
pub open spec fn resolution_of_all(p: PackageView, seeds: Seq<Feature>, fs: Seq<Feature>) -> bool {
    &&& distinct_keys(fs)
    &&& closed_under(p, fs)
    &&& forall|i: int|
        0 <= i < seeds.len() && !is_cross(seeds[i].name@) ==> has_key(fs, #[trigger] seeds[i].key())
    &&& forall|k: int|
        0 <= k < fs.len() ==> (exists|i: int|
            0 <= i < seeds.len() && !is_cross(seeds[i].name@) && #[trigger] fs[k].similar(seeds[i]))
            || derived_in(p, fs, k)
}

/// The features of `fs` at `lo..` are copies of features of `c`.
pub open spec fn copied_from(fs: Seq<Feature>, lo: int, c: Seq<Feature>) -> bool {
    forall|k: int| lo <= k < fs.len() ==> has_similar(c, #[trigger] fs[k])
}

/// Some feature of `c` is similar to `f`.
pub open spec fn has_similar(c: Seq<Feature>, f: Feature) -> bool {
    exists|m: int| 0 <= m < c.len() && #[trigger] f.similar(c[m])
}

/// `f` is a copy of a seed of `seeds` that is not a cross-package reference.
pub open spec fn copies_local_seed(seeds: Seq<Feature>, f: Feature) -> bool {
    exists|s: int| 0 <= s < seeds.len() && !is_cross(seeds[s].name@) && #[trigger] f.similar(seeds[s])
}

proof fn lemma_merge_closed(p: PackageView, fs: Seq<Feature>, lo: int, c: Seq<Feature>)
    requires
        0 <= lo <= fs.len(),
        closed_under(p, fs.subrange(0, lo)),
        closed_under(p, c),
        copied_from(fs, lo, c),
        forall|m: int| 0 <= m < c.len() ==> has_key(fs, #[trigger] c[m].key()),
    ensures
        closed_under(p, fs),
{
    assert forall|k: int, t: Seq<char>|
        0 <= k < fs.len() && #[trigger] activates(p, fs[k].name@, t) && !is_cross(t) implies has_key(
        fs,
        (p.id, t),
    ) by {
        if k < lo {
            assert(fs.subrange(0, lo)[k] == fs[k]);
            let m = choose|m: int|
                0 <= m < lo && #[trigger] fs.subrange(0, lo)[m].key() == (p.id, t);
            assert(fs.subrange(0, lo)[m] == fs[m]);
        } else {
            assert(has_similar(c, fs[k]));
            let m = choose|m: int| 0 <= m < c.len() && #[trigger] fs[k].similar(c[m]);
            assert(activates(p, c[m].name@, t));
            let q = choose|q: int| 0 <= q < c.len() && #[trigger] c[q].key() == (p.id, t);
            assert(has_key(fs, c[q].key()));
        }
    }
}

impl Package {
    /// Every feature that `feature` activates in this package, `feature`
    /// first. Each activated feature is named once, with the feature that
    /// activated it as its cause; the result is the least such list that no
    /// local name of the feature table leads out of. A cross-package reference
    /// (`dependency/feature`) is not a feature of this package: it resolves to
    /// nothing here.
    pub fn active_features_for_feature(&self, feature: &Feature) -> (r: Vec<Feature>)
        ensures
            resolution_of(self@, *feature, r@),
            r@.len() <= 1 + table_names(self@.features).len(),
    {
        let mut r: Vec<Feature> = Vec::new();
        if has_char(feature.name.as_str(), '/') {
            return r;
        }
        r.push(feature.copy());
        let ghost univ: Set<Seq<char>> = table_names(self@.features);
        let ghost mut added: Set<Seq<char>> = Set::empty();
        proof {
            lemma_table_names(self@.features);
        }
        let mut next: usize = 0;
        while next < r.len()
            invariant
                1 <= r@.len(),
                next <= r@.len(),
                r@[0].similar(*feature),
                distinct_keys(r@),
                all_derived(self@, r@),
                all_caused_by_copies(r@),
                expanded_upto(self@, r@, next as int),
                univ == table_names(self@.features),
                univ.finite(),
                added.subset_of(univ),
                added.finite(),
                added.len() + 1 == r@.len(),
                tracks(self@, r@, added),
            decreases univ.difference(added).len(), r@.len() - next,
        {
            let parent = r[next].copy();
            let ghost d0 = univ.difference(added).len();
            let ghost l0 = r@.len();
            let ghost r0 = r@;
            let mut i: usize = 0;
            while i < self.features.len()
                invariant
                    next < l0 <= r@.len(),
                    r@.subrange(0, l0 as int) == r0,
                    parent.key() == r@[next as int].key(),
                    i <= self.features.len(),
                    r@[0].similar(*feature),
                    distinct_keys(r@),
                    all_derived(self@, r@),
                    all_caused_by_copies(r@),
                    expanded_upto(self@, r@, next as int),
                    entries_done(self@, r@, parent.name@, i as int, 0),
                    univ == table_names(self@.features),
                    univ.finite(),
                    added.subset_of(univ),
                    added.finite(),
                    added.len() + 1 == r@.len(),
                    tracks(self@, r@, added),
                    univ.difference(added).len() + r@.len() <= d0 + l0,
                decreases self.features.len() - i,
            {
                if self.features[i].0 == parent.name {
                    let mut j: usize = 0;
                    while j < self.features[i].1.len()
                        invariant
                            i < self.features.len(),
                            self@.features[i as int].0 == parent.name@,
                            next < l0 <= r@.len(),
                            r@.subrange(0, l0 as int) == r0,
                            parent.key() == r@[next as int].key(),
                            j <= self@.features[i as int].1.len(),
                            r@[0].similar(*feature),
                            distinct_keys(r@),
                            all_derived(self@, r@),
                            all_caused_by_copies(r@),
                            expanded_upto(self@, r@, next as int),
                            entries_done(self@, r@, parent.name@, i as int, j as int),
                            univ == table_names(self@.features),
                            univ.finite(),
                            added.subset_of(univ),
                            added.finite(),
                            added.len() + 1 == r@.len(),
                            tracks(self@, r@, added),
                            univ.difference(added).len() + r@.len() <= d0 + l0,
                        decreases self@.features[i as int].1.len() - j,
                    {
                        let t = &self.features[i].1[j];
                        let ghost tv = self@.features[i as int].1[j as int];
                        assert(t@ == tv);
                        if !has_char(t.as_str(), '/') && !contains_key(&r, &self.id, t) {
                            let f = r[next].activate(self.id.clone(), t.clone());
                            let ghost rb = r@;
                            proof {
                                lemma_push_derived(
                                    self@,
                                    rb,
                                    f,
                                    next as int,
                                    next as int,
                                    parent.name@,
                                    i as int,
                                    j as int,
                                    added,
                                );
                                lemma_table_names(self@.features);
                                assert(univ.contains(tv));
                                univ.lemma_set_insert_diff_decreases(added, tv);
                                added = added.insert(tv);
                            }
                            r.push(f);
                            assert(r@.subrange(0, l0 as int) =~= r0);
                        } else {
                            proof {
                                assert forall|a: int, b: int|
                                    (0 <= a < i && 0 <= b < self@.features[a].1.len() || a == i
                                        && 0 <= b < j + 1) && self@.features[a].0 == parent.name@
                                        && !is_cross(
                                        #[trigger] self@.features[a].1[b],
                                    ) implies has_key(r@, (self@.id, self@.features[a].1[b])) by {}
                            }
                        }
                        j = j + 1;
                    }
                }
                i = i + 1;
            }
            proof {
                lemma_expanded_next(self@, r@, next as int);
            }
            next = next + 1;
        }
        proof {
            vstd::set_lib::lemma_len_subset(added, univ);
        }
        r
    }
}

impl Package {
    /// The resolutions of all of `features`, merged; where two resolutions
    /// name the same feature, the first one that names it is kept.
    pub fn active_features_for_features(&self, features: &Vec<Feature>) -> (r: Vec<Feature>)
        ensures
            resolution_of_all(self@, features@, r@),
            exists|cls: Seq<Seq<Feature>>| first_explanations(self@, features@, cls, r@),
    {
        let mut r: Vec<Feature> = Vec::new();
        let ghost mut cls: Seq<Seq<Feature>> = seq![];
        let mut i: usize = 0;
        while i < features.len()
            invariant
                i <= features.len(),
                cls.len() == i,
                forall|j: int| 0 <= j < i ==> resolution_of(self@, features@[j], #[trigger] cls[j]),
                same_features(r@, first_by_key(concat_all(cls))),
                distinct_keys(r@),
                closed_under(self@, r@),
                forall|s: int|
                    0 <= s < i && !is_cross(features@[s].name@) ==> has_key(
                        r@,
                        #[trigger] features@[s].key(),
                    ),
                forall|k: int|
                    0 <= k < r@.len() ==> copies_local_seed(features@, r@[k]) || derived_in(self@, r@, k),
            decreases features.len() - i,
        {
            let c = self.active_features_for_feature(&features[i]);
            let ghost r0 = r@;
            let ghost lo = r@.len() as int;
            let mut m: usize = 0;
            while m < c.len()
                invariant
                    i < features.len(),
                    resolution_of(self@, features@[i as int], c@),
                    m <= c.len(),
                    cls.len() == i,
                    forall|j: int| 0 <= j < i ==> resolution_of(self@, features@[j], #[trigger] cls[j]),
                    same_features(r@, first_by_key(concat_all(cls) + c@.subrange(0, m as int))),
                    0 <= lo <= r@.len(),
                    r@.subrange(0, lo) == r0,
                    closed_under(self@, r0),
                    distinct_keys(r@),
                    copied_from(r@, lo, c@),
                    forall|q: int| 0 <= q < m ==> has_key(r@, #[trigger] c@[q].key()),
                    forall|s: int|
                        0 <= s < i && !is_cross(features@[s].name@) ==> has_key(
                            r@,
                            #[trigger] features@[s].key(),
                        ),
                    forall|k: int|
                        0 <= k < r@.len() ==> copies_local_seed(features@, r@[k]) || derived_in(
                            self@,
                            r@,
                            k,
                        ),
                decreases c.len() - m,
            {
                let ghost flat = concat_all(cls) + c@.subrange(0, m as int);
                proof {
                    assert(flat.push(c@[m as int]) =~= concat_all(cls) + c@.subrange(0, m + 1));
                    assert(flat.push(c@[m as int]).drop_last() =~= flat);
                    lemma_same_features_keys(r@, first_by_key(flat), c@[m as int].key());
                }
                if !contains_key(&r, &c[m].package_id, &c[m].name) {
                    let x = c[m].copy();
                    let ghost rb = r@;
                    r.push(x);
                    proof {
                        self.lemma_merge_push(features@, i as int, c@, m as int, rb, x, lo, r0);
                        let d = first_by_key(flat.push(c@[m as int]));
                        assert(d == first_by_key(flat).push(c@[m as int]));
                        assert forall|k: int| 0 <= k < r@.len() implies (#[trigger] r@[k]).similar(d[k]) by {
                            if k < rb.len() {
                                assert(r@[k] == rb[k]);
                            }
                        }
                    }
                } else {
                    assert(has_key(r@, c@[m as int].key()));
                }
                m = m + 1;
            }
            proof {
                lemma_merge_closed(self@, r@, lo, c@);
                if !is_cross(features@[i as int].name@) {
                    assert(has_key(r@, c@[0].key()));
                }
                assert(c@.subrange(0, c@.len() as int) =~= c@);
                let cls2 = cls.push(c@);
                assert(cls2.drop_last() =~= cls);
                assert(concat_all(cls2) == concat_all(cls) + c@);
                cls = cls2;
            }
            i = i + 1;
        }
        assert(first_explanations(self@, features@, cls, r@));
        r
    }

    proof fn lemma_merge_push(
        &self,
        seeds: Seq<Feature>,
        i: int,
        c: Seq<Feature>,
        m: int,
        rb: Seq<Feature>,
        x: Feature,
        lo: int,
        r0: Seq<Feature>,
    )
        requires
            0 <= i < seeds.len(),
            resolution_of(self@, seeds[i], c),
            0 <= m < c.len(),
            x.similar(c[m]),
            !has_key(rb, c[m].key()),
            0 <= lo <= rb.len(),
            rb.subrange(0, lo) == r0,
            distinct_keys(rb),
            copied_from(rb, lo, c),
            forall|q: int| 0 <= q < m ==> has_key(rb, #[trigger] c[q].key()),
            forall|s: int|
                0 <= s < i && !is_cross(seeds[s].name@) ==> has_key(rb, #[trigger] seeds[s].key()),
            forall|k: int|
                0 <= k < rb.len() ==> copies_local_seed(seeds, rb[k]) || derived_in(self@, rb, k),
        ensures
            ({
                let r = rb.push(x);
                &&& r.subrange(0, lo) == r0
                &&& distinct_keys(r)
                &&& copied_from(r, lo, c)
                &&& forall|q: int| 0 <= q < m + 1 ==> has_key(r, #[trigger] c[q].key())
                &&& forall|s: int|
                    0 <= s < i && !is_cross(seeds[s].name@) ==> has_key(r, #[trigger] seeds[s].key())
                &&& forall|k: int|
                    0 <= k < r.len() ==> copies_local_seed(seeds, r[k]) || derived_in(self@, r, k)
            }),
    {
        let r = rb.push(x);
        assert(r.subrange(0, lo) =~= r0);
        assert forall|a: int, b: int| 0 <= a < b < r.len() implies r[a].key() != r[b].key() by {
            assert(r[a] == rb[a] || a == r.len() - 1);
            if b < r.len() - 1 {
                assert(r[b] == rb[b]);
            }
        }
        assert forall|k: int| lo <= k < r.len() implies has_similar(c, #[trigger] r[k]) by {
            if k < r.len() - 1 {
                assert(r[k] == rb[k]);
            } else {
                assert(r[k] == x);
                assert(r[k].similar(c[m]));
            }
        }
        assert forall|q: int| 0 <= q < m + 1 implies has_key(r, #[trigger] c[q].key()) by {
            if q < m {
                lemma_has_key_push(rb, x, c[q].key());
            } else {
                assert(r[r.len() - 1].key() == c[q].key());
            }
        }
        assert forall|s: int|
            0 <= s < i && !is_cross(seeds[s].name@) implies has_key(r, #[trigger] seeds[s].key()) by {
            lemma_has_key_push(rb, x, seeds[s].key());
        }
        assert forall|k: int| 0 <= k < r.len() implies copies_local_seed(seeds, r[k])
            || derived_in(self@, r, k) by {
            if k < r.len() - 1 {
                assert(r[k] == rb[k]);
                if !copies_local_seed(seeds, rb[k]) {
                    assert(derived_in(self@, rb, k));
                    let jj = choose|jj: int|
                        0 <= jj < k && #[trigger] rb[k].caused_by(rb[jj].key()) && activates(
                            self@,
                            rb[jj].name@,
                            rb[k].name@,
                        );
                    assert(r[jj] == rb[jj]);
                }
            } else if m == 0 {
                assert(!is_cross(seeds[i].name@));
                assert(r[k] == x);
                lemma_similar_trans(x, c[0], seeds[i]);
                assert(r[k].similar(seeds[i]));
            } else {
                assert(derived_in(self@, c, m));
                let jj = choose|jj: int|
                    0 <= jj < m && #[trigger] c[m].caused_by(c[jj].key()) && activates(
                        self@,
                        c[jj].name@,
                        c[m].name@,
                    );
                assert(has_key(rb, c[jj].key()));
                let w = choose|w: int| 0 <= w < rb.len() && #[trigger] rb[w].key() == c[jj].key();
                assert(r[w] == rb[w]);
                assert(r[k] == x);
                assert(same_cause(x.causes@[0], c[m].causes@[0]));
                lemma_same_cause_key(x.causes@[0], c[m].causes@[0]);
                assert(r[k].caused_by(r[w].key()));
            }
        }
        assert(distinct_keys(r));
        assert(copied_from(r, lo, c));

    }
}

pub open spec fn dep_names(ds: Seq<DependencyView>) -> Seq<Seq<char>> {
    ds.map_values(|d: DependencyView| d.name)
}

pub open spec fn names_of(fs: Seq<Feature>) -> Seq<Seq<char>> {
    fs.map_values(|f: Feature| f.name@)
}

/// The non-optional dependencies among the first `n` of `deps`, in order.
pub open spec fn always_on(deps: Seq<DependencyView>, n: int) -> Seq<DependencyView>
    decreases n,
{
    if n <= 0 {
        seq![]
    } else if !deps[n - 1].optional {
        always_on(deps, n - 1).push(deps[n - 1])
    } else {
        always_on(deps, n - 1)
    }
}

/// The dependencies among the first `n` of `deps` that one of `names` names.
pub open spec fn named_deps(deps: Seq<DependencyView>, names: Seq<Seq<char>>, n: int) -> Seq<DependencyView>
    decreases n,
{
    if n <= 0 {
        seq![]
    } else if names.contains(deps[n - 1].name) {
        named_deps(deps, names, n - 1).push(deps[n - 1])
    } else {
        named_deps(deps, names, n - 1)
    }
}

/// The dependencies among the first `n` of `deps` that are active when the
/// features named `names` are: normal ones that are not optional or that a
/// feature names, the first of each name only.
pub open spec fn selected_deps(deps: Seq<DependencyView>, names: Seq<Seq<char>>, n: int) -> Seq<
    DependencyView,
>
    decreases n,
{
    if n <= 0 {
        seq![]
    } else {
        let prev = selected_deps(deps, names, n - 1);
        let d = deps[n - 1];
        if d.kind == DependencyKind::Normal && (!d.optional || names.contains(d.name)) && !dep_names(
            prev,
        ).contains(d.name) {
            prev.push(d)
        } else {
            prev
        }
    }
}

pub open spec fn dep_views(ds: Seq<Dependency>) -> Seq<DependencyView> {
    ds.map_values(|d: Dependency| d@)
}

/// Whether some feature of `fs` is named `name`.
pub fn has_feature_named(fs: &Vec<Feature>, name: &String) -> (r: bool)
    ensures
        r == names_of(fs@).contains(name@),
{
    let mut i: usize = 0;
    while i < fs.len()
        invariant
            i <= fs.len(),
            forall|j: int| 0 <= j < i ==> names_of(fs@)[j] != name@,
        decreases fs.len() - i,
    {
        if fs[i].name == *name {
            assert(names_of(fs@)[i as int] == name@);
            return true;
        }
        i = i + 1;
    }
    false
}

/// Whether some dependency of `ds` is named `name`.
pub fn has_dependency_named(ds: &Vec<Dependency>, name: &String) -> (r: bool)
    ensures
        r == dep_names(dep_views(ds@)).contains(name@),
{
    let mut i: usize = 0;
    while i < ds.len()
        invariant
            i <= ds.len(),
            forall|j: int| 0 <= j < i ==> dep_names(dep_views(ds@))[j] != name@,
        decreases ds.len() - i,
    {
        if ds[i].name == *name {
            assert(dep_names(dep_views(ds@))[i as int] == name@);
            return true;
        }
        i = i + 1;
    }
    false
}

/// The position of the first `/` in `s`.
pub open spec fn slash_at(s: Seq<char>, k: int) -> bool {
    0 <= k < s.len() && s[k] == '/' && forall|j: int| 0 <= j < k ==> s[j] != '/'
}

proof fn lemma_slash_unique(s: Seq<char>, k1: int, k2: int)
    requires
        slash_at(s, k1),
        slash_at(s, k2),
    ensures
        k1 == k2,
{
}

/// The feature that the reference `name` of package `p` names in another
/// package, as (package id, feature name): for `dependency/feature`, the
/// feature after the first `/`, in the package that the dependency of `p`
/// named before it resolves to.
pub open spec fn cross_reference(m: MetadataView, p: PackageView, name: Seq<char>) -> Option<
    (Seq<char>, Seq<char>),
> {
    if !is_cross(name) {
        None
    } else {
        let k = choose|k: int| slash_at(name, k);
        let d = name.subrange(0, k);
        if !dep_names(p.dependencies).contains(d) {
            None
        } else {
            match dep_package_id(m, p.id, d) {
                None => None,
                Some(id) => Some((id, name.subrange(k + 1, name.len() as int))),
            }
        }
    }
}

/// `g` is the feature that `f`, or a name that `f` activates, names in
/// another package, caused by `f`.
pub open spec fn rewrites(m: MetadataView, p: PackageView, f: Feature, g: Feature) -> bool {
    &&& g.caused_by(f.key())
    &&& (cross_reference(m, p, f.name@) == Some(g.key()) || exists|t: Seq<char>|
        #[trigger] activates(p, f.name@, t) && cross_reference(m, p, t) == Some(g.key()))
}

impl Package {
    /// The dependencies that are not optional.
    pub fn always_on_dependencies(&self) -> (r: Vec<Dependency>)
        ensures
            dep_views(r@) == always_on(self@.dependencies, self@.dependencies.len() as int),
    {
        let mut r: Vec<Dependency> = Vec::new();
        let mut i: usize = 0;
        while i < self.dependencies.len()
            invariant
                i <= self.dependencies.len(),
                dep_views(r@) == always_on(self@.dependencies, i as int),
            decreases self.dependencies.len() - i,
        {
            if !self.dependencies[i].optional {
                let d = self.dependencies[i].copy();
                let ghost r0 = r@;
                r.push(d);
                assert(dep_views(r@) =~= dep_views(r0).push(d@));
            }
            i = i + 1;
        }
        r
    }

    /// The dependencies that the feature `feature` activates: those named by
    /// a feature of its resolution.
    pub fn active_dependencies_for_feature(&self, feature: &Feature) -> (r: Vec<Dependency>)
        ensures
            exists|fs: Seq<Feature>|
                resolution_of(self@, *feature, fs) && dep_views(r@) == named_deps(
                    self@.dependencies,
                    names_of(fs),
                    self@.dependencies.len() as int,
                ),
    {
        let activated = self.active_features_for_feature(feature);
        let mut r: Vec<Dependency> = Vec::new();
        let mut i: usize = 0;
        while i < self.dependencies.len()
            invariant
                i <= self.dependencies.len(),
                dep_views(r@) == named_deps(self@.dependencies, names_of(activated@), i as int),
            decreases self.dependencies.len() - i,
        {
            assert(self.dependencies@[i as int]@ == self@.dependencies[i as int]);
            if has_feature_named(&activated, &self.dependencies[i].name) {
                let d = self.dependencies[i].copy();
                let ghost r0 = r@;
                r.push(d);
                assert(dep_views(r@) =~= dep_views(r0).push(d@));
            }
            i = i + 1;
        }
        r
    }

    /// The normal dependencies that are active under the activated features
    /// `features`: those that are not optional, and the optional ones that an
    /// activated feature names; each name once.
    pub fn active_dependencies(&self, features: &Vec<Feature>) -> (r: Vec<Dependency>)
        ensures
            dep_views(r@) == selected_deps(
                self@.dependencies,
                names_of(features@),
                self@.dependencies.len() as int,
            ),
    {
        let mut r: Vec<Dependency> = Vec::new();
        let mut i: usize = 0;
        while i < self.dependencies.len()
            invariant
                i <= self.dependencies.len(),
                dep_views(r@) == selected_deps(self@.dependencies, names_of(features@), i as int),
            decreases self.dependencies.len() - i,
        {
            let d = &self.dependencies[i];
            let ghost dv = self@.dependencies[i as int];
            assert(d@ == dv);
            if d.kind == DependencyKind::Normal && (!d.optional || has_feature_named(
                features,
                &d.name,
            )) && !has_dependency_named(&r, &d.name) {
                let c = d.copy();
                let ghost r0 = r@;
                r.push(c);
                assert(dep_views(r@) =~= dep_views(r0).push(dv));
            }
            i = i + 1;
        }
        r
    }

    /// The feature that a cross-package reference (`dependency/feature`)
    /// names in the dependency, caused by `feature`; `None` when the name is
    /// no such reference, names no dependency of this package, or the
    /// dependency does not resolve.
    pub fn dependency_feature_for_feature(&self, metadata: &Metadata, feature: &Feature) -> (r:
        Option<Feature>)
        ensures
            r.is_some() == cross_reference(metadata@, self@, feature.name@).is_some(),
            r matches Some(g) ==> {
                &&& Some(g.key()) == cross_reference(metadata@, self@, feature.name@)
                &&& g.caused_by(feature.key())
                &&& g.caused_by_copy_of(*feature)
            },
    {
        self.reference_feature(metadata, feature, &feature.name)
    }

    /// The feature that the reference `name` names in another package,
    /// caused by `cause`.
    fn reference_feature(&self, metadata: &Metadata, cause: &Feature, name: &String) -> (r: Option<
        Feature,
    >)
        ensures
            r.is_some() == cross_reference(metadata@, self@, name@).is_some(),
            r matches Some(g) ==> {
                &&& Some(g.key()) == cross_reference(metadata@, self@, name@)
                &&& g.caused_by(cause.key())
                &&& g.caused_by_copy_of(*cause)
            },
    {
        let k = match find_char(name.as_str(), '/') {
            None => return None,
            Some(k) => k,
        };
        proof {
            assert(name@[k as int] == '/');
            assert(slash_at(name@, k as int));
            let kc = choose|kc: int| slash_at(name@, kc);
            lemma_slash_unique(name@, k as int, kc);
        }
        let n = name.as_str().unicode_len();
        let dep_name = name.as_str().substring_char(0, k).to_owned();
        let feat_name = name.as_str().substring_char(k + 1, n).to_owned();
        let mut i: usize = 0;
        while i < self.dependencies.len()
            invariant
                i <= self.dependencies.len(),
                forall|j: int| 0 <= j < i ==> dep_names(self@.dependencies)[j] != dep_name@,
                dep_name@ == name@.subrange(0, k as int),
                feat_name@ == name@.subrange(k + 1, name@.len() as int),
                slash_at(name@, k as int),
                k == choose|kc: int| slash_at(name@, kc),
            decreases self.dependencies.len() - i,
        {
            if self.dependencies[i].name == dep_name {
                assert(dep_names(self@.dependencies)[i as int] == dep_name@);
                assert(dep_names(self@.dependencies).contains(dep_name@));
                assert(dep_name@ == name@.subrange(0, k as int));
                assert(feat_name@ == name@.subrange(k + 1, name@.len() as int));
                assert(self.dependencies@[i as int]@.name == dep_name@);
                return match metadata.dependency_package_id(self, &self.dependencies[i]) {
                    None => None,
                    Some(id) => Some(cause.activate(id, feat_name)),
                };
            }
            i = i + 1;
        }
        proof {
            assert(dep_name@ == name@.subrange(0, k as int));
            assert(!dep_names(self@.dependencies).contains(dep_name@));
        }
        None
    }
}

/// Some feature of `fs` is `key`, caused by the feature with key `cause`.
pub open spec fn has_caused(fs: Seq<Feature>, key: (Seq<char>, Seq<char>), cause: (Seq<char>, Seq<char>)) -> bool {
    exists|k: int| 0 <= k < fs.len() && #[trigger] fs[k].key() == key && fs[k].caused_by(cause)
}

/// `g` is the rewrite of a reference that a feature of `seeds` makes.
pub open spec fn rewritten_from(m: MetadataView, p: PackageView, seeds: Seq<Feature>, g: Feature) -> bool {
    exists|i: int| 0 <= i < seeds.len() && #[trigger] rewrites(m, p, seeds[i], g)
}

/// Every reference that `f` makes, by its own name or by a name that it
/// activates, is rewritten in `fs`.
pub open spec fn rewrites_done(m: MetadataView, p: PackageView, f: Feature, fs: Seq<Feature>) -> bool {
    &&& (cross_reference(m, p, f.name@) matches Some(key) ==> has_caused(fs, key, f.key()))
    &&& forall|t: Seq<char>|
        #[trigger] activates(p, f.name@, t) && cross_reference(m, p, t).is_some() ==> has_caused(
            fs,
            cross_reference(m, p, t)->0,
            f.key(),
        )
}

/// The references that `f` activates through table entries before `(i, j)`
/// are rewritten in `fs`.
pub open spec fn targets_rewritten(
    m: MetadataView,
    p: PackageView,
    f: Feature,
    fs: Seq<Feature>,
    i: int,
    j: int,
) -> bool {
    forall|a: int, b: int|
        (0 <= a < i && 0 <= b < p.features[a].1.len() || a == i && 0 <= b < j) && p.features[a].0
            == f.name@ && cross_reference(m, p, #[trigger] p.features[a].1[b]).is_some()
            ==> has_caused(fs, cross_reference(m, p, p.features[a].1[b])->0, f.key())
}

/// `fs` holds exactly the rewrites of the references that `seeds` make.
pub open spec fn cross_features_of(m: MetadataView, p: PackageView, seeds: Seq<Feature>, fs: Seq<Feature>) -> bool {
    &&& forall|k: int| 0 <= k < fs.len() ==> rewritten_from(m, p, seeds, #[trigger] fs[k])
    &&& forall|i: int| 0 <= i < seeds.len() ==> rewrites_done(m, p, #[trigger] seeds[i], fs)
}

proof fn lemma_has_caused_push(fs: Seq<Feature>, g: Feature, key: (Seq<char>, Seq<char>), cause: (Seq<char>, Seq<char>))
    requires
        has_caused(fs, key, cause),
    ensures
        has_caused(fs.push(g), key, cause),
{
    let k = choose|k: int| 0 <= k < fs.len() && #[trigger] fs[k].key() == key && fs[k].caused_by(cause);
    assert(fs.push(g)[k] == fs[k]);
}

proof fn lemma_cross_push(m: MetadataView, p: PackageView, seeds: Seq<Feature>, fs: Seq<Feature>, g: Feature, i: int, j: int, cur: int)
    requires
        0 <= cur < seeds.len(),
        forall|k: int| 0 <= k < fs.len() ==> rewritten_from(m, p, seeds, #[trigger] fs[k]),
        rewrites(m, p, seeds[cur], g),
        forall|s: int| 0 <= s < cur ==> rewrites_done(m, p, #[trigger] seeds[s], fs),
        targets_rewritten(m, p, seeds[cur], fs, i, j),
    ensures
        forall|k: int| 0 <= k < fs.len() + 1 ==> rewritten_from(m, p, seeds, #[trigger] fs.push(g)[k]),
        forall|s: int| 0 <= s < cur ==> rewrites_done(m, p, #[trigger] seeds[s], fs.push(g)),
        targets_rewritten(m, p, seeds[cur], fs.push(g), i, j),
        has_caused(fs.push(g), g.key(), seeds[cur].key()),
{
    let r = fs.push(g);
    assert forall|k: int| 0 <= k < fs.len() + 1 implies rewritten_from(m, p, seeds, #[trigger] r[k]) by {
        if k < fs.len() {
            assert(r[k] == fs[k]);
        }
    }
    assert forall|s: int| 0 <= s < cur implies rewrites_done(m, p, #[trigger] seeds[s], r) by {
        assert(rewrites_done(m, p, seeds[s], fs));
        if let Some(key) = cross_reference(m, p, seeds[s].name@) {
            lemma_has_caused_push(fs, g, key, seeds[s].key());
        }
        assert forall|t: Seq<char>|
            #[trigger] activates(p, seeds[s].name@, t) && cross_reference(m, p, t).is_some() implies has_caused(
            r,
            cross_reference(m, p, t)->0,
            seeds[s].key(),
        ) by {
            lemma_has_caused_push(fs, g, cross_reference(m, p, t)->0, seeds[s].key());
        }
    }
    assert forall|a: int, b: int|
        (0 <= a < i && 0 <= b < p.features[a].1.len() || a == i && 0 <= b < j) && p.features[a].0
            == seeds[cur].name@ && cross_reference(m, p, #[trigger] p.features[a].1[b]).is_some()
            implies has_caused(r, cross_reference(m, p, p.features[a].1[b])->0, seeds[cur].key()) by {
        lemma_has_caused_push(fs, g, cross_reference(m, p, p.features[a].1[b])->0, seeds[cur].key());
    }
    assert(r[fs.len() as int] == g);
}

proof fn lemma_targets_complete(m: MetadataView, p: PackageView, f: Feature, fs: Seq<Feature>)
    requires
        targets_rewritten(m, p, f, fs, p.features.len() as int, 0),
        cross_reference(m, p, f.name@) matches Some(key) ==> has_caused(fs, key, f.key()),
    ensures
        rewrites_done(m, p, f, fs),
{
    assert forall|t: Seq<char>|
        #[trigger] activates(p, f.name@, t) && cross_reference(m, p, t).is_some() implies has_caused(
        fs,
        cross_reference(m, p, t)->0,
        f.key(),
    ) by {
        let (a, b) = choose|a: int, b: int|
            0 <= a < p.features.len() && 0 <= b < p.features[a].1.len() && p.features[a].0 == f.name@
                && #[trigger] p.features[a].1[b] == t;
    }
}

impl Package {
    /// The features that `features` activate in other packages: for each
    /// feature, the rewrite of its own name when that is a cross-package
    /// reference, and of each cross-package reference that it activates.
    pub fn dependency_features_for_features(&self, metadata: &Metadata, features: &Vec<Feature>) -> (r: Vec<Feature>)
        ensures
            cross_features_of(metadata@, self@, features@, r@),
    {
        let ghost m = metadata@;
        let mut r: Vec<Feature> = Vec::new();
        let mut i: usize = 0;
        while i < features.len()
            invariant
                m == metadata@,
                i <= features.len(),
                forall|k: int| 0 <= k < r@.len() ==> rewritten_from(m, self@, features@, #[trigger] r@[k]),
                forall|s: int| 0 <= s < i ==> rewrites_done(m, self@, #[trigger] features@[s], r@),
            decreases features.len() - i,
        {
            let f = &features[i];
            let own = self.reference_feature(metadata, f, &f.name);
            if let Some(g) = own {
                let ghost rb = r@;
                proof {
                    lemma_cross_push(m, self@, features@, rb, g, 0, 0, i as int);
                }
                r.push(g);
            }
            let mut a: usize = 0;
            while a < self.features.len()
                invariant
                    m == metadata@,
                    i < features.len(),
                    *f == features@[i as int],
                    a <= self.features.len(),
                    forall|k: int| 0 <= k < r@.len() ==> rewritten_from(m, self@, features@, #[trigger] r@[k]),
                    forall|s: int| 0 <= s < i ==> rewrites_done(m, self@, #[trigger] features@[s], r@),
                    cross_reference(m, self@, f.name@) matches Some(key) ==> has_caused(r@, key, f.key()),
                    targets_rewritten(m, self@, *f, r@, a as int, 0),
                decreases self.features.len() - a,
            {
                if self.features[a].0 == f.name {
                    let mut b: usize = 0;
                    while b < self.features[a].1.len()
                        invariant
                            m == metadata@,
                            i < features.len(),
                            *f == features@[i as int],
                            a < self.features.len(),
                            self@.features[a as int].0 == f.name@,
                            b <= self@.features[a as int].1.len(),
                            forall|k: int| 0 <= k < r@.len() ==> rewritten_from(m, self@, features@, #[trigger] r@[k]),
                            forall|s: int| 0 <= s < i ==> rewrites_done(m, self@, #[trigger] features@[s], r@),
                            cross_reference(m, self@, f.name@) matches Some(key) ==> has_caused(r@, key, f.key()),
                            targets_rewritten(m, self@, *f, r@, a as int, b as int),
                        decreases self@.features[a as int].1.len() - b,
                    {
                        let t = &self.features[a].1[b];
                        assert(t@ == self@.features[a as int].1[b as int]);
                        match self.reference_feature(metadata, f, t) {
                            Some(g) => {
                                let ghost rb = r@;
                                proof {
                                    assert(activates(self@, f.name@, t@));
                                    lemma_cross_push(m, self@, features@, rb, g, a as int, b as int, i as int);
                                    if let Some(key) = cross_reference(m, self@, f.name@) {
                                        lemma_has_caused_push(rb, g, key, f.key());
                                    }
                                }
                                r.push(g);
                            },
                            None => {},
                        }
                        b = b + 1;
                    }
                }
                a = a + 1;
            }
            proof {
                lemma_targets_complete(m, self@, *f, r@);
            }
            i = i + 1;
        }
        r
    }
}

/// The name of the default feature.
pub open spec fn default_name() -> Seq<char> {
    seq!['d', 'e', 'f', 'a', 'u', 'l', 't']
}

/// `c` says that the package `id` asked for the feature: as a default
/// feature, or explicitly.
pub open spec fn requested_by(c: FeatureCause, id: Seq<char>, by_default: bool) -> bool {
    match c {
        FeatureCause::Explicit(s) => !by_default && s@ == id,
        FeatureCause::Default(s) => by_default && s@ == id,
        _ => false,
    }
}

/// A request for a feature: (package id, feature name, as a default feature).
pub type Request = (Seq<char>, Seq<char>, bool);

/// What the declaration of dependency `d` of `p` asks for: when it
/// resolves, each feature it lists, then the default feature unless it turns
/// default features off.
pub open spec fn declaration_requests(m: MetadataView, p: PackageView, d: int) -> Seq<Request> {
    match dep_package_id(m, p.id, p.dependencies[d].name) {
        None => seq![],
        Some(id) => p.dependencies[d].features.map_values(|f: Seq<char>| (id, f, false)) + if p.dependencies[d].uses_default_features {
            seq![(id, default_name(), true)]
        } else {
            seq![]
        },
    }
}

/// What the first `n` dependency declarations of `p` ask for, in order.
pub open spec fn fixed_requests(m: MetadataView, p: PackageView, n: int) -> Seq<Request>
    decreases n,
{
    if n <= 0 {
        seq![]
    } else {
        fixed_requests(m, p, n - 1) + declaration_requests(m, p, n - 1)
    }
}

/// `fs` is, feature by feature, the requests `rs` of package `id`.
pub open spec fn fulfils(fs: Seq<Feature>, rs: Seq<Request>, id: Seq<char>) -> bool {
    &&& fs.len() == rs.len()
    &&& forall|k: int|
        0 <= k < fs.len() ==> (#[trigger] fs[k]).key() == (rs[k].0, rs[k].1) && fs[k].causes@.len()
            == 1 && requested_by(fs[k].causes@[0], id, rs[k].2)
}

/// `fs` holds exactly the features that the dependency declarations of `p`
/// ask for, in order.
pub open spec fn fixed_features_of(m: MetadataView, p: PackageView, fs: Seq<Feature>) -> bool {
    fulfils(fs, fixed_requests(m, p, p.dependencies.len() as int), p.id)
}

proof fn lemma_fulfils_push(fs: Seq<Feature>, rs: Seq<Request>, id: Seq<char>, g: Feature, q: Request)
    requires
        fulfils(fs, rs, id),
        g.key() == (q.0, q.1),
        g.causes@.len() == 1,
        requested_by(g.causes@[0], id, q.2),
    ensures
        fulfils(fs.push(g), rs.push(q), id),
{
    assert forall|k: int| 0 <= k < fs.len() + 1 implies (#[trigger] fs.push(g)[k]).key() == (
        rs.push(q)[k].0,
        rs.push(q)[k].1,
    ) && fs.push(g)[k].causes@.len() == 1 && requested_by(fs.push(g)[k].causes@[0], id, rs.push(q)[k].2) by {
        if k < fs.len() {
            assert(fs.push(g)[k] == fs[k] && rs.push(q)[k] == rs[k]);
        }
    }
}

impl Package {
    /// The features that the dependency declarations of this package ask
    /// for, declaration by declaration: the features each lists, then the
    /// default feature unless it turns default features off, in the package
    /// that the dependency resolves to. Declarations that do not resolve ask
    /// for nothing.
    pub fn fixed_dependency_features(&self, metadata: &Metadata) -> (r: Vec<Feature>)
        ensures
            fixed_features_of(metadata@, self@, r@),
    {
        let ghost m = metadata@;
        let mut r: Vec<Feature> = Vec::new();
        let mut d: usize = 0;
        while d < self.dependencies.len()
            invariant
                m == metadata@,
                d <= self.dependencies.len(),
                fulfils(r@, fixed_requests(m, self@, d as int), self@.id),
            decreases self.dependencies.len() - d,
        {
            let dep = &self.dependencies[d];
            assert(dep@ == self@.dependencies[d as int]);
            let ghost before = fixed_requests(m, self@, d as int);
            if let Some(id) = metadata.dependency_package_id(self, dep) {
                let ghost listed = dep@.features.map_values(|f: Seq<char>| (id@, f, false));
                let mut q: usize = 0;
                while q < dep.features.len()
                    invariant
                        d < self.dependencies.len(),
                        dep@ == self@.dependencies[d as int],
                        listed == dep@.features.map_values(|f: Seq<char>| (id@, f, false)),
                        q <= dep.features.len(),
                        fulfils(r@, before + listed.subrange(0, q as int), self@.id),
                    decreases dep.features.len() - q,
                {
                    let mut g = Feature::new(id.clone(), dep.features[q].clone());
                    g.causes.push(FeatureCause::Explicit(self.id.clone()));
                    proof {
                        assert(dep@.features[q as int] == dep.features@[q as int]@);
                        lemma_fulfils_push(r@, before + listed.subrange(0, q as int), self@.id, g, listed[q as int]);
                        assert((before + listed.subrange(0, q as int)).push(listed[q as int]) =~= before + listed.subrange(0, q + 1));
                    }
                    r.push(g);
                    q = q + 1;
                }
                assert(listed.subrange(0, q as int) =~= listed);
                if dep.uses_default_features {
                    let mut g = Feature::new(id.clone(), "default".to_owned());
                    g.causes.push(FeatureCause::Default(self.id.clone()));
                    proof {
                        reveal_strlit("default");
                        assert(g.name@ =~= default_name());
                        lemma_fulfils_push(r@, before + listed, self@.id, g, (id@, default_name(), true));
                        assert((before + listed).push((id@, default_name(), true)) =~= before + (listed + seq![(id@, default_name(), true)]));
                    }
                    r.push(g);
                    assert(fixed_requests(m, self@, d + 1) =~= before + (listed + seq![(id@, default_name(), true)]));
                } else {
                    assert(fixed_requests(m, self@, d + 1) =~= before + listed);
                }
            } else {
                assert(fixed_requests(m, self@, d + 1) =~= before);
            }
            d = d + 1;
        }
        r
    }

    /// The features this package asks for in its dependencies: those its
    /// dependency declarations fix, followed by those that the activated
    /// `external_features` name in other packages.
    pub fn all_dependency_features(&self, metadata: &Metadata, external_features: &Vec<Feature>) -> (r: Vec<Feature>)
        ensures
            exists|n: int|
                0 <= n <= r@.len() && fixed_features_of(metadata@, self@, r@.subrange(0, n))
                    && cross_features_of(metadata@, self@, external_features@, r@.subrange(n, r@.len() as int)),
    {
        let mut r = self.fixed_dependency_features(metadata);
        let ghost a = r@;
        let mut b = self.dependency_features_for_features(metadata, external_features);
        let ghost bv = b@;
        r.append(&mut b);
        assert(r@.subrange(0, a.len() as int) =~= a);
        assert(r@.subrange(a.len() as int, r@.len() as int) =~= bv);
        r
    }
}

/// No feature of a merged resolution is a cross-package reference; each
/// cross-package reference that a feature makes is rewritten to a feature of
/// the package that the named dependency resolves to, caused by it.
pub proof fn lemma_cross_references_leave_the_package(
    m: MetadataView,
    p: PackageView,
    seeds: Seq<Feature>,
    active: Seq<Feature>,
    rewritten: Seq<Feature>,
)
    requires
        resolution_of_all(p, seeds, active),
        cross_features_of(m, p, active, rewritten),
    ensures
        forall|k: int| 0 <= k < active.len() ==> !is_cross(#[trigger] active[k].name@),
        forall|k: int, t: Seq<char>|
            0 <= k < active.len() && #[trigger] activates(p, active[k].name@, t) && cross_reference(
                m,
                p,
                t,
            ).is_some() ==> has_caused(rewritten, cross_reference(m, p, t)->0, active[k].key()),
        forall|t: Seq<char>|
            #[trigger] cross_reference(m, p, t) matches Some(key) ==> key.0 == dep_package_id(
                m,
                p.id,
                t.subrange(0, choose|k: int| slash_at(t, k)),
            )->0,
{
    assert forall|k: int| 0 <= k < active.len() implies !is_cross(#[trigger] active[k].name@) by {
        if !copies_local_seed(seeds, active[k]) {
            assert(derived_in(p, active, k));
        } else {
            let s = choose|s: int|
                0 <= s < seeds.len() && !is_cross(seeds[s].name@) && #[trigger] active[k].similar(
                    seeds[s],
                );
        }
    }
    assert forall|k: int, t: Seq<char>|
        0 <= k < active.len() && #[trigger] activates(p, active[k].name@, t) && cross_reference(
            m,
            p,
            t,
        ).is_some() implies has_caused(rewritten, cross_reference(m, p, t)->0, active[k].key()) by {
        assert(rewrites_done(m, p, active[k], rewritten));
    }
}

/// Copies of the features of `fs`.
pub fn copy_features(fs: &Vec<Feature>) -> (r: Vec<Feature>)
    ensures
        same_features(r@, fs@),
{
    let mut r: Vec<Feature> = Vec::new();
    let mut i: usize = 0;
    while i < fs.len()
        invariant
            i <= fs.len(),
            r@.len() == i,
            forall|k: int| 0 <= k < i ==> (#[trigger] r@[k]).similar(fs@[k]),
        decreases fs.len() - i,
    {
        r.push(fs[i].copy());
        i = i + 1;
    }
    r
}

impl Package {
    /// Every feature that a check started at this package with the seeds
    /// `seeds`, whose resolution is `active`, requests: the features its
    /// dependency declarations fix, the rewrites of the cross-package
    /// references of `active` and of `seeds`, and the seeds themselves.
    pub fn dependency_requests(&self, metadata: &Metadata, seeds: &Vec<Feature>, active: &Vec<Feature>) -> (r: Vec<Feature>)
        ensures
            exists|a: Seq<Feature>, b: Seq<Feature>, c: Seq<Feature>, d: Seq<Feature>|
                r@ == a + b + c + d && fixed_features_of(metadata@, self@, a) && cross_features_of(
                    metadata@,
                    self@,
                    active@,
                    b,
                ) && cross_features_of(metadata@, self@, seeds@, c) && same_features(d, seeds@),
    {
        let mut r = self.fixed_dependency_features(metadata);
        let ghost a = r@;
        let mut b = self.dependency_features_for_features(metadata, active);
        let ghost bv = b@;
        r.append(&mut b);
        let mut c = self.dependency_features_for_features(metadata, seeds);
        let ghost cv = c@;
        r.append(&mut c);
        let mut d = copy_features(seeds);
        let ghost dv = d@;
        r.append(&mut d);
        assert(r@ =~= a + bv + cv + dv);
        r
    }
}

} // verus!

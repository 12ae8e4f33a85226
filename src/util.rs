//! Turning command-line selections into seeds and packages.
use vstd::prelude::*;

use crate::ext::{default_name, dep_names, dep_views, has_dependency_named, Feature, FeatureCause};
use crate::metadata::{
    contains_str, first_where, lemma_first_where_stays, node_index, strs, Dependency, Metadata,
    MetadataView, Package, PackageView,
};
use crate::text::{in_dir, is_in_dir};

verus! {

/// The pieces of `s` between the occurrences of `c`, as `str::split` gives
/// them (an empty `s` gives one empty piece).
pub open spec fn split_on(s: Seq<char>, c: char) -> Seq<Seq<char>>
    decreases s.len(),
{
    if s.len() == 0 {
        seq![seq![]]
    } else {
        let rest = split_on(s.drop_last(), c);
        if s.last() == c {
            rest.push(seq![])
        } else {
            rest.update(rest.len() - 1, rest.last().push(s.last()))
        }
    }
}

proof fn lemma_split_on_nonempty(s: Seq<char>, c: char)
    ensures
        split_on(s, c).len() >= 1,
    decreases s.len(),
{
    if s.len() > 0 {
        lemma_split_on_nonempty(s.drop_last(), c);
    }
}

/// The names that the `--features` values `args` give, comma-separated
/// within each value, in order.
pub open spec fn cli_names(args: Seq<Seq<char>>, n: int) -> Seq<Seq<char>>
    decreases n,
{
    if n <= 0 {
        seq![]
    } else {
        cli_names(args, n - 1) + split_on(args[n - 1], ',')
    }
}

/// `c` says that the flag `name` was given on the command line.
pub open spec fn flag_cause(c: FeatureCause, name: Seq<char>) -> bool {
    match c {
        FeatureCause::CliFlag(s) => s@ == name,
        _ => false,
    }
}

/// `c` says that package `id` turned its default feature on.
pub open spec fn default_cause(c: FeatureCause, id: Seq<char>) -> bool {
    match c {
        FeatureCause::Default(s) => s@ == id,
        _ => false,
    }
}

/// `f` is the feature `name` of package `id`, requested by the flag `name`.
pub open spec fn flag_feature(f: Feature, id: Seq<char>, name: Seq<char>) -> bool {
    f.key() == (id, name) && f.causes@.len() == 1 && flag_cause(f.causes@[0], name)
}

/// Splits `s` at each comma.
pub fn split_commas(s: &str) -> (r: Vec<String>)
    ensures
        r@.map_values(|x: String| x@) == split_on(s@, ','),
{
    let n = s.unicode_len();
    let mut r: Vec<String> = Vec::new();
    let mut start: usize = 0;
    let mut i: usize = 0;
    proof {
        assert(s@.subrange(0, 0) =~= Seq::<char>::empty());
        assert(split_on(Seq::<char>::empty(), ',') == seq![Seq::<char>::empty()]);
        assert(r@.map_values(|x: String| x@) =~= Seq::<Seq<char>>::empty());
        assert(r@.map_values(|x: String| x@).push(s@.subrange(0, 0)) =~= split_on(
            s@.subrange(0, 0),
            ',',
        ));
    }
    while i < n
        invariant
            n == s@.len(),
            start <= i <= n,
            r@.map_values(|x: String| x@).push(s@.subrange(start as int, i as int)) == split_on(
                s@.subrange(0, i as int),
                ',',
            ),
        decreases n - i,
    {
        let ghost before = r@.map_values(|x: String| x@);
        assert(s@.subrange(0, i + 1).drop_last() =~= s@.subrange(0, i as int));
        if s.get_char(i) == ',' {
            let piece = s.substring_char(start, i).to_owned();
            r.push(piece);
            assert(r@.map_values(|x: String| x@) =~= before.push(s@.subrange(start as int, i as int)));
            start = i + 1;
            assert(s@.subrange(start as int, i + 1) =~= seq![]);
        } else {
            assert(s@.subrange(start as int, i + 1) =~= s@.subrange(start as int, i as int).push(
                s@[i as int],
            ));
        }
        i = i + 1;
    }
    let last = s.substring_char(start, n).to_owned();
    let ghost before = r@.map_values(|x: String| x@);
    r.push(last);
    assert(r@.map_values(|x: String| x@) =~= before.push(s@.subrange(start as int, n as int)));
    assert(s@.subrange(0, n as int) =~= s@);
    r
}

/// The seed features of package `package_id` for a command line: its
/// default feature unless `no_default`, then one feature per name that the
/// `--features` values give, comma-separated within each value.
pub fn features_from_args(package_id: String, no_default: bool, features_args: Vec<String>) -> (r:
    Vec<Feature>)
    ensures
        ({
            let names = cli_names(
                features_args@.map_values(|x: String| x@),
                features_args@.len() as int,
            );
            let off: int = if no_default {
                0
            } else {
                1
            };
            &&& r@.len() == off + names.len()
            &&& !no_default ==> r@[0].key() == (package_id@, default_name()) && r@[0].causes@.len()
                == 1 && default_cause(r@[0].causes@[0], package_id@)
            &&& forall|k: int|
                0 <= k < names.len() ==> flag_feature(#[trigger] r@[off + k], package_id@, names[k])
        }),
{
    let ghost args = features_args@.map_values(|x: String| x@);
    let ghost off: int = if no_default {
        0
    } else {
        1
    };
    let mut features: Vec<Feature> = Vec::new();
    if !no_default {
        let mut feature = Feature::new(package_id.clone(), "default".to_owned());
        feature.causes.push(FeatureCause::Default(package_id.clone()));
        proof {
            reveal_strlit("default");
            assert(feature.name@ =~= default_name());
        }
        features.push(feature);
    }
    let mut i: usize = 0;
    while i < features_args.len()
        invariant
            args == features_args@.map_values(|x: String| x@),
            off == (if no_default {
                0int
            } else {
                1int
            }),
            i <= features_args.len(),
            features@.len() == off + cli_names(args, i as int).len(),
            !no_default ==> features@[0].key() == (package_id@, default_name())
                && features@[0].causes@.len() == 1 && default_cause(
                features@[0].causes@[0],
                package_id@,
            ),
            forall|k: int|
                0 <= k < cli_names(args, i as int).len() ==> flag_feature(
                    #[trigger] features@[off + k],
                    package_id@,
                    cli_names(args, i as int)[k],
                ),
        decreases features_args.len() - i,
    {
        let feats = split_commas(features_args[i].as_str());
        let ghost done = cli_names(args, i as int);
        let ghost pieces = feats@.map_values(|x: String| x@);
        assert(args[i as int] == features_args@[i as int]@);
        let mut j: usize = 0;
        while j < feats.len()
            invariant
                i < features_args.len(),
                args == features_args@.map_values(|x: String| x@),
                off == (if no_default {
                    0int
                } else {
                    1int
                }),
                pieces == feats@.map_values(|x: String| x@),
                pieces == split_on(args[i as int], ','),
                done == cli_names(args, i as int),
                j <= feats.len(),
                features@.len() == off + done.len() + j,
                !no_default ==> features@[0].key() == (package_id@, default_name())
                    && features@[0].causes@.len() == 1 && default_cause(
                    features@[0].causes@[0],
                    package_id@,
                ),
                forall|k: int|
                    0 <= k < done.len() ==> flag_feature(
                        #[trigger] features@[off + k],
                        package_id@,
                        done[k],
                    ),
                forall|k: int|
                    0 <= k < j ==> flag_feature(
                        #[trigger] features@[off + done.len() + k],
                        package_id@,
                        pieces[k],
                    ),
            decreases feats.len() - j,
        {
            let mut feature = Feature::new(package_id.clone(), feats[j].clone());
            feature.causes.push(FeatureCause::CliFlag(feats[j].clone()));
            assert(flag_feature(feature, package_id@, pieces[j as int]));
            features.push(feature);
            j = j + 1;
        }
        proof {
            let next = cli_names(args, i + 1);
            assert(next == done + pieces);
            assert forall|k: int| 0 <= k < next.len() implies flag_feature(
                #[trigger] features@[off + k],
                package_id@,
                next[k],
            ) by {
                if k >= done.len() {
                    let q = k - done.len();
                    assert(features@[off + done.len() + q] == features@[off + k]);
                }
            }
        }
        i = i + 1;
    }
    features
}

/// The packages, in the order of the snapshot, among the first `n`, that the
/// resolve node `i` lists and that one of `names` names.
pub open spec fn packages_for(m: MetadataView, i: int, names: Seq<Seq<char>>, n: int) -> Seq<
    PackageView,
>
    decreases n,
{
    if n <= 0 {
        seq![]
    } else if m.resolve[i].1.contains(m.packages[n - 1].id) && names.contains(m.packages[n - 1].name) {
        packages_for(m, i, names, n - 1).push(m.packages[n - 1])
    } else {
        packages_for(m, i, names, n - 1)
    }
}

pub open spec fn package_views(ps: Seq<Package>) -> Seq<PackageView> {
    ps.map_values(|p: Package| p@)
}

/// The packages that the active `dependencies` of `package` resolve to: the
/// packages that the resolve graph lists for `package` and that one of the
/// dependencies names. Empty when the resolve graph has no node for `package`.
pub fn dependencies_to_packages(
    package: &Package,
    metadata: &Metadata,
    dependencies: &Vec<Dependency>,
) -> (r: Vec<Package>)
    ensures
        match node_index(metadata@, package@.id) {
            None => r@.len() == 0,
            Some(i) => package_views(r@) == packages_for(
                metadata@,
                i,
                dep_names(dep_views(dependencies@)),
                metadata@.packages.len() as int,
            ),
        },
{
    let ghost m = metadata@;
    let ghost names = dep_names(dep_views(dependencies@));
    let mut r: Vec<Package> = Vec::new();
    let ghost npred = crate::metadata::is_node_of(m, package@.id);
    let mut i: usize = 0;
    while i < metadata.resolve.len()
        invariant
            m == metadata@,
            i <= metadata.resolve.len(),
            npred == crate::metadata::is_node_of(m, package@.id),
            first_where(i as int, npred).is_none(),
            names == dep_names(dep_views(dependencies@)),
            r@.len() == 0,
        decreases metadata.resolve.len() - i,
    {
        if metadata.resolve[i].id == package.id {
            proof {
                lemma_first_where_stays(i + 1, metadata.resolve.len() as int, npred);
            }
            let node = &metadata.resolve[i];
            let mut k: usize = 0;
            assert(package_views(r@) =~= seq![]);
            while k < metadata.packages.len()
                invariant
                    m == metadata@,
                    i < metadata.resolve.len(),
                    *node == metadata.resolve@[i as int],
                    names == dep_names(dep_views(dependencies@)),
                    k <= metadata.packages.len(),
                    package_views(r@) == packages_for(m, i as int, names, k as int),
                decreases metadata.packages.len() - k,
            {
                let p = &metadata.packages[k];
                assert(p@ == m.packages[k as int]);
                if contains_str(&node.dependencies, &p.id) && has_dependency_named(dependencies, &p.name) {
                    let c = p.copy();
                    let ghost r0 = r@;
                    r.push(c);
                    assert(package_views(r@) =~= package_views(r0).push(c@));
                }
                k = k + 1;
            }
            return r;
        }
        i = i + 1;
    }
    r
}

/// Why no workspace member could be chosen; each holds the names of the
/// workspace members.
#[derive(Debug)]
pub enum MemberError {
    /// No workspace member has the requested name.
    UnknownPackage(Vec<String>),
    /// Several workspace members, none requested by name and none in the
    /// current directory.
    Ambiguous(Vec<String>),
}

pub open spec fn is_member(m: MetadataView, k: int) -> bool {
    m.workspace_members.contains(m.packages[k].id)
}

pub open spec fn member_named(m: MetadataView, name: Seq<char>) -> spec_fn(int) -> bool {
    |k: int| is_member(m, k) && m.packages[k].name == name
}

pub open spec fn member_in_dir(m: MetadataView, dir: Seq<char>) -> spec_fn(int) -> bool {
    |k: int| is_member(m, k) && in_dir(m.packages[k].manifest_path, dir)
}

/// The names of the workspace members among the first `n` packages.
pub open spec fn member_names(m: MetadataView, n: int) -> Seq<Seq<char>>
    decreases n,
{
    if n <= 0 {
        seq![]
    } else if is_member(m, n - 1) {
        member_names(m, n - 1).push(m.packages[n - 1].name)
    } else {
        member_names(m, n - 1)
    }
}

/// The member that `pred` picks first; else the error, holding the member
/// names, that `ambiguous` tells.
pub open spec fn chosen_by(m: MetadataView, pred: spec_fn(int) -> bool, r: Result<String, MemberError>, ambiguous: bool) -> bool {
    match first_where(m.packages.len() as int, pred) {
        Some(k) => (r matches Ok(id) && id@ == m.packages[k].id),
        None => match r {
            Err(MemberError::UnknownPackage(names)) => !ambiguous && strs(names@) == member_names(m, m.packages.len() as int),
            Err(MemberError::Ambiguous(names)) => ambiguous && strs(names@) == member_names(m, m.packages.len() as int),
            Ok(_) => false,
        },
    }
}

/// The names of the workspace members.
fn workspace_member_names(metadata: &Metadata) -> (r: Vec<String>)
    ensures
        strs(r@) == member_names(metadata@, metadata@.packages.len() as int),
{
    let mut r: Vec<String> = Vec::new();
    let mut k: usize = 0;
    while k < metadata.packages.len()
        invariant
            k <= metadata.packages.len(),
            strs(r@) == member_names(metadata@, k as int),
        decreases metadata.packages.len() - k,
    {
        assert(metadata.packages@[k as int]@ == metadata@.packages[k as int]);
        if contains_str(&metadata.workspace_members, &metadata.packages[k].id) {
            let ghost r0 = r@;
            r.push(metadata.packages[k].name.clone());
            assert(strs(r@) =~= strs(r0).push(metadata@.packages[k as int].name));
        }
        k = k + 1;
    }
    r
}

/// The id of the workspace member to check: the only member when there is
/// one; else the member named `package_arg`, or without a name the member
/// whose manifest lies directly in `current_dir`.
pub fn main_ws_member_from_args(
    metadata: &Metadata,
    package_arg: Option<String>,
    current_dir: &String,
) -> (r: Result<String, MemberError>)
    ensures
        metadata@.workspace_members.len() == 1 ==> (r matches Ok(id) && id@
            == metadata@.workspace_members[0]),
        metadata@.workspace_members.len() != 1 ==> match package_arg {
            Some(name) => chosen_by(metadata@, member_named(metadata@, name@), r, false),
            None => chosen_by(metadata@, member_in_dir(metadata@, current_dir@), r, true),
        },
{
    if metadata.workspace_members.len() == 1 {
        return Ok(metadata.workspace_members[0].clone());
    }
    let ghost m = metadata@;
    let ghost pred = match package_arg {
        Some(ref name) => member_named(m, name@),
        None => member_in_dir(m, current_dir@),
    };
    let mut k: usize = 0;
    while k < metadata.packages.len()
        invariant
            m == metadata@,
            k <= metadata.packages.len(),
            pred == (match package_arg {
                Some(ref name) => member_named(m, name@),
                None => member_in_dir(m, current_dir@),
            }),
            first_where(k as int, pred).is_none(),
        decreases metadata.packages.len() - k,
    {
        let p = &metadata.packages[k];
        assert(p@ == m.packages[k as int]);
        let wanted = match &package_arg {
            Some(name) => p.name == *name,
            None => is_in_dir(p.manifest_path.as_str(), current_dir.as_str()),
        };
        if wanted && contains_str(&metadata.workspace_members, &p.id) {
            proof {
                assert(pred(k as int));
                lemma_first_where_stays(k + 1, m.packages.len() as int, pred);
            }
            return Ok(p.id.clone());
        }
        assert(!pred(k as int));
        k = k + 1;
    }
    let names = workspace_member_names(metadata);
    match package_arg {
        Some(_) => Err(MemberError::UnknownPackage(names)),
        None => Err(MemberError::Ambiguous(names)),
    }
}

} // verus!

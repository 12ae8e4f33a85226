//! Passing a feature selection on to a cargo build.
use vstd::prelude::*;

use crate::metadata::strs;

verus! {

#[verifier::external_type_specification]
#[verifier::external_body]
pub struct ExCargoBuild(escargot::CargoBuild);

/// The names of `names` separated by single spaces.
pub open spec fn joined(names: Seq<Seq<char>>) -> Seq<char>
    decreases names.len(),
{
    if names.len() == 0 {
        seq![]
    } else if names.len() == 1 {
        names[0]
    } else {
        joined(names.drop_last()) + seq![' '] + names.last()
    }
}

/// The value of a `--features` argument: the names separated by spaces.
pub fn features_arg(features_args: &Vec<String>) -> (r: String)
    ensures
        r@ == joined(strs(features_args@)),
{
    let mut r = String::new();
    let mut i: usize = 0;
    while i < features_args.len()
        invariant
            i <= features_args.len(),
            r@ == joined(strs(features_args@.subrange(0, i as int))),
        decreases features_args.len() - i,
    {
        let ghost before = strs(features_args@.subrange(0, i as int));
        let ghost after = strs(features_args@.subrange(0, i + 1));
        assert(after.drop_last() =~= before);
        assert(after.last() == features_args@[i as int]@);
        if i > 0 {
            r.append(" ");
            proof {
                reveal_strlit(" ");
            }
        } else {
            assert(after =~= seq![features_args@[0]@]);
        }
        r.append(features_args[i].as_str());
        proof {
            if i > 0 {
                assert(r@ =~= joined(before) + seq![' '] + features_args@[i as int]@);
            }
        }
        i = i + 1;
    }
    assert(features_args@.subrange(0, i as int) =~= features_args@);
    r
}

/// Relies on escargot's `CargoBuild::no_default_features`: the build turns
/// default features off.
#[verifier::external_body]
fn without_default_features(build: escargot::CargoBuild) -> escargot::CargoBuild {
    build.no_default_features()
}

/// Relies on escargot's `CargoBuild::features`: the build activates the
/// space-separated features of `features`.
#[verifier::external_body]
fn with_features(build: escargot::CargoBuild, features: String) -> escargot::CargoBuild {
    build.features(features)
}

/// Passing a feature selection on to a build.
pub trait EscargotBuildExt: Sized {
    fn set_features(self, no_default: bool, features_args: Vec<String>) -> Self;
}

impl EscargotBuildExt for escargot::CargoBuild {
    fn set_features(self, no_default: bool, features_args: Vec<String>) -> Self {
        let mut build = self;
        if no_default {
            build = without_default_features(build);
        }
        with_features(build, features_arg(&features_args))
    }
}

} // verus!

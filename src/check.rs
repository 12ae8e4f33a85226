//! Attribute grammar, verdicts, and the per-package result.
use vstd::prelude::*;

use crate::check_source::{
    entry_gate, gate_of, SyntaxView, crate_verdict, get_crate_support_from_source, parsed_others, rust_syntax, all_parse, OffenseView,
    SourceOffense,
};
use crate::ext::{names_of, resolution_of_all, same_features, Feature};
use crate::metadata::{proc_macro_package, strs, target_sources, Package, PackageView};
use crate::text::{ends_with, has_char, starts_with, str_eq, strip, strip_ws};

verus! {

/// Whether a package can be built without the standard library.
#[derive(Debug)]
pub enum CrateSupport {
    /// Only while the named feature is not active.
    OnlyWithoutFeature(String),
    /// Procedural macros are not linked into the final binary.
    ProcMacro,
    SourceOffenses(Vec<SourceOffense>),
    NoOffenseDetected,
}

pub enum SupportView {
    OnlyWithoutFeature(Seq<char>),
    ProcMacro,
    SourceOffenses(Seq<OffenseView>),
    NoOffenseDetected,
}

pub open spec fn offense_views(v: Seq<SourceOffense>) -> Seq<OffenseView> {
    v.map_values(|o: SourceOffense| o@)
}

impl View for CrateSupport {
    type V = SupportView;

    open spec fn view(&self) -> SupportView {
        match self {
            CrateSupport::OnlyWithoutFeature(f) => SupportView::OnlyWithoutFeature(f@),
            CrateSupport::ProcMacro => SupportView::ProcMacro,
            CrateSupport::SourceOffenses(v) => SupportView::SourceOffenses(offense_views(v@)),
            CrateSupport::NoOffenseDetected => SupportView::NoOffenseDetected,
        }
    }
}

/// A crate-level attribute, by what it says about the standard library.
#[derive(Debug)]
pub enum AttributeKind {
    /// `no_std`
    NoStd,
    /// `cfg_attr(not(test), no_std)`
    NoStdUnlessTest,
    /// `cfg_attr(not(feature = "X"), no_std)`
    NoStdUnlessFeature(String),
    Other,
}

pub enum AttributeClass {
    NoStd,
    NoStdUnlessTest,
    NoStdUnlessFeature(Seq<char>),
    Other,
}

impl View for AttributeKind {
    type V = AttributeClass;

    open spec fn view(&self) -> AttributeClass {
        match self {
            AttributeKind::NoStd => AttributeClass::NoStd,
            AttributeKind::NoStdUnlessTest => AttributeClass::NoStdUnlessTest,
            AttributeKind::NoStdUnlessFeature(f) => AttributeClass::NoStdUnlessFeature(f@),
            AttributeKind::Other => AttributeClass::Other,
        }
    }
}

/// How many more `(` than `)` `s` holds.
pub open spec fn depth(s: Seq<char>) -> int
    decreases s.len(),
{
    if s.len() == 0 {
        0
    } else {
        depth(s.drop_last()) + if s.last() == '(' {
            1int
        } else if s.last() == ')' {
            -1int
        } else {
            0int
        }
    }
}

/// The pieces of `s` between its commas outside parentheses.
pub open spec fn top_pieces(s: Seq<char>) -> Seq<Seq<char>>
    decreases s.len(),
{
    if s.len() == 0 {
        seq![seq![]]
    } else {
        let rest = top_pieces(s.drop_last());
        if s.last() == ',' && depth(s.drop_last()) == 0 {
            rest.push(seq![])
        } else {
            rest.update(rest.len() - 1, rest.last().push(s.last()))
        }
    }
}

proof fn lemma_top_pieces_nonempty(s: Seq<char>)
    ensures
        top_pieces(s).len() >= 1,
    decreases s.len(),
{
    if s.len() > 0 {
        lemma_top_pieces_nonempty(s.drop_last());
    }
}

/// For whitespace-free `s` of the form `cfg_attr(C,A1,...,An)`, split at
/// the commas outside parentheses: the condition `C` and the gated
/// attributes `A1` to `An`.
pub open spec fn cfg_attr_parts(s: Seq<char>) -> Option<(Seq<char>, Seq<Seq<char>>)> {
    let p = "cfg_attr("@;
    if p.len() < s.len() && s.subrange(0, p.len() as int) == p && s.last() == ')' {
        let pieces = top_pieces(s.subrange(p.len() as int, s.len() - 1));
        if pieces.len() >= 2 {
            Some((pieces[0], pieces.drop_first()))
        } else {
            None
        }
    } else {
        None
    }
}

/// For a whitespace-free condition `not(feature="X")`, with no quote in
/// `X`: the feature `X`.
pub open spec fn feature_condition(c: Seq<char>) -> Option<Seq<char>> {
    let p = "not(feature=\""@;
    let q = "\")"@;
    if p.len() + q.len() <= c.len() && c.subrange(0, p.len() as int) == p && c.subrange(
        c.len() - q.len(),
        c.len() as int,
    ) == q && !c.subrange(p.len() as int, c.len() - q.len()).contains('"') {
        Some(c.subrange(p.len() as int, c.len() - q.len()))
    } else {
        None
    }
}

/// What the whitespace-free attribute `s` says about the standard library.
pub open spec fn classify(s: Seq<char>) -> AttributeClass {
    if s == "no_std"@ {
        AttributeClass::NoStd
    } else {
        match cfg_attr_parts(s) {
            Some((c, a)) => if !a.contains("no_std"@) {
                AttributeClass::Other
            } else if c == "not(test)"@ {
                AttributeClass::NoStdUnlessTest
            } else {
                match feature_condition(c) {
                    Some(x) => AttributeClass::NoStdUnlessFeature(x),
                    None => AttributeClass::Other,
                }
            },
            None => AttributeClass::Other,
        }
    }
}

/// A `cfg_attr` attribute: a condition and the attributes that it gates,
/// without whitespace.
#[derive(Debug)]
pub struct ConditionalAttribute {
    pub condition: String,
    pub attributes: Vec<String>,
}

impl ConditionalAttribute {
    /// Reads `cfg_attr(C, A1, ..., An)` from the text of an attribute.
    pub fn from_attribute(attr: &str) -> (r: Option<ConditionalAttribute>)
        ensures
            r.is_some() == cfg_attr_parts(strip(attr@)).is_some(),
            r matches Some(c) ==> cfg_attr_parts(strip(attr@)) == Some((c.condition@, strs(c.attributes@))),
    {
        let s = strip_ws(attr);
        let n = s.as_str().unicode_len();
        proof {
            reveal_strlit("cfg_attr(");
        }
        if !(9 < n && starts_with(s.as_str(), "cfg_attr(") && s.as_str().get_char(n - 1) == ')') {
            return None;
        }
        let inner = s.as_str().substring_char(9, n - 1);
        let mut pieces = split_top_level(inner);
        proof {
            lemma_top_pieces_nonempty(inner@);
        }
        if pieces.len() < 2 {
            return None;
        }
        let ghost all = strs(pieces@);
        let condition = pieces.remove(0);
        assert(strs(pieces@) =~= all.drop_first());
        Some(ConditionalAttribute { condition, attributes: pieces })
    }

    /// The feature `X` of a condition `not(feature = "X")`.
    pub fn required_feature(&self) -> (r: Option<String>)
        ensures
            r.is_some() == feature_condition(self.condition@).is_some(),
            r matches Some(x) ==> feature_condition(self.condition@) == Some(x@),
    {
        let c = self.condition.as_str();
        let n = c.unicode_len();
        proof {
            reveal_strlit("not(feature=\"");
            reveal_strlit("\")");
        }
        if n < 15 || !starts_with(c, "not(feature=\"") || !ends_with(c, "\")") {
            return None;
        }
        let x = c.substring_char(13, n - 2);
        if has_char(x, '"') {
            return None;
        }
        Some(x.to_owned())
    }
}

/// Splits `s` at its commas outside parentheses.
pub fn split_top_level(s: &str) -> (r: Vec<String>)
    ensures
        strs(r@) == top_pieces(s@),
{
    let n = s.unicode_len();
    let mut r: Vec<String> = Vec::new();
    let mut start: usize = 0;
    let mut opens: usize = 0;
    let mut closes: usize = 0;
    let mut i: usize = 0;
    proof {
        assert(s@.subrange(0, 0) =~= Seq::<char>::empty());
        assert(strs(r@).push(s@.subrange(0, 0)) =~= top_pieces(s@.subrange(0, 0)));
    }
    while i < n
        invariant
            n == s@.len(),
            start <= i <= n,
            opens <= i,
            closes <= i,
            opens - closes == depth(s@.subrange(0, i as int)),
            strs(r@).push(s@.subrange(start as int, i as int)) == top_pieces(s@.subrange(0, i as int)),
        decreases n - i,
    {
        let ghost before = strs(r@);
        let c = s.get_char(i);
        assert(s@.subrange(0, i + 1).drop_last() =~= s@.subrange(0, i as int));
        if c == ',' && opens == closes {
            let piece = s.substring_char(start, i).to_owned();
            r.push(piece);
            assert(strs(r@) =~= before.push(s@.subrange(start as int, i as int)));
            start = i + 1;
            assert(s@.subrange(start as int, i + 1) =~= seq![]);
        } else {
            assert(s@.subrange(start as int, i + 1) =~= s@.subrange(start as int, i as int).push(c));
        }
        if c == '(' {
            opens = opens + 1;
        } else if c == ')' {
            closes = closes + 1;
        }
        i = i + 1;
    }
    let last = s.substring_char(start, n).to_owned();
    let ghost before = strs(r@);
    r.push(last);
    assert(strs(r@) =~= before.push(s@.subrange(start as int, n as int)));
    assert(s@.subrange(0, n as int) =~= s@);
    r
}

/// Whether one of `attrs` is `no_std`.
fn contains_no_std(attrs: &Vec<String>) -> (r: bool)
    ensures
        r == strs(attrs@).contains("no_std"@),
{
    let mut i: usize = 0;
    while i < attrs.len()
        invariant
            i <= attrs.len(),
            forall|j: int| 0 <= j < i ==> strs(attrs@)[j] != "no_std"@,
        decreases attrs.len() - i,
    {
        if str_eq(attrs[i].as_str(), "no_std") {
            assert(strs(attrs@)[i as int] == "no_std"@);
            return true;
        }
        i = i + 1;
    }
    false
}

/// What the attribute with text `attr` says about the standard library.
pub fn attribute_kind(attr: &str) -> (r: AttributeKind)
    ensures
        r@ == classify(strip(attr@)),
{
    let s = strip_ws(attr);
    if str_eq(s.as_str(), "no_std") {
        return AttributeKind::NoStd;
    }
    match ConditionalAttribute::from_attribute(attr) {
        None => AttributeKind::Other,
        Some(c) => {
            if !contains_no_std(&c.attributes) {
                AttributeKind::Other
            } else if str_eq(c.condition.as_str(), "not(test)") {
                AttributeKind::NoStdUnlessTest
            } else {
                match c.required_feature() {
                    Some(x) => AttributeKind::NoStdUnlessFeature(x),
                    None => AttributeKind::Other,
                }
            }
        },
    }
}

/// A package can be built without the standard library by itself, under
/// the active feature names `active`.
pub open spec fn compliant(s: SupportView, active: Seq<Seq<char>>) -> bool {
    match s {
        SupportView::ProcMacro => true,
        SupportView::NoOffenseDetected => true,
        SupportView::OnlyWithoutFeature(f) => !active.contains(f),
        SupportView::SourceOffenses(_) => false,
    }
}

/// The verdict on one package, with its active features.
#[derive(Debug)]
pub struct CheckResult {
    pub package_name: String,
    pub support: CrateSupport,
    pub active_features: Vec<Feature>,
}

impl CheckResult {
    /// Whether the package can be built without the standard library by
    /// itself.
    pub fn no_std_itself(&self) -> (r: bool)
        ensures
            r == compliant(self.support@, names_of(self.active_features@)),
    {
        match &self.support {
            CrateSupport::ProcMacro => true,
            CrateSupport::OnlyWithoutFeature(feature) => !self.is_feature_active(feature.as_str()),
            CrateSupport::NoOffenseDetected => true,
            CrateSupport::SourceOffenses(_) => false,
        }
    }

    /// Whether an active feature is named `feature`.
    pub fn is_feature_active(&self, feature: &str) -> (r: bool)
        ensures
            r == names_of(self.active_features@).contains(feature@),
    {
        self.find_active_feature_by_name(feature).is_some()
    }

    /// The first active feature named `feature`.
    pub fn find_active_feature_by_name(&self, feature: &str) -> (r: Option<&Feature>)
        ensures
            r.is_some() == names_of(self.active_features@).contains(feature@),
            r matches Some(f) ==> exists|k: int|
                0 <= k < self.active_features@.len() && self.active_features@[k] == *f && f.name@
                    == feature@ && forall|j: int| 0 <= j < k ==> self.active_features@[j].name@ != feature@,
    {
        let mut i: usize = 0;
        while i < self.active_features.len()
            invariant
                i <= self.active_features.len(),
                forall|j: int| 0 <= j < i ==> self.active_features@[j].name@ != feature@,
            decreases self.active_features.len() - i,
        {
            if str_eq(self.active_features[i].name.as_str(), feature) {
                assert(names_of(self.active_features@)[i as int] == feature@);
                return Some(&self.active_features[i]);
            }
            i = i + 1;
        }
        proof {
            assert forall|j: int| 0 <= j < names_of(self.active_features@).len() implies names_of(
                self.active_features@,
            )[j] != feature@ by {
                assert(names_of(self.active_features@)[j] == self.active_features@[j].name@);
            }
        }
        None
    }
}

/// The text of a crate's files: its entry file, and the other files under
/// the entry file's directory as (path, text).
#[derive(Debug)]
pub struct CrateSources {
    pub main_path: String,
    pub main_src: String,
    pub others: Vec<(String, String)>,
}

/// The features among the first `n` of `fs` that belong to package `id`.
pub open spec fn scoped_to(fs: Seq<Feature>, id: Seq<char>, n: int) -> Seq<Feature>
    decreases n,
{
    if n <= 0 {
        seq![]
    } else if fs[n - 1].package_id@ == id {
        scoped_to(fs, id, n - 1).push(fs[n - 1])
    } else {
        scoped_to(fs, id, n - 1)
    }
}

/// Copies of the features of `features` that belong to package `package_id`.
pub fn features_of_package(features: &Vec<Feature>, package_id: &String) -> (r: Vec<Feature>)
    ensures
        same_features(r@, scoped_to(features@, package_id@, features@.len() as int)),
{
    let mut r: Vec<Feature> = Vec::new();
    let mut i: usize = 0;
    while i < features.len()
        invariant
            i <= features.len(),
            same_features(r@, scoped_to(features@, package_id@, i as int)),
        decreases features.len() - i,
    {
        if features[i].package_id == *package_id {
            let f = features[i].copy();
            r.push(f);
            proof {
                let sc = scoped_to(features@, package_id@, i + 1);
                assert forall|k: int| 0 <= k < r@.len() implies (#[trigger] r@[k]).similar(sc[k]) by {
                    if k < r@.len() - 1 {
                        assert(sc[k] == scoped_to(features@, package_id@, i as int)[k]);
                    }
                }
            }
        }
        i = i + 1;
    }
    r
}

/// The entry files that may be checked for a package, in order of
/// preference: for the main package its binaries then its library, for a
/// dependency its library.
pub open spec fn entry_candidates(p: PackageView, is_main_pkg: bool) -> Seq<Seq<char>> {
    let libs = target_sources(p.targets, "lib"@, p.targets.len() as int);
    if is_main_pkg {
        target_sources(p.targets, "bin"@, p.targets.len() as int) + libs
    } else {
        libs
    }
}

/// The entry file to check for `package`: the first of its candidates.
pub fn entry_source(package: &Package, is_main_pkg: bool) -> (r: Option<String>)
    ensures
        r.is_some() == (entry_candidates(package@, is_main_pkg).len() > 0),
        r matches Some(s) ==> s@ == entry_candidates(package@, is_main_pkg)[0],
{
    let mut srcs: Vec<String> = Vec::new();
    if is_main_pkg {
        srcs = package.bin_target_sources();
    }
    let ghost b = strs(srcs@);
    let mut libs = package.lib_target_sources();
    let ghost l = strs(libs@);
    srcs.append(&mut libs);
    assert(strs(srcs@) =~= b + l);
    if srcs.len() == 0 {
        None
    } else {
        assert(strs(srcs@)[0] == srcs@[0]@);
        Some(srcs[0].clone())
    }
}

/// Checks one package: its active features are the resolution of those of
/// `resolved_dependency_features` that belong to it; a procedural macro is
/// supported without looking at its source; otherwise `sources` decides,
/// and a package without an entry file has no offense. `None` when a source
/// file is no Rust file.
pub fn check_package(
    package: &Package,
    resolved_dependency_features: &Vec<Feature>,
    sources: Option<&CrateSources>,
) -> (r: Option<CheckResult>)
    ensures
        proc_macro_package(package@) ==> (r matches Some(c) && c.support@ == SupportView::ProcMacro),
        !proc_macro_package(package@) ==> match sources {
            None => (r matches Some(c) && c.support@ == SupportView::NoOffenseDetected),
            Some(s) => {
                &&& r.is_some() == (rust_syntax(s.main_src@).is_some() && (entry_gate(s.main_src@).is_some()
                    || all_parse(s.others@)))
                &&& entry_gate(s.main_src@) matches Some(x) ==> (r matches Some(c) && c.support@
                    == SupportView::OnlyWithoutFeature(x))
                &&& entry_gate(s.main_src@).is_none() ==> (r matches Some(c) ==> c.support@ == crate_verdict(
                    s.main_path@,
                    rust_syntax(s.main_src@)->0,
                    parsed_others(s.others@),
                ))
            },
        },
        r matches Some(c) ==> {
            &&& c.package_name@ == package@.name
            &&& exists|seeds: Seq<Feature>|
                same_features(
                    seeds,
                    scoped_to(
                        resolved_dependency_features@,
                        package@.id,
                        resolved_dependency_features@.len() as int,
                    ),
                ) && resolution_of_all(package@, seeds, c.active_features@)
        },
{
    let package_features = features_of_package(resolved_dependency_features, &package.id);
    let active_features = package.active_features_for_features(&package_features);
    let support = if package.is_proc_macro() {
        CrateSupport::ProcMacro
    } else {
        match sources {
            None => CrateSupport::NoOffenseDetected,
            Some(s) => match get_crate_support_from_source(&s.main_path, s.main_src.as_str(), &s.others) {
                None => return None,
                Some(c) => c,
            },
        }
    };
    let r = CheckResult { package_name: package.name.clone(), support, active_features };
    assert(resolution_of_all(package@, package_features@, r.active_features@));
    Some(r)
}

/// A crate whose entry file says `cfg_attr(not(feature = "X"), no_std)` is
/// supported only without `X`; while `X` is active it is not supported by
/// itself.
pub proof fn lemma_gated_crate_with_feature_active(
    path: Seq<char>,
    main: SyntaxView,
    others: Seq<(Seq<char>, SyntaxView)>,
    x: Seq<char>,
    active: Seq<Seq<char>>,
)
    requires
        gate_of(main.0, main.0.len() as int) == Some(x),
        active.contains(x),
    ensures
        crate_verdict(path, main, others) == SupportView::OnlyWithoutFeature(x),
        !compliant(crate_verdict(path, main, others), active),
{
}

/// The same crate, with `X` not active, is supported by itself.
pub proof fn lemma_gated_crate_with_feature_inactive(
    path: Seq<char>,
    main: SyntaxView,
    others: Seq<(Seq<char>, SyntaxView)>,
    x: Seq<char>,
    active: Seq<Seq<char>>,
)
    requires
        gate_of(main.0, main.0.len() as int) == Some(x),
        !active.contains(x),
    ensures
        compliant(crate_verdict(path, main, others), active),
{
}

/// A package with a procedural-macro target, checked by `check_package`,
/// is supported by itself, whatever its sources hold.
pub proof fn lemma_proc_macro_package_compliant(
    p: PackageView,
    support: SupportView,
    active: Seq<Seq<char>>,
)
    requires
        proc_macro_package(p),
        proc_macro_package(p) ==> support == SupportView::ProcMacro,
    ensures
        compliant(support, active),
{
}

} // verus!

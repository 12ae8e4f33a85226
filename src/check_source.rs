//! Static classification of source files.
use quote::ToTokens;
use vstd::prelude::*;

use crate::check::{classify, offense_views, AttributeClass, CrateSupport, SupportView};
use crate::check::{attribute_kind, AttributeKind};
use crate::text::{starts_with, strip, strip_ws};

verus! {

/// One concrete reason why a package needs the standard library.
#[derive(Debug)]
pub enum SourceOffense {
    /// The entry file has neither `#![no_std]` nor a simple conditional form
    /// of it.
    MissingNoStdAttribute,
    /// The source has an explicit `use std::` statement.
    UseStdStatement(UseStdStmt),
}

/// A top-level `use` rooted at `std`, with the file that holds it.
#[derive(Debug)]
pub struct UseStdStmt {
    pub src_path: String,
    pub item_tree: String,
}

pub enum OffenseView {
    MissingNoStdAttribute,
    UseStdStatement(Seq<char>, Seq<char>),
}

impl View for SourceOffense {
    type V = OffenseView;

    open spec fn view(&self) -> OffenseView {
        match self {
            SourceOffense::MissingNoStdAttribute => OffenseView::MissingNoStdAttribute,
            SourceOffense::UseStdStatement(s) => OffenseView::UseStdStatement(
                s.src_path@,
                s.item_tree@,
            ),
        }
    }
}

/// What the analysis reads of a parsed source file: the text of each
/// inner attribute (without `#![` and `]`), and for each top-level item the
/// text of its tree when it is a `use` item.
#[derive(Debug)]
pub struct SourceSyntax {
    pub attributes: Vec<String>,
    pub items: Vec<Option<String>>,
}

pub type SyntaxView = (Seq<Seq<char>>, Seq<Option<Seq<char>>>);

pub open spec fn opt_strs(v: Seq<Option<String>>) -> Seq<Option<Seq<char>>> {
    v.map_values(
        |o: Option<String>|
            match o {
                Some(s) => Some(s@),
                None => None,
            },
    )
}

impl View for SourceSyntax {
    type V = SyntaxView;

    open spec fn view(&self) -> SyntaxView {
        (self.attributes@.map_values(|s: String| s@), opt_strs(self.items@))
    }
}

/// What parsing the source text `src` as a Rust file gives, or `None` when
/// it is no Rust file.
pub uninterp spec fn rust_syntax(src: Seq<char>) -> Option<SyntaxView>;

/// Relies on `syn::parse_file` to parse Rust source, and on quote's
/// `ToTokens` to render as text the meta of each inner attribute and the
/// tree of each top-level `use` item.
#[verifier::external_body]
fn parse_source(src: &str) -> (r: Option<SourceSyntax>)
    ensures
        r.is_some() == rust_syntax(src@).is_some(),
        r matches Some(s) ==> rust_syntax(src@) == Some(s@),
{
    let file = syn::parse_file(src).ok()?;
    let attributes = file.attrs.iter().map(|a| a.meta.to_token_stream().to_string()).collect();
    let items = file.items.iter().map(|i| match i {
        syn::Item::Use(u) => Some(u.tree.to_token_stream().to_string()),
        _ => None,
    }).collect();
    Some(SourceSyntax { attributes, items })
}

/// The tree of a `use` item is a path rooted at `std`.
pub open spec fn is_std_path(t: Seq<char>) -> bool {
    let s = strip(t);
    5 <= s.len() && s.subrange(0, 5) == "std::"@
}

/// The feature `X` of the first attribute among the first `n` of the form
/// `cfg_attr(not(feature = "X"), no_std)`.
pub open spec fn gate_of(attrs: Seq<Seq<char>>, n: int) -> Option<Seq<char>>
    decreases n,
{
    if n <= 0 {
        None
    } else {
        match gate_of(attrs, n - 1) {
            Some(x) => Some(x),
            None => match classify(strip(attrs[n - 1])) {
                AttributeClass::NoStdUnlessFeature(x) => Some(x),
                _ => None,
            },
        }
    }
}

proof fn lemma_gate_stays(attrs: Seq<Seq<char>>, n: int, m: int)
    requires
        n <= m,
        gate_of(attrs, n).is_some(),
    ensures
        gate_of(attrs, m) == gate_of(attrs, n),
    decreases m - n,
{
    if n < m {
        lemma_gate_stays(attrs, n, m - 1);
    }
}

/// Some attribute is `no_std` or `cfg_attr(not(test), no_std)`.
pub open spec fn has_marker(attrs: Seq<Seq<char>>) -> bool {
    exists|i: int|
        0 <= i < attrs.len() && (#[trigger] classify(strip(attrs[i])) == AttributeClass::NoStd
            || classify(strip(attrs[i])) == AttributeClass::NoStdUnlessTest)
}

/// The offenses of the `use` items, among the first `n` items, rooted at
/// `std`, in the file `path`.
pub open spec fn std_offenses(path: Seq<char>, items: Seq<Option<Seq<char>>>, n: int) -> Seq<OffenseView>
    decreases n,
{
    if n <= 0 {
        seq![]
    } else {
        match items[n - 1] {
            Some(t) => if is_std_path(t) {
                std_offenses(path, items, n - 1).push(OffenseView::UseStdStatement(path, t))
            } else {
                std_offenses(path, items, n - 1)
            },
            None => std_offenses(path, items, n - 1),
        }
    }
}

/// The offenses of one file: its `use std` items, then, for an entry file
/// without a marker, the missing attribute.
pub open spec fn file_offenses(path: Seq<char>, syn: SyntaxView, is_main: bool) -> Seq<OffenseView> {
    std_offenses(path, syn.1, syn.1.len() as int) + if is_main && !has_marker(syn.0) {
        seq![OffenseView::MissingNoStdAttribute]
    } else {
        seq![]
    }
}

pub open spec fn verdict(offenses: Seq<OffenseView>) -> SupportView {
    if offenses.len() == 0 {
        SupportView::NoOffenseDetected
    } else {
        SupportView::SourceOffenses(offenses)
    }
}

/// The verdict on one file: a feature gate decides alone; else its offenses.
pub open spec fn file_verdict(path: Seq<char>, syn: SyntaxView, is_main: bool) -> SupportView {
    match gate_of(syn.0, syn.0.len() as int) {
        Some(x) => SupportView::OnlyWithoutFeature(x),
        None => verdict(file_offenses(path, syn, is_main)),
    }
}

/// The `use std` offenses of the first `n` of the other files.
pub open spec fn other_offenses(others: Seq<(Seq<char>, SyntaxView)>, n: int) -> Seq<OffenseView>
    decreases n,
{
    if n <= 0 {
        seq![]
    } else {
        other_offenses(others, n - 1) + std_offenses(
            others[n - 1].0,
            others[n - 1].1.1,
            others[n - 1].1.1.len() as int,
        )
    }
}

/// The verdict on a crate from its entry file and its other files.
pub open spec fn crate_verdict(path: Seq<char>, main: SyntaxView, others: Seq<(Seq<char>, SyntaxView)>) -> SupportView {
    match gate_of(main.0, main.0.len() as int) {
        Some(x) => SupportView::OnlyWithoutFeature(x),
        None => verdict(file_offenses(path, main, true) + other_offenses(others, others.len() as int)),
    }
}

/// Whether the tree of a `use` item is a path rooted at `std`.
pub fn is_std_use(tree: &str) -> (r: bool)
    ensures
        r == is_std_path(tree@),
{
    let s = strip_ws(tree);
    proof {
        reveal_strlit("std::");
    }
    starts_with(s.as_str(), "std::")
}

/// The offenses of the `use` items of `syntax` rooted at `std`.
pub fn use_std_offenses(syntax: &SourceSyntax, src_path: &String) -> (r: Vec<SourceOffense>)
    ensures
        offense_views(r@) == std_offenses(src_path@, syntax@.1, syntax@.1.len() as int),
{
    let mut r: Vec<SourceOffense> = Vec::new();
    let mut i: usize = 0;
    while i < syntax.items.len()
        invariant
            i <= syntax.items.len(),
            offense_views(r@) == std_offenses(src_path@, syntax@.1, i as int),
        decreases syntax.items.len() - i,
    {
        match &syntax.items[i] {
            Some(t) => {
                assert(syntax@.1[i as int] == Some(t@));
                if is_std_use(t.as_str()) {
                    let o = SourceOffense::UseStdStatement(
                        UseStdStmt { src_path: src_path.clone(), item_tree: t.clone() },
                    );
                    let ghost r0 = r@;
                    r.push(o);
                    assert(offense_views(r@) =~= offense_views(r0).push(o@));
                }
            },
            None => {
                assert(syntax@.1[i as int] == None::<Seq<char>>);
            },
        }
        i = i + 1;
    }
    r
}

/// The verdict on one file of a crate; `is_main_file` for its entry file.
pub fn check_syntax(syntax: &SourceSyntax, src_path: &String, is_main_file: bool) -> (r: CrateSupport)
    ensures
        r@ == file_verdict(src_path@, syntax@, is_main_file),
{
    let mut i: usize = 0;
    let mut marker = false;
    while i < syntax.attributes.len()
        invariant
            i <= syntax.attributes.len(),
            gate_of(syntax@.0, i as int).is_none(),
            marker == exists|j: int|
                0 <= j < i && (#[trigger] classify(strip(syntax@.0[j])) == AttributeClass::NoStd
                    || classify(strip(syntax@.0[j])) == AttributeClass::NoStdUnlessTest),
        decreases syntax.attributes.len() - i,
    {
        assert(syntax@.0[i as int] == syntax.attributes@[i as int]@);
        match attribute_kind(syntax.attributes[i].as_str()) {
            AttributeKind::NoStdUnlessFeature(x) => {
                proof {
                    lemma_gate_stays(syntax@.0, i + 1, syntax@.0.len() as int);
                }
                return CrateSupport::OnlyWithoutFeature(x);
            },
            AttributeKind::NoStd => {
                marker = true;
            },
            AttributeKind::NoStdUnlessTest => {
                marker = true;
            },
            AttributeKind::Other => {},
        }
        i = i + 1;
    }
    let mut offenses = use_std_offenses(syntax, src_path);
    let ghost base = offenses@;
    if is_main_file && !marker {
        offenses.push(SourceOffense::MissingNoStdAttribute);
    }
    proof {
        assert(offense_views(offenses@) =~= file_offenses(src_path@, syntax@, is_main_file));
    }
    if offenses.len() == 0 {
        CrateSupport::NoOffenseDetected
    } else {
        CrateSupport::SourceOffenses(offenses)
    }
}

pub open spec fn others_view(others: Seq<(String, SourceSyntax)>) -> Seq<(Seq<char>, SyntaxView)> {
    others.map_values(|o: (String, SourceSyntax)| (o.0@, o.1@))
}

/// The verdict on a crate from its parsed entry file and its other files:
/// a feature gate in the entry file decides alone; else the offenses of the
/// entry file, then the `use std` items of every other file.
pub fn crate_support(main_path: &String, main: &SourceSyntax, others: &Vec<(String, SourceSyntax)>) -> (r: CrateSupport)
    ensures
        r@ == crate_verdict(main_path@, main@, others_view(others@)),
{
    let main_support = check_syntax(main, main_path, true);
    let mut offenses = match main_support {
        CrateSupport::OnlyWithoutFeature(x) => return CrateSupport::OnlyWithoutFeature(x),
        CrateSupport::ProcMacro => return CrateSupport::ProcMacro,
        CrateSupport::SourceOffenses(off) => off,
        CrateSupport::NoOffenseDetected => Vec::new(),
    };
    let ghost first = offense_views(offenses@);
    assert(first =~= file_offenses(main_path@, main@, true));
    let mut i: usize = 0;
    while i < others.len()
        invariant
            i <= others.len(),
            offense_views(offenses@) == first + other_offenses(others_view(others@), i as int),
        decreases others.len() - i,
    {
        let mut more = use_std_offenses(&others[i].1, &others[i].0);
        let ghost o0 = offense_views(offenses@);
        let ghost m0 = offense_views(more@);
        offenses.append(&mut more);
        proof {
            assert(offense_views(offenses@) =~= o0 + m0);
            assert(others_view(others@)[i as int] == (others@[i as int].0@, others@[i as int].1@));
            assert(first + other_offenses(others_view(others@), i + 1) =~= o0 + m0);
        }
        i = i + 1;
    }
    if offenses.len() == 0 {
        CrateSupport::NoOffenseDetected
    } else {
        CrateSupport::SourceOffenses(offenses)
    }
}

/// The parsed form of each of `others`, when all of them parse.
pub open spec fn parsed_others(others: Seq<(String, String)>) -> Seq<(Seq<char>, SyntaxView)> {
    others.map_values(|o: (String, String)| (o.0@, rust_syntax(o.1@)->0))
}

pub open spec fn all_parse(others: Seq<(String, String)>) -> bool {
    forall|i: int| 0 <= i < others.len() ==> (#[trigger] rust_syntax(others[i].1@)).is_some()
}

/// The feature gate of the source text `src`, when it parses and has one.
pub open spec fn entry_gate(src: Seq<char>) -> Option<Seq<char>> {
    match rust_syntax(src) {
        Some(syn) => gate_of(syn.0, syn.0.len() as int),
        None => None,
    }
}

/// The verdict on a crate from the text of its entry file `main_src` and of
/// its other files `others` (path, text). A feature gate of the entry file
/// decides alone, and the other files are then not read. `None` when the
/// entry file, or without a gate one of the other files, is no Rust file.
pub fn get_crate_support_from_source(main_path: &String, main_src: &str, others: &Vec<(String, String)>) -> (r: Option<CrateSupport>)
    ensures
        r.is_some() == (rust_syntax(main_src@).is_some() && (entry_gate(main_src@).is_some() || all_parse(others@))),
        entry_gate(main_src@) matches Some(x) ==> (r matches Some(c) && c@ == SupportView::OnlyWithoutFeature(x)),
        entry_gate(main_src@).is_none() ==> (r matches Some(c) ==> c@ == crate_verdict(main_path@, rust_syntax(main_src@)->0, parsed_others(others@))),
{
    let main = match parse_source(main_src) {
        None => return None,
        Some(s) => s,
    };
    match check_syntax(&main, main_path, true) {
        CrateSupport::OnlyWithoutFeature(x) => {
            return Some(CrateSupport::OnlyWithoutFeature(x));
        },
        _ => {},
    }
    let mut parsed: Vec<(String, SourceSyntax)> = Vec::new();
    let mut i: usize = 0;
    while i < others.len()
        invariant
            entry_gate(main_src@).is_none(),
            i <= others.len(),
            parsed@.len() == i,
            forall|j: int| 0 <= j < i ==> (#[trigger] rust_syntax(others@[j].1@)).is_some(),
            others_view(parsed@) == parsed_others(others@.subrange(0, i as int)),
        decreases others.len() - i,
    {
        match parse_source(others[i].1.as_str()) {
            None => {
                return None;
            },
            Some(s) => {
                let ghost parsed_before = parsed@;
                parsed.push((others[i].0.clone(), s));
                proof {
                    assert(others@.subrange(0, i + 1) =~= others@.subrange(0, i as int).push(others@[i as int]));
                    assert(others_view(parsed@) =~= others_view(parsed_before).push((others@[i as int].0@, rust_syntax(others@[i as int].1@)->0)));
                    assert(parsed_others(others@.subrange(0, i + 1)) =~= parsed_others(others@.subrange(0, i as int)).push((others@[i as int].0@, rust_syntax(others@[i as int].1@)->0)));
                }
            },
        }
        i = i + 1;
    }
    assert(others@.subrange(0, i as int) =~= others@);
    Some(crate_support(main_path, &main, &parsed))
}

/// No `use` item among `items` is rooted at `std`.
pub open spec fn no_std_uses(items: Seq<Option<Seq<char>>>) -> bool {
    forall|i: int| 0 <= i < items.len() ==> !(#[trigger] items[i] matches Some(t) && is_std_path(t))
}

proof fn lemma_no_std_offenses(path: Seq<char>, items: Seq<Option<Seq<char>>>, n: int)
    requires
        no_std_uses(items),
        n <= items.len(),
    ensures
        std_offenses(path, items, n).len() == 0,
    decreases n,
{
    if n > 0 {
        lemma_no_std_offenses(path, items, n - 1);
        assert(!(items[n - 1] matches Some(t) && is_std_path(t)));
    }
}

proof fn lemma_no_other_offenses(others: Seq<(Seq<char>, SyntaxView)>, n: int)
    requires
        forall|j: int| 0 <= j < others.len() ==> no_std_uses(#[trigger] others[j].1.1),
        n <= others.len(),
    ensures
        other_offenses(others, n).len() == 0,
    decreases n,
{
    if n > 0 {
        lemma_no_other_offenses(others, n - 1);
        lemma_no_std_offenses(others[n - 1].0, others[n - 1].1.1, others[n - 1].1.1.len() as int);
    }
}

/// A crate whose entry file is marked `no_std` and has no feature gate, and
/// none of whose files has a `use` item rooted at `std`, has no offense.
pub proof fn lemma_marked_crate_has_no_offense(
    path: Seq<char>,
    main: SyntaxView,
    others: Seq<(Seq<char>, SyntaxView)>,
)
    requires
        exists|i: int|
            0 <= i < main.0.len() && #[trigger] classify(strip(main.0[i])) == AttributeClass::NoStd,
        gate_of(main.0, main.0.len() as int).is_none(),
        no_std_uses(main.1),
        forall|j: int| 0 <= j < others.len() ==> no_std_uses(#[trigger] others[j].1.1),
    ensures
        crate_verdict(path, main, others) == SupportView::NoOffenseDetected,
{
    lemma_no_std_offenses(path, main.1, main.1.len() as int);
    lemma_no_other_offenses(others, others.len() as int);
    assert(has_marker(main.0));
    assert(file_offenses(path, main, true) + other_offenses(others, others.len() as int) =~= seq![]);
}

proof fn lemma_std_offense_listed(path: Seq<char>, items: Seq<Option<Seq<char>>>, i: int, t: Seq<char>, n: int)
    requires
        0 <= i < n <= items.len(),
        items[i] == Some(t),
        is_std_path(t),
    ensures
        std_offenses(path, items, n).contains(OffenseView::UseStdStatement(path, t)),
    decreases n,
{
    if i < n - 1 {
        lemma_std_offense_listed(path, items, i, t, n - 1);
        let prev = std_offenses(path, items, n - 1);
        let k = choose|k: int| 0 <= k < prev.len() && prev[k] == OffenseView::UseStdStatement(path, t);
        assert(std_offenses(path, items, n)[k] == prev[k]);
    } else {
        let cur = std_offenses(path, items, n);
        assert(cur[cur.len() - 1] == OffenseView::UseStdStatement(path, t));
    }
}

proof fn lemma_other_offense_listed(others: Seq<(Seq<char>, SyntaxView)>, j: int, i: int, t: Seq<char>, n: int)
    requires
        0 <= j < n <= others.len(),
        0 <= i < others[j].1.1.len(),
        others[j].1.1[i] == Some(t),
        is_std_path(t),
    ensures
        other_offenses(others, n).contains(OffenseView::UseStdStatement(others[j].0, t)),
    decreases n,
{
    let o = OffenseView::UseStdStatement(others[j].0, t);
    let prev = other_offenses(others, n - 1);
    let last = std_offenses(others[n - 1].0, others[n - 1].1.1, others[n - 1].1.1.len() as int);
    assert(other_offenses(others, n) == prev + last);
    if j < n - 1 {
        lemma_other_offense_listed(others, j, i, t, n - 1);
        let k = choose|k: int| 0 <= k < prev.len() && prev[k] == o;
        assert((prev + last)[k] == o);
    } else {
        lemma_std_offense_listed(others[j].0, others[j].1.1, i, t, others[j].1.1.len() as int);
        let k = choose|k: int| 0 <= k < last.len() && last[k] == o;
        assert((prev + last)[prev.len() + k] == o);
    }
}

/// Unless the entry file's feature gate decides, a `use` item rooted at
/// `std` in a file other than the entry file is an offense of the crate,
/// whatever that file's own attributes.
pub proof fn lemma_other_file_use_std_flagged(
    path: Seq<char>,
    main: SyntaxView,
    others: Seq<(Seq<char>, SyntaxView)>,
    j: int,
    i: int,
    t: Seq<char>,
)
    requires
        gate_of(main.0, main.0.len() as int).is_none(),
        0 <= j < others.len(),
        0 <= i < others[j].1.1.len(),
        others[j].1.1[i] == Some(t),
        is_std_path(t),
    ensures
        crate_verdict(path, main, others) matches SupportView::SourceOffenses(offs) && offs.contains(
            OffenseView::UseStdStatement(others[j].0, t),
        ),
{
    lemma_other_offense_listed(others, j, i, t, others.len() as int);
    let a = file_offenses(path, main, true);
    let b = other_offenses(others, others.len() as int);
    let k = choose|k: int| 0 <= k < b.len() && b[k] == OffenseView::UseStdStatement(others[j].0, t);
    assert((a + b)[a.len() + k] == b[k]);
}

} // verus!

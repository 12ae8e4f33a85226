//! Binary verification: whether the compiled members of an archive carry
//! debug information for a namespace.
use vstd::prelude::*;

use crate::metadata::strs;
use crate::text::str_eq;

verus! {

/// One debugging information entry, as far as the search reads it.
#[derive(Debug)]
pub struct DebugEntry {
    /// The entry is a namespace.
    pub is_namespace: bool,
    /// The value of its first name attribute.
    pub name: Option<String>,
}

/// The debugging information entries of one compiled object, unit after
/// unit, each unit's entries in depth-first order.
#[derive(Debug)]
pub struct ObjectDebugInfo {
    pub entries: Vec<DebugEntry>,
}

/// The member names of the archive `bytes`, in the order that goblin's
/// `Archive::members` gives them; `None` when it is no archive.
pub uninterp spec fn archive_members(bytes: Seq<u8>) -> Option<Seq<Seq<char>>>;

/// The data of the member `name` of the archive `bytes`; `None` when it is
/// no archive or the member cannot be read.
pub uninterp spec fn archive_member_data(bytes: Seq<u8>, name: Seq<char>) -> Option<Seq<u8>>;

/// Relies on goblin's `Archive::parse` and `Archive::members`: the names of
/// the members of an archive.
#[verifier::external_body]
fn member_names(contents: &[u8]) -> (r: Option<Vec<String>>)
    ensures
        r.is_some() == archive_members(contents@).is_some(),
        r matches Some(v) ==> archive_members(contents@) == Some(strs(v@)),
{
    let archive = goblin::archive::Archive::parse(contents).ok()?;
    Some(archive.members().into_iter().map(|m| m.to_owned()).collect())
}

/// Relies on goblin's `Archive::parse` and `Archive::extract`: the bytes of
/// one member of an archive.
#[verifier::external_body]
fn member_data(contents: &[u8], name: &str) -> (r: Option<Vec<u8>>)
    ensures
        r.is_some() == archive_member_data(contents@, name@).is_some(),
        r matches Some(v) ==> archive_member_data(contents@, name@) == Some(v@),
{
    let archive = goblin::archive::Archive::parse(contents).ok()?;
    archive.extract(name, contents).ok().map(|b| b.to_vec())
}

/// The member name has the extension `o`.
pub open spec fn is_object_name(s: Seq<char>) -> bool {
    3 <= s.len() && s[s.len() - 2] == '.' && s[s.len() - 1] == 'o' && s[s.len() - 3] != '/'
}

/// Whether the member name `name` has the extension `o`.
pub fn is_object_member(name: &str) -> (r: bool)
    ensures
        r == is_object_name(name@),
{
    let n = name.unicode_len();
    n >= 3 && name.get_char(n - 2) == '.' && name.get_char(n - 1) == 'o' && name.get_char(n - 3)
        != '/'
}

/// The object members among the first `n` of `names`, with their data.
pub open spec fn object_members_of(bytes: Seq<u8>, names: Seq<Seq<char>>, n: int) -> Seq<(Seq<char>, Seq<u8>)>
    decreases n,
{
    if n <= 0 {
        seq![]
    } else if is_object_name(names[n - 1]) {
        object_members_of(bytes, names, n - 1).push((names[n - 1], archive_member_data(bytes, names[n - 1])->0))
    } else {
        object_members_of(bytes, names, n - 1)
    }
}

/// Every object member among `names` can be read.
pub open spec fn objects_readable(bytes: Seq<u8>, names: Seq<Seq<char>>) -> bool {
    forall|i: int|
        0 <= i < names.len() && is_object_name(names[i]) ==> (#[trigger] archive_member_data(bytes, names[i])).is_some()
}

pub open spec fn member_views(v: Seq<(String, Vec<u8>)>) -> Seq<(Seq<char>, Seq<u8>)> {
    v.map_values(|m: (String, Vec<u8>)| (m.0@, m.1@))
}

/// The compiled object members of the archive `contents`, with their bytes;
/// `None` when it is no archive or one of them cannot be read.
pub fn object_members(contents: &Vec<u8>) -> (r: Option<Vec<(String, Vec<u8>)>>)
    ensures
        r.is_some() == ((archive_members(contents@) matches Some(names) && objects_readable(contents@, names))),
        r matches Some(v) ==> member_views(v@) == object_members_of(
            contents@,
            archive_members(contents@)->0,
            archive_members(contents@)->0.len() as int,
        ),
{
    let names = match member_names(contents.as_slice()) {
        None => return None,
        Some(v) => v,
    };
    let ghost ns = strs(names@);
    let mut r: Vec<(String, Vec<u8>)> = Vec::new();
    let mut i: usize = 0;
    while i < names.len()
        invariant
            ns == strs(names@),
            archive_members(contents@) == Some(ns),
            i <= names.len(),
            forall|j: int|
                0 <= j < i && is_object_name(ns[j]) ==> (#[trigger] archive_member_data(contents@, ns[j])).is_some(),
            member_views(r@) == object_members_of(contents@, ns, i as int),
        decreases names.len() - i,
    {
        assert(ns[i as int] == names@[i as int]@);
        if is_object_member(names[i].as_str()) {
            match member_data(contents.as_slice(), names[i].as_str()) {
                None => return None,
                Some(data) => {
                    let ghost r0 = r@;
                    r.push((names[i].clone(), data));
                    assert(member_views(r@) =~= member_views(r0).push((ns[i as int], archive_member_data(contents@, ns[i as int])->0)));
                },
            }
        }
        i = i + 1;
    }
    Some(r)
}

/// The entry is a namespace named `name`.
pub open spec fn names_namespace(e: DebugEntry, name: Seq<char>) -> bool {
    e.is_namespace && (e.name matches Some(n) && n@ == name)
}

/// Whether the entry is a namespace named `namespace_name`.
pub fn die_entry_is_namespace(entry: &DebugEntry, namespace_name: &str) -> (r: bool)
    ensures
        r == names_namespace(*entry, namespace_name@),
{
    if !entry.is_namespace {
        return false;
    }
    match &entry.name {
        None => false,
        Some(n) => str_eq(n.as_str(), namespace_name),
    }
}

/// Whether one object's debug information has a namespace `namespace_name`.
pub fn object_file_contains_namespace(object: &ObjectDebugInfo, namespace_name: &str) -> (r: bool)
    ensures
        r == exists|j: int|
            0 <= j < object.entries@.len() && names_namespace(#[trigger] object.entries@[j], namespace_name@),
{
    let mut j: usize = 0;
    while j < object.entries.len()
        invariant
            j <= object.entries.len(),
            forall|k: int| 0 <= k < j ==> !names_namespace(#[trigger] object.entries@[k], namespace_name@),
        decreases object.entries.len() - j,
    {
        if die_entry_is_namespace(&object.entries[j], namespace_name) {
            return true;
        }
        j = j + 1;
    }
    false
}

/// Whether the debug information of some compiled member has a namespace
/// `namespace_name`; the search stops at the first match.
pub fn rlib_contains_namespace(objects: &Vec<ObjectDebugInfo>, namespace_name: &str) -> (r: bool)
    ensures
        r == exists|i: int, j: int|
            0 <= i < objects@.len() && 0 <= j < objects@[i].entries@.len() && names_namespace(
                #[trigger] objects@[i].entries@[j],
                namespace_name@,
            ),
{
    let mut i: usize = 0;
    while i < objects.len()
        invariant
            i <= objects.len(),
            forall|a: int, j: int|
                0 <= a < i && 0 <= j < objects@[a].entries@.len() ==> !names_namespace(
                    #[trigger] objects@[a].entries@[j],
                    namespace_name@,
                ),
        decreases objects.len() - i,
    {
        if object_file_contains_namespace(&objects[i], namespace_name) {
            return true;
        }
        i = i + 1;
    }
    false
}

} // verus!

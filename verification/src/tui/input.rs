//! What the interface accepts as input.
use vstd::prelude::*;
use crate::playlist::PlaylistEntry;
use crate::text::{chars_of, trim, trim_bounds};

verus! {

broadcast use vstd::string::group_string_axioms;

/// Why a playlist name was refused.
#[derive(Debug)]
pub enum NameError {
    /// It is empty or blank.
    Empty,
    /// It holds `/`, `\` or `:`, which cannot stand in a file name.
    ForbiddenChar,
    /// It is `.` or `..`.
    Reserved,
    /// Another playlist already has it.
    Duplicate,
}

/// `c` cannot stand in a playlist's file name.
pub open spec fn forbidden_in_name(c: char) -> bool {
    c == '/' || c == '\\' || c == ':'
}

/// Some playlist in `existing` is named `t`, and `t` is not the name of the
/// playlist being renamed.
pub open spec fn taken_name(t: Seq<char>, existing: Seq<PlaylistEntry>, current: Option<&str>) -> bool {
    &&& !(current matches Some(c) && c@ == t)
    &&& exists|i: int| 0 <= i < existing.len() && #[trigger] existing[i].name@ == t
}

/// The verdict on a new name for a playlist, checked on the trimmed name in
/// this order: blank, a forbidden character, `.` or `..`, taken by another
/// playlist.
pub open spec fn name_verdict(name: Seq<char>, existing: Seq<PlaylistEntry>, current: Option<&str>) -> Result<(), NameError> {
    let t = trim(name);
    if t.len() == 0 {
        Err(NameError::Empty)
    } else if exists|i: int| 0 <= i < name.len() && forbidden_in_name(#[trigger] name[i]) {
        Err(NameError::ForbiddenChar)
    } else if t == "."@ || t == ".."@ {
        Err(NameError::Reserved)
    } else if taken_name(t, existing, current) {
        Err(NameError::Duplicate)
    } else {
        Ok(())
    }
}

/// Whether `v` is exactly `w`.
fn same_chars(v: &Vec<char>, w: &Vec<char>) -> (b: bool)
    ensures
        b == (v@ == w@),
{
    if v.len() != w.len() {
        return false;
    }
    let mut i: usize = 0;
    while i < v.len()
        invariant
            i <= v.len() == w.len(),
            forall|k: int| 0 <= k < i ==> v@[k] == w@[k],
        decreases v.len() - i,
    {
        if v[i] != w[i] {
            return false;
        }
        i = i + 1;
    }
    assert(v@ =~= w@);
    true
}

/// Checks a name for a new or renamed playlist. `current` is the playlist's
/// present name during a rename, which it may keep.
#[verifier::loop_isolation(false)]
pub fn validate_playlist_name(
    name: &str,
    existing: &[PlaylistEntry],
    current: Option<&str>,
) -> (r: Result<(), NameError>)
    ensures
        r == name_verdict(name@, existing@, current),
{
    let v = chars_of(name);
    let (a, b) = trim_bounds(&v, 0, v.len());
    assert(v@.subrange(0, v@.len() as int) =~= v@);
    let mut t: Vec<char> = Vec::new();
    let mut i = a;
    while i < b
        invariant
            a <= i <= b <= v.len(),
            t@ == v@.subrange(a as int, i as int),
        decreases b - i,
    {
        t.push(v[i]);
        i = i + 1;
        assert(t@ =~= v@.subrange(a as int, i as int));
    }
    if t.len() == 0 {
        return Err(NameError::Empty);
    }
    let mut k: usize = 0;
    while k < v.len()
        invariant
            k <= v.len(),
            v@ == name@,
            forall|m: int| 0 <= m < k ==> !forbidden_in_name(#[trigger] v@[m]),
        decreases v.len() - k,
    {
        let c = v[k];
        if c == '/' || c == '\\' || c == ':' {
            return Err(NameError::ForbiddenChar);
        }
        k = k + 1;
    }
    if same_chars(&t, &chars_of(".")) || same_chars(&t, &chars_of("..")) {
        return Err(NameError::Reserved);
    }
    let keeps_current = match current {
        Some(c) => same_chars(&t, &chars_of(c)),
        None => false,
    };
    if !keeps_current {
        let mut e: usize = 0;
        while e < existing.len()
            invariant
                e <= existing.len(),
                forall|m: int| 0 <= m < e ==> #[trigger] existing@[m].name@ != t@,
            decreases existing.len() - e,
        {
            if same_chars(&t, &chars_of(existing[e].name.as_str())) {
                return Err(NameError::Duplicate);
            }
            e = e + 1;
        }
    }
    Ok(())
}


/// An accepted name is not blank, holds nothing a file name cannot, is not
/// `.` or `..`, and is the name of no other playlist: only the playlist being
/// renamed may already carry it.
pub proof fn law_accepted_name_is_usable(name: Seq<char>, existing: Seq<PlaylistEntry>, current: Option<&str>)
    ensures
        name_verdict(name, existing, current) is Ok ==> {
            &&& trim(name).len() > 0
            &&& forall|i: int| 0 <= i < name.len() ==> !forbidden_in_name(#[trigger] name[i])
            &&& trim(name) != "."@ && trim(name) != ".."@
            &&& forall|i: int|
                0 <= i < existing.len() && #[trigger] existing[i].name@ == trim(name) ==> (
                current matches Some(c) && c@ == trim(name))
        },
{
}

/// Exactly these names are accepted: one whose trim is not blank, that holds
/// no `/`, `\` or `:`, whose trim is not `.` or `..`, and that no playlist
/// other than the one being renamed carries. Any other character, digits and
/// inner spaces included, is fine.
pub proof fn law_name_accepted_exactly_when_usable(
    name: Seq<char>,
    existing: Seq<PlaylistEntry>,
    current: Option<&str>,
)
    ensures
        name_verdict(name, existing, current) is Ok <==> {
            &&& trim(name).len() > 0
            &&& forall|i: int|
                0 <= i < name.len() ==> #[trigger] name[i] != '/' && name[i] != '\\' && name[i]
                    != ':'
            &&& trim(name) != "."@ && trim(name) != ".."@
            &&& forall|i: int|
                0 <= i < existing.len() && #[trigger] existing[i].name@ == trim(name) ==> (
                current matches Some(c) && c@ == trim(name))
        },
{
}

} // verus!

//! Entries of a file listing, and the rule by which a search picks them.

use vstd::prelude::*;
use vstd::string::*;

verus! {

/// One entry of a folder listing or of a search result.
#[derive(Debug, Clone, PartialEq, Eq)]
pub struct FilesList {
    pub name: String,
    pub path: String,
    pub size: u64,
    pub is_dir: bool,
    pub is_file: bool,
}

/// The most entries that a search returns.
pub const SEARCH_LIMIT: usize = 20;

/// The lowercase form of a text.
pub uninterp spec fn lowercase_of(text: Seq<char>) -> Seq<char>;

/// The lowercase form of `text`, as `str::to_lowercase` of the standard
/// library gives it. It depends on the text alone; nothing else is claimed
/// of it.
#[verifier::external_body]
fn lowercase(text: &str) -> (lower: String)
    ensures
        lower@ == lowercase_of(text@),
{
    text.to_lowercase()
}

/// Whether `needle` stands in `hay` at position `at`.
pub open spec fn occurs_at(hay: Seq<char>, needle: Seq<char>, at: int) -> bool {
    0 <= at && at + needle.len() <= hay.len() && hay.subrange(at, at + needle.len()) == needle
}

/// Whether `needle` stands somewhere in `hay`.
pub open spec fn occurs(hay: Seq<char>, needle: Seq<char>) -> bool {
    exists|at: int| occurs_at(hay, needle, at)
}

/// The characters of `text`.
pub fn chars_of(text: &str) -> (chars: Vec<char>)
    ensures
        chars@ == text@,
{
    let n = text.unicode_len();
    let mut chars: Vec<char> = Vec::new();
    let mut i: usize = 0;
    while i < n
        invariant
            i <= n,
            n == text@.len(),
            chars@ == text@.subrange(0, i as int),
        decreases n - i,
    {
        chars.push(text.get_char(i));
        assert(chars@ =~= text@.subrange(0, i + 1));
        i += 1;
    }
    assert(chars@ =~= text@);
    chars
}

/// Whether `needle` stands in `hay` at position `at`.
fn found_at(hay: &Vec<char>, needle: &Vec<char>, at: usize) -> (found: bool)
    requires
        at + needle@.len() <= hay@.len(),
    ensures
        found == occurs_at(hay@, needle@, at as int),
{
    let total = hay.len();
    let mut i: usize = 0;
    while i < needle.len()
        invariant
            i <= needle@.len(),
            at + needle@.len() <= hay@.len(),
            hay@.len() <= usize::MAX,
            forall|k: int| 0 <= k < i ==> hay@[at + k] == needle@[k],
        decreases needle@.len() - i,
    {
        if hay[at + i] != needle[i] {
            assert(hay@.subrange(at as int, at + needle@.len())[i as int] != needle@[i as int]);
            return false;
        }
        i += 1;
    }
    assert(hay@.subrange(at as int, at + needle@.len()) =~= needle@);
    true
}

/// Whether `needle` stands somewhere in `hay`.
pub fn contains_text(hay: &Vec<char>, needle: &Vec<char>) -> (found: bool)
    ensures
        found == occurs(hay@, needle@),
{
    if needle.len() > hay.len() {
        return false;
    }
    let last = hay.len() - needle.len();
    let mut at: usize = 0;
    loop
        invariant
            at <= last,
            last == hay@.len() - needle@.len(),
            forall|k: int| 0 <= k < at ==> !occurs_at(hay@, needle@, k),
        decreases last - at,
    {
        if found_at(hay, needle, at) {
            return true;
        }
        if at == last {
            return false;
        }
        at += 1;
    }
}

/// Whether a file of this name answers the search term: the lowercase form
/// of the term stands somewhere in the lowercase form of the name.
pub fn matches_search(filename: &str, search_term: &str) -> (matches: bool)
    ensures
        matches == occurs(lowercase_of(filename@), lowercase_of(search_term@)),
{
    let name = lowercase(filename);
    let term = lowercase(search_term);
    contains_text(&chars_of(name.as_str()), &chars_of(term.as_str()))
}

/// Whether a search that has found these entries is to stop.
pub fn search_is_full(found: &Vec<FilesList>) -> (full: bool)
    ensures
        full == (found@.len() >= SEARCH_LIMIT),
{
    found.len() >= SEARCH_LIMIT
}

/// The entry that a search returns for a file that it found.
pub fn search_hit(name: String, path: String, size: u64) -> (entry: FilesList)
    ensures
        entry.name == name,
        entry.path == path,
        entry.size == size,
        !entry.is_dir,
        entry.is_file,
{
    FilesList { name, path, size, is_dir: false, is_file: true }
}

} // verus!

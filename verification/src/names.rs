//! The dictionary names that give a document its structure.

use vstd::prelude::*;

verus! {

/// The name `Root`: in the trailer, the reference to the catalog.
pub open spec fn root_key() -> Seq<u8> {
    seq!['R' as u8, 'o' as u8, 'o' as u8, 't' as u8]
}

/// The name `Pages`: in the catalog, the reference to the page tree; as a
/// type, a node of the page tree.
pub open spec fn pages_key() -> Seq<u8> {
    seq!['P' as u8, 'a' as u8, 'g' as u8, 'e' as u8, 's' as u8]
}

/// The name `Page`: the type of a page.
pub open spec fn page_name() -> Seq<u8> {
    seq!['P' as u8, 'a' as u8, 'g' as u8, 'e' as u8]
}

/// The name `Catalog`: the type of the catalog.
pub open spec fn catalog_name() -> Seq<u8> {
    seq!['C' as u8, 'a' as u8, 't' as u8, 'a' as u8, 'l' as u8, 'o' as u8, 'g' as u8]
}

/// The name `Type`: what kind of dictionary this is.
pub open spec fn type_key() -> Seq<u8> {
    seq!['T' as u8, 'y' as u8, 'p' as u8, 'e' as u8]
}

/// The name `Kids`: in a node of the page tree, the array of its children.
pub open spec fn kids_key() -> Seq<u8> {
    seq!['K' as u8, 'i' as u8, 'd' as u8, 's' as u8]
}

/// The name `Count`: in a node of the page tree, the number of pages below it.
pub open spec fn count_key() -> Seq<u8> {
    seq!['C' as u8, 'o' as u8, 'u' as u8, 'n' as u8, 't' as u8]
}

/// The name `Parent`: in a page, the reference to the node above it.
pub open spec fn parent_key() -> Seq<u8> {
    seq!['P' as u8, 'a' as u8, 'r' as u8, 'e' as u8, 'n' as u8, 't' as u8]
}

/// The bytes of `Root`.
pub fn root_key_bytes() -> (name: Vec<u8>)
    ensures
        name@ == root_key(),
{
    let name = vec!['R' as u8, 'o' as u8, 'o' as u8, 't' as u8];
    assert(name@ =~= root_key());
    name
}

/// The bytes of `Pages`.
pub fn pages_key_bytes() -> (name: Vec<u8>)
    ensures
        name@ == pages_key(),
{
    let name = vec!['P' as u8, 'a' as u8, 'g' as u8, 'e' as u8, 's' as u8];
    assert(name@ =~= pages_key());
    name
}

/// The bytes of `Page`.
pub fn page_name_bytes() -> (name: Vec<u8>)
    ensures
        name@ == page_name(),
{
    let name = vec!['P' as u8, 'a' as u8, 'g' as u8, 'e' as u8];
    assert(name@ =~= page_name());
    name
}

/// The bytes of `Catalog`.
pub fn catalog_name_bytes() -> (name: Vec<u8>)
    ensures
        name@ == catalog_name(),
{
    let name = vec!['C' as u8, 'a' as u8, 't' as u8, 'a' as u8, 'l' as u8, 'o' as u8, 'g' as u8];
    assert(name@ =~= catalog_name());
    name
}

/// The bytes of `Type`.
pub fn type_key_bytes() -> (name: Vec<u8>)
    ensures
        name@ == type_key(),
{
    let name = vec!['T' as u8, 'y' as u8, 'p' as u8, 'e' as u8];
    assert(name@ =~= type_key());
    name
}

/// The bytes of `Kids`.
pub fn kids_key_bytes() -> (name: Vec<u8>)
    ensures
        name@ == kids_key(),
{
    let name = vec!['K' as u8, 'i' as u8, 'd' as u8, 's' as u8];
    assert(name@ =~= kids_key());
    name
}

/// The bytes of `Count`.
pub fn count_key_bytes() -> (name: Vec<u8>)
    ensures
        name@ == count_key(),
{
    let name = vec!['C' as u8, 'o' as u8, 'u' as u8, 'n' as u8, 't' as u8];
    assert(name@ =~= count_key());
    name
}

/// The bytes of `Parent`.
pub fn parent_key_bytes() -> (name: Vec<u8>)
    ensures
        name@ == parent_key(),
{
    let name = vec!['P' as u8, 'a' as u8, 'r' as u8, 'e' as u8, 'n' as u8, 't' as u8];
    assert(name@ =~= parent_key());
    name
}

} // verus!

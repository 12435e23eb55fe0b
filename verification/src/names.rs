//! The table of species names: a two-way map between the index of a species
//! and its name.

use bimap::BiHashMap;
use vstd::prelude::*;

verus! {

/// `bimap::BiHashMap`: a map between left and right values that holds each
/// left value and each right value in one pair at most. Nothing of its
/// inside is known here.
#[verifier::external_type_specification]
#[verifier::external_body]
#[verifier::reject_recursive_types(L)]
#[verifier::reject_recursive_types(R)]
#[verifier::reject_recursive_types(LS)]
#[verifier::reject_recursive_types(RS)]
pub struct ExBiHashMap<L, R, LS, RS>(BiHashMap<L, R, LS, RS>);

/// The pairs that a name table holds: each index that has a name, with the
/// characters of that name.
pub uninterp spec fn name_table(names: BiHashMap<usize, String>) -> Map<usize, Seq<char>>;

/// The table after `name` was bound to `index`: whatever carried that name
/// before has left, and `index` carries it now.
pub open spec fn with_name(table: Map<usize, Seq<char>>, index: usize, name: Seq<char>) -> Map<
    usize,
    Seq<char>,
> {
    table.remove_keys(Set::new(|k: usize| table.contains_key(k) && table[k] == name)).insert(
        index,
        name,
    )
}

/// The table holds the names of the sequence and no others, each at its
/// index.
pub open spec fn table_of(table: Map<usize, Seq<char>>, names: Seq<Seq<char>>) -> bool {
    &&& forall|k: usize| table.contains_key(k) <==> k < names.len()
    &&& forall|k: usize| k < names.len() ==> #[trigger] table[k] == names[k as int]
}

/// `BiHashMap::new`: the table it makes holds no pair.
#[verifier::external_body]
pub(crate) fn names_new() -> (r: BiHashMap<usize, String>)
    ensures
        name_table(r) =~= Map::empty(),
{
    BiHashMap::new()
}

/// `BiHashMap::insert`: the pair goes in, and the pairs that held the same
/// index or the same name before go out.
#[verifier::external_body]
pub(crate) fn names_insert(names: &mut BiHashMap<usize, String>, index: usize, name: String)
    ensures
        name_table(*final(names)) == with_name(name_table(*old(names)), index, name@),
{
    names.insert(index, name);
}

/// `BiHashMap::get_by_left`: the name that `index` carries, if it carries
/// one.
#[verifier::external_body]
pub(crate) fn names_get_by_left(names: &BiHashMap<usize, String>, index: usize) -> (r: Option<&String>)
    ensures
        r is Some ==> name_table(*names).contains_key(index) && name_table(*names)[index]
            == r.unwrap()@,
        r is None ==> !name_table(*names).contains_key(index),
{
    names.get_by_left(&index)
}

/// `BiHashMap::get_by_right`: the index that carries `name`, if one does.
#[verifier::external_body]
pub(crate) fn names_get_by_right(names: &BiHashMap<usize, String>, name: &str) -> (r: Option<usize>)
    ensures
        r is Some ==> name_table(*names).contains_key(r.unwrap()) && name_table(*names)[r.unwrap()]
            == name@,
        r is None ==> forall|i: usize| #[trigger]
            name_table(*names).contains_key(i) ==> name_table(*names)[i] != name@,
{
    names.get_by_right(name).copied()
}

/// `BiHashMap::clone`: the copy holds the same pairs.
#[verifier::external_body]
pub(crate) fn names_clone(names: &BiHashMap<usize, String>) -> (r: BiHashMap<usize, String>)
    ensures
        name_table(r) == name_table(*names),
{
    names.clone()
}

} // verus!

//! The letter-to-digit table of one searcher, held in a `bimap::BiHashMap`.
use vstd::prelude::*;

verus! {

#[verifier::external_type_specification]
#[verifier::external_body]
#[verifier::reject_recursive_types(L)]
#[verifier::reject_recursive_types(R)]
#[verifier::reject_recursive_types(LS)]
#[verifier::reject_recursive_types(RS)]
pub struct ExBiHashMap<L, R, LS, RS>(bimap::BiHashMap<L, R, LS, RS>);

/// A two-way table between letters and digits.
pub type LetterTable = bimap::BiHashMap<char, u32>;

/// The left-to-right pairs that a letter table holds.
pub uninterp spec fn pairs_of(m: bimap::BiHashMap<char, u32>) -> Map<char, u32>;

/// The pairs after `BiHashMap::insert(left, right)`: every pair whose left value is
/// `left` or whose right value is `right` is dropped, then `left`-`right` is added.
pub open spec fn after_insert(p: Map<char, u32>, left: char, right: u32) -> Map<char, u32> {
    Map::new(
        |k: char| k == left || (p.contains_key(k) && p[k] != right),
        |k: char|
            if k == left {
                right
            } else {
                p[k]
            },
    )
}

/// Relies on `bimap::BiHashMap::new`: the table starts with no pairs.
#[verifier::external_body]
pub(crate) fn empty_table() -> (table: LetterTable)
    ensures
        pairs_of(table).dom() =~= Set::empty(),
{
    bimap::BiHashMap::new()
}

/// Relies on `bimap::BiHashMap::get_by_left`: the digit paired with `c`, if any.
#[verifier::external_body]
pub(crate) fn digit_of_letter(m: &LetterTable, c: char) -> (r: Option<u32>)
    ensures
        r == (if pairs_of(*m).contains_key(c) {
            Some(pairs_of(*m)[c])
        } else {
            None
        }),
{
    m.get_by_left(&c).copied()
}

/// Relies on `bimap::BiHashMap::get_by_right`: a letter paired with `v`, if any.
#[verifier::external_body]
pub(crate) fn letter_of_digit(m: &LetterTable, v: u32) -> (r: Option<char>)
    ensures
        r matches Some(c) ==> pairs_of(*m).contains_key(c) && pairs_of(*m)[c] == v,
        r is None ==> forall|c: char| #[trigger] pairs_of(*m).contains_key(c) ==> pairs_of(*m)[c] != v,
{
    m.get_by_right(&v).copied()
}

/// Relies on `bimap::BiHashMap::insert`: the pairs that share a side with the new one
/// are dropped before it is added.
#[verifier::external_body]
pub(crate) fn insert_pair(m: &mut LetterTable, left: char, right: u32)
    ensures
        pairs_of(*final(m)) == after_insert(pairs_of(*old(m)), left, right),
{
    m.insert(left, right);
}

/// Relies on `bimap::BiHashMap::len`: the number of pairs.
#[verifier::external_body]
pub(crate) fn table_len(m: &LetterTable) -> (r: usize)
    ensures
        r == pairs_of(*m).dom().len(),
{
    m.len()
}

} // verus!

//! The persistent collections the block map is built on, with the contracts
//! this crate relies on for each operation it uses.

use vstd::prelude::*;

use crate::ids::ContentHash;
use crate::lbamap::MapEntry;

verus! {

/// The persistent ordered map from first block to extent: an
/// `imbl::OrdMap`, whose contents `extents_of` names.
#[verifier::external_body]
pub struct ExtentTree {
    tree: imbl::OrdMap<u64, MapEntry>,
}

/// The persistent map from a claimed hash to its number of claims: an
/// `imbl::HashMap` keyed by the hash's two halves, whose contents `claims_of`
/// names.
#[verifier::external_body]
pub struct ClaimTable {
    table: imbl::HashMap<(u128, u128), u64>,
}

/// What an extent tree holds.
pub uninterp spec fn extents_of(tree: ExtentTree) -> Map<u64, MapEntry>;

/// What a claim table holds.
pub uninterp spec fn claims_of(table: ClaimTable) -> Map<ContentHash, u64>;

impl View for ExtentTree {
    type V = Map<u64, MapEntry>;

    open spec fn view(&self) -> Map<u64, MapEntry> {
        extents_of(*self)
    }
}

impl View for ClaimTable {
    type V = Map<ContentHash, u64>;

    open spec fn view(&self) -> Map<ContentHash, u64> {
        claims_of(*self)
    }
}

/// `imbl::OrdMap::new`: a tree that holds nothing.
#[verifier::external_body]
pub(crate) fn extents_new() -> (tree: ExtentTree)
    ensures
        extents_of(tree) == (Map::<u64, MapEntry>::empty()),
{
    ExtentTree { tree: imbl::OrdMap::new() }
}

/// `imbl::OrdMap::get`: the value at `key`, if the tree holds one.
#[verifier::external_body]
pub(crate) fn extents_get(tree: &ExtentTree, key: u64) -> (found: Option<MapEntry>)
    ensures
        found == (if extents_of(*tree).contains_key(key) {
            Some(extents_of(*tree)[key])
        } else {
            None
        }),
{
    tree.tree.get(&key).copied()
}

/// `imbl::OrdMap::range` over the keys up to and including `key`, from its
/// upper end: the entry with the greatest such key.
#[verifier::external_body]
pub(crate) fn extents_at_or_below(tree: &ExtentTree, key: u64) -> (found: Option<(u64, MapEntry)>)
    ensures
        match found {
            Some((k, e)) => {
                &&& k <= key
                &&& extents_of(*tree).contains_key(k)
                &&& extents_of(*tree)[k] == e
                &&& forall|j: u64| k < j <= key ==> !#[trigger] extents_of(*tree).contains_key(j)
            },
            None => forall|j: u64| j <= key ==> !#[trigger] extents_of(*tree).contains_key(j),
        },
{
    tree.tree.range(..=key).next_back().map(|(&k, &e)| (k, e))
}

/// `imbl::OrdMap::range` over `a..b`: the entries keyed there, ascending.
#[verifier::external_body]
pub(crate) fn extents_range(tree: &ExtentTree, a: u64, b: u64) -> (found: Vec<(u64, MapEntry)>)
    requires
        a <= b,
    ensures
        found@ == crate::lbamap::entries_between(extents_of(*tree), a as int, b as int),
{
    tree.tree.range(a..b).map(|(&k, &e)| (k, e)).collect()
}

/// `imbl::OrdMap::len`: the number of keys.
#[verifier::external_body]
pub(crate) fn extents_len(tree: &ExtentTree) -> (n: usize)
    ensures
        n == extents_of(*tree).dom().len(),
{
    tree.tree.len()
}

/// `imbl::OrdMap::insert`: the value is stored at the key, replacing what
/// was there.
#[verifier::external_body]
pub(crate) fn extents_insert(tree: &mut ExtentTree, key: u64, entry: MapEntry)
    ensures
        extents_of(*final(tree)) == extents_of(*old(tree)).insert(key, entry),
{
    tree.tree.insert(key, entry);
}

/// `imbl::OrdMap::remove`: the key leaves the tree, and its value comes back.
#[verifier::external_body]
pub(crate) fn extents_remove(tree: &mut ExtentTree, key: u64) -> (removed: Option<MapEntry>)
    ensures
        extents_of(*final(tree)) == extents_of(*old(tree)).remove(key),
        removed == (if extents_of(*old(tree)).contains_key(key) {
            Some(extents_of(*old(tree))[key])
        } else {
            None
        }),
{
    tree.tree.remove(&key)
}

/// `imbl::OrdMap::clone`: a tree that holds the same entries.
#[verifier::external_body]
pub(crate) fn extents_clone(tree: &ExtentTree) -> (copy: ExtentTree)
    ensures
        extents_of(copy) == extents_of(*tree),
{
    ExtentTree { tree: tree.tree.clone() }
}

/// `imbl::HashMap::new`: a table that holds nothing.
#[verifier::external_body]
pub(crate) fn claims_new() -> (table: ClaimTable)
    ensures
        claims_of(table) == (Map::<ContentHash, u64>::empty()),
{
    ClaimTable { table: imbl::HashMap::new() }
}

/// `imbl::HashMap::get`: the count at `hash`, if the table holds one.
#[verifier::external_body]
pub(crate) fn claims_get(table: &ClaimTable, hash: ContentHash) -> (found: Option<u64>)
    ensures
        found == (if claims_of(*table).contains_key(hash) {
            Some(claims_of(*table)[hash])
        } else {
            None
        }),
{
    table.table.get(&(hash.head, hash.tail)).copied()
}

/// `imbl::HashMap::insert`: the count is stored at `hash`, replacing what
/// was there.
#[verifier::external_body]
pub(crate) fn claims_insert(table: &mut ClaimTable, hash: ContentHash, count: u64)
    ensures
        claims_of(*final(table)) == claims_of(*old(table)).insert(hash, count),
{
    table.table.insert((hash.head, hash.tail), count);
}

/// `imbl::HashMap::remove`: `hash` leaves the table.
#[verifier::external_body]
pub(crate) fn claims_remove(table: &mut ClaimTable, hash: ContentHash)
    ensures
        claims_of(*final(table)) == claims_of(*old(table)).remove(hash),
{
    table.table.remove(&(hash.head, hash.tail));
}

/// `imbl::HashMap::keys`: every hash the table holds, each once, in an order
/// the table does not fix.
#[verifier::external_body]
pub(crate) fn claims_keys(table: &ClaimTable) -> (hashes: Vec<ContentHash>)
    ensures
        hashes@.to_set() == claims_of(*table).dom(),
        hashes@.no_duplicates(),
{
    table.table.keys().map(|&(head, tail)| ContentHash { head, tail }).collect()
}

/// `imbl::HashMap::clone`: a table that holds the same counts.
#[verifier::external_body]
pub(crate) fn claims_clone(table: &ClaimTable) -> (copy: ClaimTable)
    ensures
        claims_of(copy) == claims_of(*table),
{
    ClaimTable { table: table.table.clone() }
}

} // verus!

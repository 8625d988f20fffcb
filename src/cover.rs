//! The exact-cover model of sudoku (729 placements, 324 constraints) and the live index
//! that the search keeps in a hash map of hash sets.

use vstd::prelude::*;

use ahash::{AHashMap, AHashSet};

use crate::topology::{box_of, col_of, row_of};

verus! {

#[verifier::external_type_specification]
#[verifier::external_body]
#[verifier::reject_recursive_types(K)]
#[verifier::reject_recursive_types(V)]
#[verifier::reject_recursive_types(S)]
pub struct ExAHashMap<K, V, S>(AHashMap<K, V, S>);

#[verifier::external_type_specification]
#[verifier::external_body]
#[verifier::reject_recursive_types(T)]
#[verifier::reject_recursive_types(S)]
pub struct ExAHashSet<T, S>(AHashSet<T, S>);

#[verifier::external_type_specification]
#[verifier::external_body]
pub struct ExRandomState(ahash::RandomState);

/// The live index of the exact-cover search: for each constraint still to cover, the
/// placements that would cover it.
pub type Cover = AHashMap<u16, Column>;

/// The placements that cover one constraint.
pub type Column = AHashSet<u16>;

/// The placements that a column holds.
pub uninterp spec fn column_members(s: Column) -> Set<u16>;

/// The columns of a live index: each constraint still to cover, with its placements.
pub uninterp spec fn cover_columns(x: Cover) -> Map<u16, Set<u16>>;

/// Relies on `AHashMap::with_capacity`: a new map is empty.
#[verifier::external_body]
pub(crate) fn new_cover() -> (r: Cover)
    ensures
        cover_columns(r) =~= Map::empty(),
{
    AHashMap::with_capacity(324)
}

/// Relies on `AHashSet::with_capacity`: a new set is empty.
#[verifier::external_body]
pub(crate) fn new_column() -> (r: Column)
    ensures
        column_members(r) == Set::<u16>::empty(),
{
    AHashSet::with_capacity(9)
}

/// Relies on `AHashMap::insert`: the key now maps to the given column.
#[verifier::external_body]
pub(crate) fn cover_insert(x: &mut Cover, j: u16, column: Column)
    ensures
        cover_columns(*final(x)) == cover_columns(*old(x)).insert(j, column_members(column)),
{
    x.insert(j, column);
}

/// Relies on `AHashMap::remove`: the key's column is handed back and the key is gone.
#[verifier::external_body]
pub(crate) fn cover_remove(x: &mut Cover, j: u16) -> (r: Option<Column>)
    ensures
        cover_columns(*final(x)) == cover_columns(*old(x)).remove(j),
        r is Some == cover_columns(*old(x)).dom().contains(j),
        r matches Some(c) ==> column_members(c) == cover_columns(*old(x))[j],
{
    x.remove(&j)
}

/// Relies on `AHashMap::get_mut` and `HashSet::remove`: placement `i` leaves column `k`,
/// if that column is there.
#[verifier::external_body]
pub(crate) fn column_remove(x: &mut Cover, k: u16, i: u16)
    ensures
        cover_columns(*final(x)) == (if cover_columns(*old(x)).dom().contains(k) {
            cover_columns(*old(x)).insert(k, cover_columns(*old(x))[k].remove(i))
        } else {
            cover_columns(*old(x))
        }),
{
    if let Some(column) = x.get_mut(&k) {
        column.remove(&i);
    }
}

/// Relies on `AHashMap::get_mut` and `HashSet::insert`: placement `i` joins column `k`,
/// if that column is there.
#[verifier::external_body]
pub(crate) fn column_add(x: &mut Cover, k: u16, i: u16)
    ensures
        cover_columns(*final(x)) == (if cover_columns(*old(x)).dom().contains(k) {
            cover_columns(*old(x)).insert(k, cover_columns(*old(x))[k].insert(i))
        } else {
            cover_columns(*old(x))
        }),
{
    if let Some(column) = x.get_mut(&k) {
        column.insert(i);
    }
}

/// Relies on `AHashMap::get` and `HashSet::iter`: each placement of column `j` once, in
/// the set's own order; none when the column is not there.
#[verifier::external_body]
pub(crate) fn column_list(x: &Cover, j: u16) -> (r: Vec<u16>)
    ensures
        r@.no_duplicates(),
        r@.to_set() == (if cover_columns(*x).dom().contains(j) {
            cover_columns(*x)[j]
        } else {
            Set::<u16>::empty()
        }),
{
    match x.get(&j) {
        Some(column) => column.iter().copied().collect(),
        None => Vec::new(),
    }
}

/// Relies on `HashMap::keys`: each key once, in the map's own order.
#[verifier::external_body]
pub(crate) fn cover_keys(x: &Cover) -> (r: Vec<u16>)
    ensures
        r@.no_duplicates(),
        r@.to_set() == cover_columns(*x).dom(),
{
    x.keys().copied().collect()
}

/// Relies on `HashSet::len`: the number of placements in column `j`, 0 when it is not there.
#[verifier::external_body]
pub(crate) fn column_len(x: &Cover, j: u16) -> (r: usize)
    ensures
        cover_columns(*x).dom().contains(j) ==> r == cover_columns(*x)[j].len(),
{
    match x.get(&j) {
        Some(column) => column.len(),
        None => 0,
    }
}

/// Relies on `HashMap::contains_key`.
#[verifier::external_body]
pub(crate) fn cover_has(x: &Cover, j: u16) -> (r: bool)
    ensures
        r == cover_columns(*x).dom().contains(j),
{
    x.contains_key(&j)
}

// The exact-cover model of sudoku. Placement `p` (0..729) puts digit `p % 9 + 1` in
// cell `p / 9`. Constraint numbers (0..324) come in four families of 81: a cell is
// filled; a row has a digit; a column has a digit; a box has a digit.

/// Whether `p` names one of the 729 placements.
pub open spec fn is_placement(p: u16) -> bool {
    p < 729
}

/// Whether `j` names one of the 324 constraints.
pub open spec fn is_constraint(j: u16) -> bool {
    j < 324
}

/// The placement of digit value `v` (1..=9) in cell `q`.
pub open spec fn placement(q: int, v: int) -> u16 {
    (9 * q + v - 1) as u16
}

/// The cell of placement `p`.
pub open spec fn cell_of(p: u16) -> int {
    p as int / 9
}

/// The digit value (1..=9) of placement `p`.
pub open spec fn value_of(p: u16) -> int {
    p as int % 9 + 1
}

/// The constraint of family `t` (0..4) that placement `p` satisfies.
pub open spec fn constraint(p: u16, t: int) -> u16 {
    let q = cell_of(p);
    let d = value_of(p) - 1;
    (if t == 0 {
        q
    } else if t == 1 {
        81 + row_of(q) * 9 + d
    } else if t == 2 {
        162 + col_of(q) * 9 + d
    } else {
        243 + box_of(q) * 9 + d
    }) as u16
}

/// Whether placement `p` satisfies constraint `j`.
pub open spec fn covers(p: u16, j: u16) -> bool {
    constraint(p, 0) == j || constraint(p, 1) == j || constraint(p, 2) == j || constraint(p, 3)
        == j
}

/// Whether placements `p` and `q` satisfy a common constraint.
pub open spec fn clashes(p: u16, q: u16) -> bool {
    constraint(p, 0) == constraint(q, 0) || constraint(p, 1) == constraint(q, 1) || constraint(
        p,
        2,
    ) == constraint(q, 2) || constraint(p, 3) == constraint(q, 3)
}

/// The constraints that some placement of `s` satisfies.
pub open spec fn covered(s: Set<u16>) -> Set<u16> {
    Set::new(|j: u16| exists|p: u16| s.contains(p) && #[trigger] covers(p, j))
}

/// Whether `p` clashes with no placement of `s`.
pub open spec fn compatible(p: u16, s: Set<u16>) -> bool {
    forall|q: u16| s.contains(q) ==> !#[trigger] clashes(p, q)
}

/// Placements, no two of which clash.
pub open spec fn consistent(s: Set<u16>) -> bool {
    &&& forall|p: u16| s.contains(p) ==> is_placement(p)
    &&& forall|p: u16, q: u16| s.contains(p) && s.contains(q) && p != q ==> !#[trigger] clashes(p, q)
}

/// An exact cover: consistent placements that satisfy every constraint.
pub open spec fn full(s: Set<u16>) -> bool {
    &&& consistent(s)
    &&& forall|j: u16| is_constraint(j) ==> #[trigger] covered(s).contains(j)
}

/// The live index once the placements of `s` are chosen: each constraint that they leave
/// uncovered, with the placements that cover it and clash with none of `s`.
pub open spec fn live(s: Set<u16>) -> Map<u16, Set<u16>> {
    Map::new(
        |j: u16| is_constraint(j) && !covered(s).contains(j),
        |j: u16| Set::new(|p: u16| is_placement(p) && covers(p, j) && compatible(p, s)),
    )
}

/// The exec form of `constraint`.
pub fn constraint_of(p: u16, t: usize) -> (r: u16)
    requires
        is_placement(p),
        t < 4,
    ensures
        r == constraint(p, t as int),
{
    let q = (p / 9) as usize;
    let d = (p % 9) as usize;
    let row = q / 9;
    let column = q % 9;
    let j = if t == 0 {
        q
    } else if t == 1 {
        81 + row * 9 + d
    } else if t == 2 {
        162 + column * 9 + d
    } else {
        243 + (row / 3 * 3 + column / 3) * 9 + d
    };
    j as u16
}

pub proof fn lemma_constraint(p: u16, t: int)
    requires
        is_placement(p),
        0 <= t < 4,
    ensures
        81 * t <= constraint(p, t) < 81 * t + 81,
        t == 0 ==> constraint(p, t) == cell_of(p),
        0 <= cell_of(p) < 81,
        1 <= value_of(p) <= 9,
        p == placement(cell_of(p), value_of(p)),
{
    let q = cell_of(p);
    assert(0 <= row_of(q) < 9 && 0 <= col_of(q) < 9);
    assert(0 <= box_of(q) < 9) by {
        assert(row_of(q) / 3 < 3 && col_of(q) / 3 < 3);
    }
}

/// A placement satisfies a constraint only through the constraint's own family.
pub proof fn lemma_covers_family(p: u16, j: u16, t: int)
    requires
        is_placement(p),
        0 <= t < 4,
        81 * t <= j < 81 * t + 81,
    ensures
        covers(p, j) == (constraint(p, t) == j),
{
    lemma_constraint(p, 0);
    lemma_constraint(p, 1);
    lemma_constraint(p, 2);
    lemma_constraint(p, 3);
}

/// Two placements clash exactly when one satisfies a constraint of the other.
pub proof fn lemma_clashes(p: u16, q: u16)
    requires
        is_placement(p),
        is_placement(q),
    ensures
        clashes(p, q) == clashes(q, p),
        clashes(p, q) == (covers(q, constraint(p, 0)) || covers(q, constraint(p, 1)) || covers(
            q,
            constraint(p, 2),
        ) || covers(q, constraint(p, 3))),
        clashes(p, p),
{
    lemma_constraint(p, 0);
    lemma_constraint(p, 1);
    lemma_constraint(p, 2);
    lemma_constraint(p, 3);
    lemma_covers_family(q, constraint(p, 0), 0);
    lemma_covers_family(q, constraint(p, 1), 1);
    lemma_covers_family(q, constraint(p, 2), 2);
    lemma_covers_family(q, constraint(p, 3), 3);
}

} // verus!

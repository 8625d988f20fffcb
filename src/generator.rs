//! Puzzles with a unique solution: a random solved grid, then cells emptied one at a
//! time while the solution stays unique.

use vstd::prelude::*;
use vstd::set_lib::{lemma_int_range, set_int_range};

use ahash::AHashSet;
use rand::seq::SliceRandom;

use crate::grid::{count_true, values_complete, values_valid, Grid};
use crate::solver::{
    alx_solve, grid_values, is_solution, lemma_unit_has_digit, lemma_unique_solves_once,
    solve_result, unique_solution,
};
use crate::topology::{
    box_indices, box_of, col_of, column_indices, is_cell, is_peer, lemma_box, lemma_cell_parts,
    lemma_split, row_indices, row_of,
};

verus! {

/// The cells that an index set holds.
pub uninterp spec fn index_members(s: AHashSet<usize>) -> Set<usize>;

/// Relies on `AHashSet::new`: a new set is empty.
#[verifier::external_body]
fn new_index_set() -> (r: AHashSet<usize>)
    ensures
        index_members(r) == Set::<usize>::empty(),
{
    AHashSet::new()
}

/// Relies on `AHashSet`'s `FromIterator`: the set of the numbers below 81.
#[verifier::external_body]
fn all_indices() -> (r: AHashSet<usize>)
    ensures
        index_members(r) == Set::new(|i: usize| i < 81),
{
    (0..81).collect()
}

/// Relies on `HashSet::len`.
#[verifier::external_body]
fn index_set_len(s: &AHashSet<usize>) -> (r: usize)
    ensures
        r == index_members(*s).len(),
{
    s.len()
}

/// Relies on `HashSet::contains`.
#[verifier::external_body]
fn index_set_contains(s: &AHashSet<usize>, i: usize) -> (r: bool)
    ensures
        r == index_members(*s).contains(i),
{
    s.contains(&i)
}

/// Relies on `HashSet::insert`.
#[verifier::external_body]
fn index_set_insert(s: &mut AHashSet<usize>, i: usize)
    ensures
        index_members(*final(s)) == index_members(*old(s)).insert(i),
{
    s.insert(i);
}

/// Relies on `HashSet::remove`.
#[verifier::external_body]
fn index_set_remove(s: &mut AHashSet<usize>, i: usize)
    ensures
        index_members(*final(s)) == index_members(*old(s)).remove(i),
{
    s.remove(&i);
}

/// Relies on `HashSet::difference`: the members of `a` that `b` lacks, in some order.
#[verifier::external_body]
fn index_set_difference(a: &AHashSet<usize>, b: &AHashSet<usize>) -> (r: Vec<usize>)
    ensures
        r@.to_set() == index_members(*a).difference(index_members(*b)),
{
    a.difference(b).copied().collect()
}

/// Relies on `SliceRandom::choose` with `thread_rng`: one of the items, none when there
/// are none.
#[verifier::external_body]
fn choose_one(items: &Vec<usize>) -> (r: Option<usize>)
    ensures
        r is None == (items@.len() == 0),
        r matches Some(i) ==> items@.contains(i),
{
    items.choose(&mut rand::thread_rng()).copied()
}

/// Relies on `SliceRandom::shuffle` with `thread_rng`: the same items in some order.
#[verifier::external_body]
fn shuffle(line: &mut [usize; 9])
    ensures
        final(line)@.to_multiset() == old(line)@.to_multiset(),
{
    line.shuffle(&mut rand::thread_rng());
}

/// The numbers below `n`, in order.
fn numbers_below(n: usize) -> (r: Vec<usize>)
    ensures
        r@.len() == n,
        forall|i: int| 0 <= i < n ==> #[trigger] r@[i] == i,
{
    let mut r: Vec<usize> = Vec::new();
    let mut i: usize = 0;
    while i < n
        invariant
            i <= n,
            r@.len() == i,
            forall|j: int| 0 <= j < i ==> #[trigger] r@[j] == j,
        decreases n - i,
    {
        r.push(i);
        i = i + 1;
    }
    r
}

/// An empty grid with digits 1 to 9, in random order, along a random row, column or box.
fn seed_grid() -> (r: Grid)
    ensures
        r.wf(),
        forall|i: int| 0 <= i < 81 ==> !#[trigger] r.frozen_flags()[i],
        exists|line: Seq<usize>| seed_line(line, r@),
{
    let family = match choose_one(&numbers_below(3)) {
        Some(f) => f,
        None => 0,
    };
    let line = match choose_one(&numbers_below(9)) {
        Some(l) => l,
        None => 0,
    };
    let mut indices = if family == 0 {
        row_indices(line)
    } else if family == 1 {
        column_indices(line)
    } else {
        box_indices(line)
    };
    proof {
        assert forall|k: int| 0 <= k < 9 implies #[trigger] indices@[k] < 81 by {
            assert(line < 9);
        }
        lemma_line_of_peers(indices@, family as int, line as int);
    }
    let ghost before = indices@;
    shuffle(&mut indices);
    proof {
        broadcast use vstd::seq_lib::group_to_multiset_ensures;

        assert forall|k: int| 0 <= k < 9 implies #[trigger] indices@[k] < 81 by {
            assert(indices@.contains(indices@[k]));
            assert(indices@.to_multiset().count(indices@[k]) > 0);
            assert(before.contains(indices@[k]));
        }
        before.lemma_multiset_has_no_duplicates();
        indices@.lemma_multiset_has_no_duplicates_conv();
        assert forall|k1: int, k2: int| 0 <= k1 < 9 && 0 <= k2 < 9 && k1 != k2 implies is_peer(
            #[trigger] indices@[k1] as int,
            #[trigger] indices@[k2] as int,
        ) by {
            assert(indices@.contains(indices@[k1]) && indices@.contains(indices@[k2]));
            assert(indices@.to_multiset().count(indices@[k1]) > 0);
            assert(indices@.to_multiset().count(indices@[k2]) > 0);
            assert(before.contains(indices@[k1]) && before.contains(indices@[k2]));
            let j1 = choose|j: int| 0 <= j < 9 && before[j] == indices@[k1];
            let j2 = choose|j: int| 0 <= j < 9 && before[j] == indices@[k2];
        }
    }
    let mut grid = Grid::new();
    let mut n: usize = 0;
    while n < 9
        invariant
            n <= 9,
            grid.wf(),
            grid@.len() == 81,
            indices@.no_duplicates(),
            forall|k: int| 0 <= k < 9 ==> #[trigger] indices@[k] < 81,
            forall|i: int| 0 <= i < 81 ==> !#[trigger] grid.frozen_flags()[i],
            forall|j: int| 0 <= j < n ==> grid@[#[trigger] indices@[j] as int] == j + 1,
            forall|q: int|
                0 <= q < 81 && (forall|j: int| 0 <= j < n ==> #[trigger] indices@[j] != q)
                    ==> grid@[q] == 0,
        decreases 9 - n,
    {
        proof {
            grid.lemma_wf();
        }
        grid.set(indices[n], (n + 1) as u8, false);
        n = n + 1;
    }
    proof {
        assert(seed_line(indices@, grid@));
    }
    grid
}

proof fn lemma_indices_finite()
    ensures
        Set::new(|i: usize| i < 81).finite(),
        Set::new(|i: usize| i < 81).len() == 81,
{
    let ints = set_int_range(0, 81);
    lemma_int_range(0, 81);
    let f = |i: int| i as usize;
    ints.lemma_map_finite(f);
    assert(ints.map(f) =~= Set::new(|i: usize| i < 81)) by {
        assert forall|j: usize| j < 81 implies ints.map(f).contains(j) by {
            assert(ints.contains(j as int));
            assert(f(j as int) == j);
        }
    }
    assert(vstd::relations::injective_on(f, ints));
    vstd::set_lib::lemma_map_size(ints, ints.map(f), f);
}

/// The number of set flags is the number of cells in the set that they mark.
proof fn lemma_count_marked(flags: Seq<bool>, s: Set<usize>, n: int)
    requires
        flags.len() == 81,
        0 <= n <= 81,
        s.finite(),
        forall|i: int| 0 <= i < 81 ==> #[trigger] flags[i] == s.contains(i as usize),
        forall|x: usize| s.contains(x) ==> x < 81,
    ensures
        count_true(flags.subrange(0, n)) == s.filter(|x: usize| x < n).len(),
    decreases n,
{
    if n == 0 {
        assert(s.filter(|x: usize| x < 0) =~= Set::empty());
        assert(flags.subrange(0, 0) =~= Seq::<bool>::empty());
    } else {
        lemma_count_marked(flags, s, n - 1);
        assert(flags.subrange(0, n).drop_last() =~= flags.subrange(0, n - 1));
        let below = s.filter(|x: usize| x < n - 1);
        if s.contains((n - 1) as usize) {
            assert(s.filter(|x: usize| x < n) =~= below.insert((n - 1) as usize));
        } else {
            assert(s.filter(|x: usize| x < n) =~= below);
        }
    }
}

/// A complete, valid grid has itself as its one solution.
proof fn lemma_complete_unique(g: Seq<u8>)
    requires
        is_solution(g, g),
    ensures
        unique_solution(g),
{
    assert forall|s1: Seq<u8>, s2: Seq<u8>| is_solution(g, s1) && is_solution(g, s2) implies s1
        == s2 by {
        assert(s1 =~= s2);
    }
}

/// One answer from a search that could have given two means exactly one solution.
proof fn lemma_one_of_two(g: Seq<u8>, r: Seq<Seq<u8>>)
    requires
        solve_result(g, 2, r),
        r.len() == 1,
    ensures
        unique_solution(g),
{
    assert(is_solution(g, r[0]));
    assert forall|s1: Seq<u8>, s2: Seq<u8>| is_solution(g, s1) && is_solution(g, s2) implies s1
        == s2 by {
        let k1 = choose|k: int| 0 <= k < r.len() && #[trigger] r[k] == s1;
        let k2 = choose|k: int| 0 <= k < r.len() && #[trigger] r[k] == s2;
    }
}

/// A seed: one row, column or box holding digit `n + 1` in cell `line[n]`, every other
/// cell empty.
pub open spec fn seed_line(line: Seq<usize>, v: Seq<u8>) -> bool {
    &&& v.len() == 81
    &&& line.len() == 9
    &&& forall|k: int| 0 <= k < 9 ==> #[trigger] line[k] < 81
    &&& forall|k1: int, k2: int|
        0 <= k1 < 9 && 0 <= k2 < 9 && k1 != k2 ==> is_peer(
            #[trigger] line[k1] as int,
            #[trigger] line[k2] as int,
        )
    &&& forall|n: int| 0 <= n < 9 ==> v[#[trigger] line[n] as int] == n + 1
    &&& forall|q: int|
        0 <= q < 81 && (forall|n: int| 0 <= n < 9 ==> #[trigger] line[n] != q) ==> v[q] == 0
}

/// The cells of a row (`family` 0), column (1) or box (2) are peers of one another.
proof fn lemma_line_of_peers(line: Seq<usize>, family: int, u: int)
    requires
        0 <= u < 9,
        line.len() == 9,
        family == 0 ==> forall|k: int| 0 <= k < 9 ==> #[trigger] line[k] == 9 * u + k,
        family == 1 ==> forall|k: int| 0 <= k < 9 ==> #[trigger] line[k] == 9 * k + u,
        family != 0 && family != 1 ==> forall|k: int|
            0 <= k < 9 ==> #[trigger] line[k] == 9 * (u / 3 * 3 + k / 3) + (u % 3 * 3 + k % 3),
    ensures
        line.no_duplicates(),
        forall|k1: int, k2: int|
            0 <= k1 < 9 && 0 <= k2 < 9 && k1 != k2 ==> is_peer(
                #[trigger] line[k1] as int,
                #[trigger] line[k2] as int,
            ),
{
    assert forall|k1: int, k2: int|
        0 <= k1 < 9 && 0 <= k2 < 9 && k1 != k2 implies is_peer(
        #[trigger] line[k1] as int,
        #[trigger] line[k2] as int,
    ) && line[k1] != line[k2] by {
        if family == 0 {
            lemma_cell_parts(u, k1);
            lemma_cell_parts(u, k2);
        } else if family == 1 {
            lemma_cell_parts(k1, u);
            lemma_cell_parts(k2, u);
        } else {
            lemma_cell_parts(u / 3 * 3 + k1 / 3, u % 3 * 3 + k1 % 3);
            lemma_cell_parts(u / 3 * 3 + k2 / 3, u % 3 * 3 + k2 % 3);
            lemma_box(line[k1] as int, line[k2] as int);
        }
    }
}

/// The digit of cell `q` in a fixed solved grid.
spec fn base(q: int) -> int {
    (3 * (row_of(q) % 3) + row_of(q) / 3 + col_of(q)) % 9 + 1
}

/// The fixed solved grid.
spec fn base_grid() -> Seq<u8> {
    Seq::new(81, |q: int| base(q) as u8)
}

proof fn lemma_digit_formula(a1: int, b1: int, e1: int, f1: int, a2: int, b2: int, e2: int, f2: int)
    requires
        0 <= a1 < 3 && 0 <= b1 < 3 && 0 <= e1 < 3 && 0 <= f1 < 3,
        0 <= a2 < 3 && 0 <= b2 < 3 && 0 <= e2 < 3 && 0 <= f2 < 3,
        a1 != a2 || b1 != b2 || e1 != e2 || f1 != f2,
        (a1 == a2 && b1 == b2) || (e1 == e2 && f1 == f2) || (a1 == a2 && e1 == e2),
    ensures
        (3 * b1 + a1 + 3 * e1 + f1) % 9 != (3 * b2 + a2 + 3 * e2 + f2) % 9,
{
    let d1 = 3 * b1 + a1 + 3 * e1 + f1;
    let d2 = 3 * b2 + a2 + 3 * e2 + f2;
    assert(d1 % 9 == if d1 >= 9 { d1 - 9 } else { d1 });
    assert(d2 % 9 == if d2 >= 9 { d2 - 9 } else { d2 });
}

proof fn lemma_base_differs(a: int, b: int)
    requires
        is_peer(a, b),
    ensures
        base(a) != base(b),
        1 <= base(a) <= 9,
{
    lemma_split(a);
    lemma_split(b);
    lemma_box(a, b);
    let r1 = row_of(a);
    let r2 = row_of(b);
    let c1 = col_of(a);
    let c2 = col_of(b);
    assert(r1 == 3 * (r1 / 3) + r1 % 3 && r2 == 3 * (r2 / 3) + r2 % 3);
    assert(c1 == 3 * (c1 / 3) + c1 % 3 && c2 == 3 * (c2 / 3) + c2 % 3);
    lemma_digit_formula(r1 / 3, r1 % 3, c1 / 3, c1 % 3, r2 / 3, r2 % 3, c2 / 3, c2 % 3);
    assert(3 * (r1 % 3) + r1 / 3 + c1 == 3 * (r1 % 3) + r1 / 3 + 3 * (c1 / 3) + c1 % 3);
    assert(3 * (r2 % 3) + r2 / 3 + c2 == 3 * (r2 % 3) + r2 / 3 + 3 * (c2 / 3) + c2 % 3);
}

proof fn lemma_base_solved()
    ensures
        is_solution(base_grid(), base_grid()),
{
    let g = base_grid();
    assert forall|i: int| 0 <= i < 81 implies 1 <= #[trigger] g[i] <= 9 by {
        lemma_split(i);
    }
    assert forall|a: int, b: int| #![trigger g[a], g[b]] is_peer(a, b) && g[a] > 0 implies g[a] != g[b] by {
        lemma_base_differs(a, b);
        lemma_base_differs(b, a);
    }
}

/// The seat on the line of the cell whose fixed digit matches cell `q`'s.
spec fn seat(line: Seq<usize>, q: int) -> int {
    choose|n: int| 0 <= n < 9 && base(line[n] as int) == base(q)
}

/// Every seed has a solution: the fixed solved grid with its digits renamed to agree with
/// the seed's line.
proof fn lemma_seed_solvable(line: Seq<usize>, v: Seq<u8>)
    requires
        seed_line(line, v),
    ensures
        exists|s: Seq<u8>| is_solution(v, s),
{
    let g = base_grid();
    lemma_base_solved();
    let unit = |k: int| line[k] as int;
    assert forall|k1: int, k2: int|
        0 <= k1 < 9 && 0 <= k2 < 9 && k1 != k2 implies is_peer(#[trigger] unit(k1), #[trigger] unit(k2)) by {
        assert(is_peer(line[k1] as int, line[k2] as int));
    }
    assert forall|q: int| 0 <= q < 81 implies 0 <= #[trigger] seat(line, q) < 9 && base(
        line[seat(line, q)] as int,
    ) == base(q) by {
        lemma_split(q);
        lemma_unit_has_digit(g, unit, base(q) - 1);
        let k = choose|k: int| 0 <= k < 9 && g[#[trigger] unit(k)] as int == base(q) - 1 + 1;
        lemma_split(line[k] as int);
        assert(base(line[k] as int) == base(q));
    }
    assert forall|n1: int, n2: int|
        0 <= n1 < 9 && 0 <= n2 < 9 && base(line[n1] as int) == base(line[n2] as int) implies n1
        == n2 by {
        if n1 != n2 {
            assert(is_peer(line[n1] as int, line[n2] as int));
            lemma_base_differs(line[n1] as int, line[n2] as int);
        }
    }
    let s = Seq::new(81, |q: int| (seat(line, q) + 1) as u8);
    assert forall|a: int, b: int| #![trigger s[a], s[b]] is_peer(a, b) && s[a] > 0 implies s[a] != s[b] by {
        lemma_base_differs(a, b);
        assert(0 <= seat(line, a) < 9 && 0 <= seat(line, b) < 9);
    }
    assert forall|i: int| 0 <= i < 81 && v[i] != 0 implies #[trigger] s[i] == v[i] by {
        assert(0 <= seat(line, i) < 9);
        if forall|n: int| 0 <= n < 9 ==> #[trigger] line[n] != i {
        } else {
            let n = choose|n: int| 0 <= n < 9 && #[trigger] line[n] == i;
            assert(v[line[n] as int] == n + 1);
            assert(base(line[seat(line, i)] as int) == base(line[n] as int));
        }
    }
    assert forall|i: int| 0 <= i < 81 implies #[trigger] s[i] <= 9 && s[i] != 0 by {
        assert(0 <= seat(line, i) < 9);
    }
    assert(is_solution(v, s));
}

/// One digging step: empties cell `index` when the grid keeps exactly one solution that
/// way, and leaves the values as they were otherwise.
fn dig(grid: &mut Grid, index: usize) -> (removed: bool)
    requires
        old(grid).wf(),
        index < 81,
        !old(grid).frozen_flags()[index as int],
    ensures
        final(grid).wf(),
        final(grid).frozen_flags() == old(grid).frozen_flags(),
        removed == unique_solution(old(grid)@.update(index as int, 0)),
        removed ==> final(grid)@ == old(grid)@.update(index as int, 0),
        !removed ==> final(grid)@ == old(grid)@,
{
    proof {
        grid.lemma_wf();
    }
    let old_value = grid.get(index);
    let ghost before = grid@;
    grid.set(index, 0, false);
    let answers = alx_solve(grid, 2);
    if answers.len() == 1 {
        proof {
            lemma_one_of_two(grid@, grid_values(answers@));
        }
        true
    } else {
        proof {
            if unique_solution(grid@) {
                lemma_unique_solves_once(grid@, 2, grid_values(answers@));
            }
        }
        grid.set(index, old_value, false);
        proof {
            assert(grid@ =~= before);
        }
        false
    }
}

/// One attempt at a puzzle with `givens` frozen cells and exactly one solution: a random
/// solved grid, from which random cells are emptied one at a time, each only if the grid
/// keeps one solution. The attempt gives up (none) when no remaining cell can be emptied,
/// which cannot happen when nothing is to be emptied (81 givens). The frozen cells of the
/// puzzle are exactly its filled ones.
pub fn try_generate(givens: usize) -> (r: Option<Grid>)
    requires
        17 <= givens <= 81,
    ensures
        r matches Some(g) ==> {
            &&& g.wf()
            &&& count_true(g.frozen_flags()) == givens
            &&& unique_solution(g@)
            &&& forall|i: int| 0 <= i < 81 ==> #[trigger] g.frozen_flags()[i] == (g@[i] != 0)
        },
        givens == 81 ==> r is Some,
{
    let seed = seed_grid();
    let solved = alx_solve(&seed, 1);
    proof {
        let line = choose|line: Seq<usize>| seed_line(line, seed@);
        lemma_seed_solvable(line, seed@);
        let s = choose|s: Seq<u8>| is_solution(seed@, s);
        if solved@.len() == 0 {
            assert(solve_result(seed@, 1, grid_values(solved@)));
            assert(exists|k: int|
                0 <= k < grid_values(solved@).len() && #[trigger] grid_values(solved@)[k] == s);
        }
    }
    let mut grid = solved[0];
    proof {
        seed.lemma_wf();
        grid.lemma_wf();
        assert(grid_values(solved@)[0] == grid@);
        assert(is_solution(seed@, grid@));
        assert(is_solution(grid@, grid@));
        lemma_complete_unique(grid@);
        lemma_indices_finite();
    }
    let mut not_removed = all_indices();
    while index_set_len(&not_removed) > givens
        invariant
            grid.wf(),
            grid@.len() == 81,
            forall|i: int| 0 <= i < 81 ==> !#[trigger] grid.frozen_flags()[i],
            unique_solution(grid@),
            index_members(not_removed).finite(),
            forall|x: usize| index_members(not_removed).contains(x) ==> x < 81,
            forall|i: int|
                0 <= i < 81 ==> index_members(not_removed).contains(i as usize) == (#[trigger] grid@[i]
                    != 0),
            index_members(not_removed).len() >= givens,
            index_members(not_removed).len() <= 81,
        decreases index_members(not_removed).len(),
    {
        let ghost size = index_members(not_removed).len();
        let mut tried = new_index_set();
        let mut removed = false;
        while !removed
            invariant
                grid.wf(),
                grid@.len() == 81,
                forall|i: int| 0 <= i < 81 ==> !#[trigger] grid.frozen_flags()[i],
                unique_solution(grid@),
                index_members(not_removed).finite(),
                forall|x: usize| index_members(not_removed).contains(x) ==> x < 81,
                forall|i: int|
                    0 <= i < 81 ==> index_members(not_removed).contains(i as usize) == (
                    #[trigger] grid@[i] != 0),
                !removed ==> index_members(not_removed).len() == size,
                removed ==> index_members(not_removed).len() == size - 1,
                size > givens,
                size <= 81,
            decreases index_members(not_removed).difference(index_members(tried)).len(),
                if removed {
                    0int
                } else {
                    1int
                },
        {
            let candidates = index_set_difference(&not_removed, &tried);
            let index = match choose_one(&candidates) {
                Some(i) => i,
                None => {
                    return None;
                },
            };
            let ghost left = index_members(not_removed).difference(index_members(tried));
            proof {
                assert(candidates@.to_set().contains(index));
                assert(left.subset_of(index_members(not_removed)));
                vstd::set_lib::lemma_set_subset_finite(index_members(not_removed), left);
                grid.lemma_wf();
            }
            if dig(&mut grid, index) {
                index_set_remove(&mut not_removed, index);
                removed = true;
                proof {
                    assert(index_members(not_removed).difference(index_members(tried)) =~= left.remove(
                        index,
                    ));
                }
            } else {
                index_set_insert(&mut tried, index);
                proof {
                    assert(index_members(not_removed).difference(index_members(tried)) =~= left.remove(
                        index,
                    ));
                }
            }
        }
    }
    let mut index: usize = 0;
    while index < 81
        invariant
            index <= 81,
            grid.wf(),
            grid@.len() == 81,
            unique_solution(grid@),
            forall|i: int|
                0 <= i < 81 ==> index_members(not_removed).contains(i as usize) == (#[trigger] grid@[i]
                    != 0),
            forall|i: int|
                0 <= i < 81 ==> #[trigger] grid.frozen_flags()[i] == (i < index
                    && index_members(not_removed).contains(i as usize)),
        decreases 81 - index,
    {
        proof {
            grid.lemma_wf();
        }
        if index_set_contains(&not_removed, index) {
            grid.freeze(index);
        } else {
            let ghost before = grid@;
            grid.set(index, 0, true);
            proof {
                assert(grid@ =~= before);
            }
        }
        index = index + 1;
    }
    proof {
        grid.lemma_wf();
        lemma_count_marked(grid.frozen_flags(), index_members(not_removed), 81);
        assert(grid.frozen_flags().subrange(0, 81) =~= grid.frozen_flags());
        assert(index_members(not_removed).filter(|x: usize| x < 81) =~= index_members(not_removed));
    }
    Some(grid)
}

} // verus!

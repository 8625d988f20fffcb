//! The grid: 81 cells with values, candidate sets and frozen flags; checked
//! placement with candidate propagation; validity, completeness and the text format.

use vstd::prelude::*;

use crate::candidates::{all_digits, Candidates};
use crate::topology::{
    box_indices, column_indices, is_cell, is_peer, lemma_peer_list, peer_list, peers, row_indices,
};

verus! {

/// The digit indices that nonzero peers of cell `i` already hold (digit `d + 1` gives `d`).
pub open spec fn peer_digits(v: Seq<u8>, i: int) -> Set<int> {
    Set::new(|d: int| 0 <= d < 9 && exists|p: int| is_peer(i, p) && v[p] as int == d + 1)
}

/// The digit indices that no peer of cell `i` holds.
pub open spec fn free_digits(v: Seq<u8>, i: int) -> Set<int> {
    all_digits().difference(peer_digits(v, i))
}

/// Whether peer `p` lets cell `i` keep its nonzero value: an empty peer keeps a
/// candidate, and a filled peer holds another digit.
pub open spec fn peer_accepts(v: Seq<u8>, c: Seq<Set<int>>, i: int, p: int) -> bool {
    &&& v[p] == 0 ==> !c[p].remove(v[i] - 1).is_empty()
    &&& v[p] != 0 ==> v[p] != v[i]
}

/// Whether propagating the value of cell `i` succeeds, given values `v` and candidate sets
/// `c`: a nonzero value needs every peer to accept it; clearing a cell always succeeds.
pub open spec fn update_ok(v: Seq<u8>, c: Seq<Set<int>>, i: int) -> bool {
    v[i] > 0 ==> forall|p: int| is_peer(i, p) ==> #[trigger] peer_accepts(v, c, i, p)
}

/// The candidate sets after a successful propagation of cell `i`.
pub open spec fn updated_sets(v: Seq<u8>, c: Seq<Set<int>>, i: int) -> Seq<Set<int>> {
    if v[i] > 0 {
        Seq::new(
            81,
            |q: int|
                if q == i {
                    Set::empty()
                } else if is_peer(i, q) && v[q] == 0 {
                    c[q].remove(v[i] - 1)
                } else {
                    c[q]
                },
        )
    } else {
        c.update(i, free_digits(v, i))
    }
}

/// No two peers hold the same nonzero digit.
pub open spec fn values_valid(v: Seq<u8>) -> bool {
    forall|a: int, b: int| #![trigger v[a], v[b]] is_peer(a, b) && v[a] > 0 ==> v[a] != v[b]
}

/// No cell is empty.
pub open spec fn values_complete(v: Seq<u8>) -> bool {
    forall|i: int| 0 <= i < 81 ==> #[trigger] v[i] != 0
}

/// The number of `true` entries.
pub open spec fn count_true(s: Seq<bool>) -> nat
    decreases s.len(),
{
    if s.len() == 0 {
        0
    } else {
        count_true(s.drop_last()) + if s.last() {
            1nat
        } else {
            0nat
        }
    }
}

/// The character of a digit value.
pub open spec fn spec_digit_char(v: u8) -> char {
    (v + 48) as char
}

/// The text of a grid: one digit character per value.
pub open spec fn grid_text(v: Seq<u8>) -> Seq<char> {
    v.map_values(|d: u8| spec_digit_char(d))
}

pub(crate) fn digit_char(v: u8) -> (r: char)
    requires
        v <= 9,
    ensures
        r == spec_digit_char(v),
{
    if v == 0 {
        '0'
    } else if v == 1 {
        '1'
    } else if v == 2 {
        '2'
    } else if v == 3 {
        '3'
    } else if v == 4 {
        '4'
    } else if v == 5 {
        '5'
    } else if v == 6 {
        '6'
    } else if v == 7 {
        '7'
    } else if v == 8 {
        '8'
    } else {
        '9'
    }
}

/// The line between bands of the boxed layout: `+-------+-------+-------+`.
pub open spec fn border() -> Seq<char> {
    Seq::new(25, |i: int| if i % 8 == 0 { '+' } else { '-' })
}

/// What goes before cell `c` of a row in the boxed layout.
pub open spec fn cell_gap(c: int) -> Seq<char> {
    if c == 0 {
        seq!['|', ' ']
    } else if c % 3 == 0 {
        seq![' ', '|', ' ']
    } else {
        seq![' ']
    }
}

/// The first `n` cells of row `r` in the boxed layout.
pub open spec fn row_cells(v: Seq<u8>, r: int, n: int) -> Seq<char>
    decreases n,
{
    if n <= 0 {
        Seq::empty()
    } else {
        row_cells(v, r, n - 1) + cell_gap(n - 1) + seq![spec_digit_char(v[9 * r + n - 1])]
    }
}

/// The first `n` rows of the boxed layout, each after a border when it starts a band.
pub open spec fn pretty_rows(v: Seq<u8>, n: int) -> Seq<char>
    decreases n,
{
    if n <= 0 {
        Seq::empty()
    } else {
        pretty_rows(v, n - 1) + (if (n - 1) % 3 == 0 {
            border().push('\n')
        } else {
            Seq::empty()
        }) + row_cells(v, n - 1, 9) + seq![' ', '|', '\n']
    }
}

/// The grid drawn in boxes, one row per line, closed by a border.
pub open spec fn pretty_text(v: Seq<u8>) -> Seq<char> {
    pretty_rows(v, 9) + border()
}

/// Appends the border line.
fn push_border(text: &mut String)
    ensures
        final(text)@ == old(text)@ + border(),
{
    let mut i: usize = 0;
    while i < 25
        invariant
            i <= 25,
            text@ == old(text)@ + border().subrange(0, i as int),
        decreases 25 - i,
    {
        push_char(text, if i % 8 == 0 { '+' } else { '-' });
        proof {
            assert(border().subrange(0, i + 1) =~= border().subrange(0, i as int).push(
                border()[i as int],
            ));
        }
        i = i + 1;
    }
    proof {
        assert(border().subrange(0, 25) =~= border());
    }
}

/// Relies on `String::push`: the character is appended.
#[verifier::external_body]
pub(crate) fn push_char(s: &mut String, c: char)
    ensures
        final(s)@ == old(s)@.push(c),
{
    s.push(c);
}

/// The digit indices held by the first `k` cells that `pl` lists.
pub open spec fn prefix_digits(v: Seq<u8>, pl: Seq<int>, k: int) -> Set<int> {
    Set::new(|d: int| 0 <= d < 9 && exists|j: int| 0 <= j < k && v[pl[j]] as int == d + 1)
}

/// Whether `q` is among the first `k` entries of `s`.
pub open spec fn in_prefix(s: Seq<int>, k: int, q: int) -> bool {
    exists|j: int| 0 <= j < k && s[j] == q
}


/// Whether `c` is one of `0`..`9`.
pub open spec fn is_digit(c: char) -> bool {
    '0' <= c && c <= '9'
}

/// The value of a digit character.
pub open spec fn digit_value(c: char) -> u8 {
    (c as int - 48) as u8
}

/// The values given by the first `k` characters of `s`, 0 for the other cells.
pub open spec fn prefix_values(s: Seq<char>, k: int) -> Seq<u8> {
    Seq::new(81, |q: int| if q < k { digit_value(s[q]) } else { 0u8 })
}

/// The candidate sets once the first `k` characters of `s` are placed: none for a
/// filled cell, the digits that no peer holds for an empty one.
pub open spec fn prefix_sets(s: Seq<char>, k: int) -> Seq<Set<int>> {
    Seq::new(
        81,
        |q: int|
            if prefix_values(s, k)[q] > 0 {
                Set::<int>::empty()
            } else {
                free_digits(prefix_values(s, k), q)
            },
    )
}

/// Whether character `k` of `s` is placed without a failed propagation, once the
/// first `k` characters are.
pub open spec fn placement_ok(s: Seq<char>, k: int) -> bool {
    update_ok(prefix_values(s, k + 1), prefix_sets(s, k), k)
}

/// Whether character `k` of `s` is a digit that can be placed.
pub open spec fn step_ok(s: Seq<char>, k: int) -> bool {
    is_digit(s[k]) && placement_ok(s, k)
}

/// Whether every character of `s` is a digit that can be placed.
pub open spec fn parse_accepts(s: Seq<char>) -> bool {
    forall|k: int| 0 <= k < s.len() ==> #[trigger] step_ok(s, k)
}

/// Writing out the grid that a text parses to gives the text back, for every text of
/// 81 digits that parses.
pub proof fn lemma_text_round_trip(s: Seq<char>)
    requires
        s.len() == 81,
        parse_accepts(s),
    ensures
        grid_text(prefix_values(s, 81)) == s,
{
    assert forall|k: int| 0 <= k < 81 implies grid_text(prefix_values(s, 81))[k] == s[k] by {
        assert(step_ok(s, k));
    }
    assert(grid_text(prefix_values(s, 81)) =~= s);
}

/// Placing one more character of a text moves the values and candidate sets from one
/// prefix to the next.
pub proof fn lemma_parse_step(s: Seq<char>, k: int)
    requires
        0 <= k < 81,
        k < s.len(),
        is_digit(s[k]),
    ensures
        prefix_values(s, k + 1) == prefix_values(s, k).update(k, digit_value(s[k])),
        prefix_values(s, k)[k] == 0,
        updated_sets(prefix_values(s, k + 1), prefix_sets(s, k), k) == prefix_sets(s, k + 1),
{
    let u = prefix_values(s, k);
    let v = prefix_values(s, k + 1);
    assert(v =~= u.update(k, digit_value(s[k])));
    let val = v[k];
    if val > 0 {
        assert forall|q: int| 0 <= q < 81 && q != k && !is_peer(k, q) implies free_digits(v, q)
            == free_digits(u, q) by {
            assert(peer_digits(v, q) =~= peer_digits(u, q)) by {
                assert forall|d: int| peer_digits(v, q).contains(d) implies peer_digits(
                    u,
                    q,
                ).contains(d) by {
                    let p = choose|p: int| is_peer(q, p) && v[p] as int == d + 1;
                    assert(u[p] as int == d + 1);
                }
                assert forall|d: int| peer_digits(u, q).contains(d) implies peer_digits(
                    v,
                    q,
                ).contains(d) by {
                    let p = choose|p: int| is_peer(q, p) && u[p] as int == d + 1;
                    assert(v[p] as int == d + 1);
                }
            }
        }
        assert forall|q: int| 0 <= q < 81 && is_peer(k, q) && v[q] == 0 implies free_digits(v, q)
            == free_digits(u, q).remove(val - 1) by {
            assert(is_peer(q, k));
            assert(peer_digits(v, q) =~= peer_digits(u, q).insert(val - 1)) by {
                assert forall|d: int| peer_digits(v, q).contains(d) implies #[trigger] peer_digits(
                    u,
                    q,
                ).insert(val - 1).contains(d) by {
                    let p = choose|p: int| is_peer(q, p) && v[p] as int == d + 1;
                    if p != k {
                        assert(u[p] as int == d + 1);
                    }
                }
                assert forall|d: int| #[trigger]
                    peer_digits(u, q).insert(val - 1).contains(d) implies peer_digits(
                    v,
                    q,
                ).contains(d) by {
                    if d == val - 1 {
                        assert(v[k] as int == d + 1);
                    } else {
                        let p = choose|p: int| is_peer(q, p) && u[p] as int == d + 1;
                        assert(p != k);
                        assert(v[p] as int == d + 1);
                    }
                }
            }
            assert(free_digits(v, q) =~= free_digits(u, q).remove(val - 1));
        }
        assert(updated_sets(v, prefix_sets(s, k), k) =~= prefix_sets(s, k + 1));
    } else {
        assert(v =~= u);
        assert(updated_sets(v, prefix_sets(s, k), k) =~= prefix_sets(s, k + 1));
    }
}

/// Grids that are equal under `==` (equal values) agree on validity and on completeness.
pub proof fn lemma_equal_grids_agree(a: Grid, b: Grid)
    requires
        a@ == b@,
    ensures
        values_valid(a@) == values_valid(b@),
        values_complete(a@) == values_complete(b@),
{
}

/// Why a text is not a grid.
#[derive(PartialEq, Eq, Debug, Clone, Copy)]
pub enum ParseError {
    /// The character at this index is not a digit.
    InvalidDigit(char, usize),
    /// The digit at this index cannot be placed: it repeats a peer's value, or leaves a
    /// cell without candidates.
    InvalidSudoku(usize),
}

/// One cell of a grid: its value (0 when empty), the digits still possible for it,
/// and whether it is frozen.
#[derive(Clone, Copy, Debug)]
pub struct Cell {
    value: u8,
    candidates: Candidates,
    frozen: bool,
}

impl Cell {
    pub closed spec fn spec_value(self) -> u8 {
        self.value
    }

    pub closed spec fn spec_candidates(self) -> Set<int> {
        self.candidates@
    }

    pub closed spec fn spec_frozen(self) -> bool {
        self.frozen
    }

    /// A thawed cell holding `value`: with every candidate when empty, none otherwise.
    pub fn new(value: u8) -> (r: Cell)
        ensures
            r.spec_value() == value,
            r.spec_candidates() == (if value == 0 {
                all_digits()
            } else {
                Set::<int>::empty()
            }),
            !r.spec_frozen(),
    {
        Cell { value, candidates: Candidates::new(value == 0), frozen: false }
    }

    pub fn value(&self) -> (r: u8)
        ensures
            r == self.spec_value(),
    {
        self.value
    }

    pub fn candidates(&self) -> (r: &Candidates)
        ensures
            r@ == self.spec_candidates(),
    {
        &self.candidates
    }

    pub fn candidates_mut(&mut self) -> (r: &mut Candidates)
        ensures
            r@ == old(self).spec_candidates(),
            final(self).spec_candidates() == final(r)@,
            final(self).spec_value() == old(self).spec_value(),
            final(self).spec_frozen() == old(self).spec_frozen(),
    {
        &mut self.candidates
    }

    pub fn freeze(&mut self)
        ensures
            final(self).spec_frozen(),
            final(self).spec_value() == old(self).spec_value(),
            final(self).spec_candidates() == old(self).spec_candidates(),
    {
        self.frozen = true;
    }

    pub fn thaw(&mut self)
        ensures
            !final(self).spec_frozen(),
            final(self).spec_value() == old(self).spec_value(),
            final(self).spec_candidates() == old(self).spec_candidates(),
    {
        self.frozen = false;
    }

    pub fn frozen(&self) -> (r: bool)
        ensures
            r == self.spec_frozen(),
    {
        self.frozen
    }
}

/// A 9×9 grid of cells in row-major order.
#[derive(Clone, Copy, Debug)]
pub struct Grid {
    cells: [Cell; 81],
}

impl View for Grid {
    type V = Seq<u8>;

    /// The 81 values, 0 for an empty cell.
    closed spec fn view(&self) -> Seq<u8> {
        self.cells@.map_values(|c: Cell| c.value)
    }
}

impl Grid {
    /// Every value is a digit or 0.
    pub closed spec fn wf(&self) -> bool {
        forall|i: int| 0 <= i < 81 ==> #[trigger] self.cells@[i].value <= 9
    }

    /// The candidate set of every cell.
    pub closed spec fn candidate_sets(&self) -> Seq<Set<int>> {
        self.cells@.map_values(|c: Cell| c.candidates@)
    }

    /// Which cells are frozen.
    pub closed spec fn frozen_flags(&self) -> Seq<bool> {
        self.cells@.map_values(|c: Cell| c.frozen)
    }

    /// A well-formed grid has 81 values, each a digit or 0.
    pub proof fn lemma_wf(self)
        requires
            self.wf(),
        ensures
            self@.len() == 81,
            self.frozen_flags().len() == 81,
            self.candidate_sets().len() == 81,
            forall|i: int| 0 <= i < 81 ==> #[trigger] self@[i] <= 9,
    {
        assert forall|i: int| 0 <= i < 81 implies #[trigger] self@[i] <= 9 by {
            assert(self.cells@[i].value <= 9);
        }
    }

    /// The empty grid: every value 0, every candidate possible, nothing frozen.
    pub fn new() -> (r: Grid)
        ensures
            r@ == Seq::new(81, |i: int| 0u8),
            r.candidate_sets() == Seq::new(81, |i: int| all_digits()),
            r.frozen_flags() == Seq::new(81, |i: int| false),
            r.wf(),
    {
        let r = Grid { cells: [Cell::new(0); 81] };
        proof {
            assert(r@ =~= Seq::new(81, |i: int| 0u8));
            assert(r.candidate_sets() =~= Seq::new(81, |i: int| all_digits()));
            assert(r.frozen_flags() =~= Seq::new(81, |i: int| false));
        }
        r
    }

    /// The value of cell `index`.
    pub fn get(&self, index: usize) -> (r: u8)
        requires
            self.wf(),
            index < 81,
        ensures
            r == self@[index as int],
            r <= 9,
    {
        self.cells[index].value
    }

    /// Sets cell `index` to `value` unless it is frozen (then nothing changes and the
    /// result is false). Unchecked, the cell's candidates become all digits (empty cell)
    /// or none, and the result is true. Checked, the result is that of
    /// `update_candidates` on the cell; on failure the value stays and candidates do not change.
    pub fn set(&mut self, index: usize, value: u8, checked: bool) -> (r: bool)
        requires
            old(self).wf(),
            index < 81,
            value <= 9,
        ensures
            final(self).wf(),
            old(self).frozen_flags()[index as int] ==> !r && *final(self) == *old(self),
            !old(self).frozen_flags()[index as int] ==> {
                &&& final(self)@ == old(self)@.update(index as int, value)
                &&& final(self).frozen_flags() == old(self).frozen_flags()
                &&& checked ==> r == update_ok(
                    final(self)@,
                    old(self).candidate_sets(),
                    index as int,
                )
                &&& checked && r ==> final(self).candidate_sets() == updated_sets(
                    final(self)@,
                    old(self).candidate_sets(),
                    index as int,
                )
                &&& checked && !r ==> final(self).candidate_sets() == old(self).candidate_sets()
                &&& !checked ==> r && final(self).candidate_sets() == old(
                    self,
                ).candidate_sets().update(
                    index as int,
                    if value > 0 {
                        Set::<int>::empty()
                    } else {
                        all_digits()
                    },
                )
            },
    {
        if !self.cells[index].frozen {
            let mut cell = self.cells[index];
            cell.value = value;
            if checked {
                self.cells[index] = cell;
                proof {
                    assert(self@ =~= old(self)@.update(index as int, value));
                    assert(self.candidate_sets() =~= old(self).candidate_sets());
                    assert(self.frozen_flags() =~= old(self).frozen_flags());
                }
                let r = self.update_candidates(index);
                proof {
                    assert(self.frozen_flags() =~= old(self).frozen_flags());
                }
                return r;
            }
            if value > 0 {
                cell.candidates.unset_all();
            } else {
                cell.candidates.set_all();
            }
            self.cells[index] = cell;
            proof {
                assert(self@ =~= old(self)@.update(index as int, value));
                assert(self.frozen_flags() =~= old(self).frozen_flags());
                assert(self.candidate_sets() =~= old(self).candidate_sets().update(
                    index as int,
                    if value > 0 {
                        Set::<int>::empty()
                    } else {
                        all_digits()
                    },
                ));
            }
            return true;
        }
        false
    }

    /// Propagates the value of cell `index` to candidate sets. A nonzero value is cleared
    /// from the candidates of every empty peer; this fails if such a peer is left with none
    /// or a filled peer holds the same value. For an empty cell, its candidates become the
    /// digits that no peer holds, possibly none; this always succeeds. Frozen flags never
    /// change; on failure nothing changes.
    pub fn update_candidates(&mut self, index: usize) -> (r: bool)
        requires
            old(self).wf(),
            index < 81,
        ensures
            final(self).wf(),
            final(self)@ == old(self)@,
            r == update_ok(old(self)@, old(self).candidate_sets(), index as int),
            r ==> final(self).candidate_sets() == updated_sets(
                old(self)@,
                old(self).candidate_sets(),
                index as int,
            ),
            r ==> final(self).frozen_flags() == old(self).frozen_flags(),
            !r ==> *final(self) == *old(self),
    {
        let mut cells = self.cells;
        let value = cells[index].value;
        let ps = peers(index);
        let ghost pl = peer_list(index as int);
        let ghost v = self@;
        let ghost c = self.candidate_sets();
        proof {
            lemma_peer_list(index as int);
            assert forall|j: int| 0 <= j < 20 implies ps@[j] as int == pl[j] by {
                assert(ps@.map_values(|p: usize| p as int)[j] == pl[j]);
            }
        }
        if value > 0 {
            let mut cell = Cell::new(value);
            cell.frozen = cells[index].frozen;
            let d = (value - 1) as usize;
            let mut k: usize = 0;
            while k < 20
                invariant
                    index < 81,
                    self.wf(),
                    0 < value <= 9,
                    d == value - 1,
                    value == v[index as int],
                    k <= 20,
                    v == self@,
                    c == self.candidate_sets(),
                    pl == peer_list(index as int),
                    pl.no_duplicates(),
                    forall|b: int| pl.contains(b) <==> is_peer(index as int, b),
                    forall|j: int| 0 <= j < 20 ==> #[trigger] ps@[j] as int == pl[j],
                    forall|q: int|
                        0 <= q < 81 ==> (#[trigger] cells@[q]).value == self.cells@[q].value
                            && cells@[q].frozen == self.cells@[q].frozen,
                    forall|q: int|
                        0 <= q < 81 ==> (#[trigger] cells@[q]).candidates@ == (if in_prefix(
                            pl,
                            k as int,
                            q,
                        ) && v[q] == 0 {
                            c[q].remove(d as int)
                        } else {
                            c[q]
                        }),
                    forall|j: int| 0 <= j < k ==> peer_accepts(v, c, index as int, #[trigger] pl[j]),
                decreases 20 - k,
            {
                let p = ps[k];
                let mut peer = cells[p];
                proof {
                    assert(pl.contains(p as int));
                    assert(!in_prefix(pl, k as int, p as int));
                }
                if peer.value == 0 {
                    peer.candidates.unset(d);
                    if peer.candidates.none() {
                        proof {
                            assert(!peer_accepts(v, c, index as int, p as int));
                        }
                        return false;
                    }
                    cells[p] = peer;
                } else if peer.value == value {
                    proof {
                        assert(!peer_accepts(v, c, index as int, p as int));
                    }
                    return false;
                }
                proof {
                    assert(peer_accepts(v, c, index as int, pl[k as int]));
                    assert forall|q: int| 0 <= q < 81 implies in_prefix(pl, k + 1, q) == (in_prefix(
                        pl,
                        k as int,
                        q,
                    ) || q == p) by {
                        if in_prefix(pl, k + 1, q) && q != p {
                            let j = choose|j: int| 0 <= j < k + 1 && pl[j] == q;
                            assert(j < k);
                        }
                        if q == p {
                            assert(pl[k as int] == q);
                        }
                    }
                }
                k = k + 1;
            }
            cells[index] = cell;
            proof {
                assert forall|q: int| 0 <= q < 81 implies in_prefix(pl, 20, q) == is_peer(
                    index as int,
                    q,
                ) by {
                    assert(in_prefix(pl, 20, q) == pl.contains(q));
                }
                assert forall|p: int| is_peer(index as int, p) implies #[trigger] peer_accepts(
                    v,
                    c,
                    index as int,
                    p,
                ) by {
                    assert(pl.contains(p));
                    let j = choose|j: int| 0 <= j < pl.len() && pl[j] == p;
                    assert(peer_accepts(v, c, index as int, pl[j]));
                }
            }
        } else {
            let mut cell = Cell::new(0);
            cell.frozen = cells[index].frozen;
            let mut k: usize = 0;
            proof {
                assert(prefix_digits(v, pl, 0) =~= Set::empty());
                assert(cell.candidates@ =~= all_digits().difference(prefix_digits(v, pl, 0)));
            }
            while k < 20
                invariant
                    index < 81,
                    self.wf(),
                    value == 0,
                    value == v[index as int],
                    k <= 20,
                    v == self@,
                    c == self.candidate_sets(),
                    cells == self.cells,
                    pl == peer_list(index as int),
                    forall|b: int| pl.contains(b) <==> is_peer(index as int, b),
                    forall|j: int| 0 <= j < 20 ==> #[trigger] ps@[j] as int == pl[j],
                    cell.value == 0,
                    cell.frozen == self.cells@[index as int].frozen,
                    cell.candidates@ == all_digits().difference(prefix_digits(v, pl, k as int)),
                decreases 20 - k,
            {
                let p = ps[k];
                let pv = cells[p].value;
                proof {
                                        assert(pv == v[pl[k as int]]);
                }
                let ghost before = cell.candidates@;
                if pv > 0 {
                    cell.candidates.unset((pv - 1) as usize);
                }
                proof {
                    assert(cell.candidates@ =~= all_digits().difference(
                        prefix_digits(v, pl, k + 1),
                    )) by {
                        assert forall|d: int|
                            #[trigger] prefix_digits(v, pl, k + 1).contains(d) == (prefix_digits(
                                v,
                                pl,
                                k as int,
                            ).contains(d) || (pv > 0 && d == pv - 1)) by {
                            if pv > 0 && d == pv - 1 {
                                assert(v[pl[k as int]] as int == d + 1);
                            }
                            if exists|j: int| 0 <= j < k + 1 && v[pl[j]] as int == d + 1 {
                                let j = choose|j: int| 0 <= j < k + 1 && v[pl[j]] as int == d + 1;
                                if j < k {
                                } else {
                                    assert(j == k);
                                }
                            }
                        }
                    }
                }
                k = k + 1;
            }
            proof {
                assert(cell.candidates@ =~= free_digits(v, index as int)) by {
                    assert forall|d: int|
                        #[trigger] prefix_digits(v, pl, 20).contains(d) == peer_digits(
                            v,
                            index as int,
                        ).contains(d) by {
                        if exists|j: int| 0 <= j < 20 && v[pl[j]] as int == d + 1 {
                            let j = choose|j: int| 0 <= j < 20 && v[pl[j]] as int == d + 1;
                            assert(pl.contains(pl[j]));
                        }
                        if peer_digits(v, index as int).contains(d) {
                            let p = choose|p: int| is_peer(index as int, p) && v[p] as int == d + 1;
                            assert(pl.contains(p));
                            let j = choose|j: int| 0 <= j < pl.len() && pl[j] == p;
                            assert(v[pl[j]] as int == d + 1);
                        }
                    }
                }
            }
            cells[index] = cell;
        }
        proof {
                        assert forall|q: int| 0 <= q < 81 implies #[trigger] cells@[q].value <= 9 by {
                assert(self.cells@[q].value <= 9);
            }
        }
        self.cells = cells;
        proof {
            assert(self@ =~= old(self)@);
            assert(self.frozen_flags() =~= old(self).frozen_flags());
            assert(self.candidate_sets() =~= updated_sets(v, c, index as int));
        }
        true
    }

    /// Puts `value` in cell `index`, frozen or not, and clears the cell's candidates.
    pub(crate) fn place(&mut self, index: usize, value: u8)
        requires
            old(self).wf(),
            index < 81,
            1 <= value <= 9,
        ensures
            final(self).wf(),
            final(self)@ == old(self)@.update(index as int, value),
            final(self).frozen_flags() == old(self).frozen_flags(),
    {
        let mut cell = self.cells[index];
        cell.value = value;
        cell.candidates.unset_all();
        self.cells[index] = cell;
        proof {
            assert(self@ =~= old(self)@.update(index as int, value));
            assert(self.frozen_flags() =~= old(self).frozen_flags());
        }
    }

    /// The 81 values in row-major order.
    pub fn cells(&self) -> (r: [u8; 81])
        ensures
            r@ == self@,
    {
        let mut values: [u8; 81] = [0u8; 81];
        let mut i: usize = 0;
        while i < 81
            invariant
                i <= 81,
                forall|j: int| 0 <= j < i ==> values@[j] == self@[j],
            decreases 81 - i,
        {
            values[i] = self.cells[i].value;
            i = i + 1;
        }
        proof {
            assert(values@ =~= self@);
        }
        values
    }

    /// Cell `index`.
    pub fn cell(&self, index: usize) -> (r: &Cell)
        requires
            index < 81,
        ensures
            r.spec_value() == self@[index as int],
            r.spec_candidates() == self.candidate_sets()[index as int],
            r.spec_frozen() == self.frozen_flags()[index as int],
    {
        &self.cells[index]
    }

    /// The candidates of cell `index`.
    pub fn candidates(&self, index: usize) -> (r: &Candidates)
        requires
            index < 81,
        ensures
            r@ == self.candidate_sets()[index as int],
    {
        &self.cells[index].candidates
    }

    /// The candidates of cell `index`, to change at will (notes kept by a player).
    pub fn candidates_mut(&mut self, index: usize) -> (r: &mut Candidates)
        requires
            old(self).wf(),
            index < 81,
        ensures
            final(self).wf(),
            r@ == old(self).candidate_sets()[index as int],
            final(self)@ == old(self)@,
            final(self).frozen_flags() == old(self).frozen_flags(),
            final(self).candidate_sets() == old(self).candidate_sets().update(
                index as int,
                final(r)@,
            ),
    {
        &mut self.cells[index].candidates
    }

    /// Freezes cell `index`, so that `set` leaves it alone.
    pub fn freeze(&mut self, index: usize)
        requires
            old(self).wf(),
            index < 81,
        ensures
            final(self).wf(),
            final(self)@ == old(self)@,
            final(self).candidate_sets() == old(self).candidate_sets(),
            final(self).frozen_flags() == old(self).frozen_flags().update(index as int, true),
    {
        let mut cell = self.cells[index];
        cell.frozen = true;
        self.cells[index] = cell;
        proof {
            assert(self@ =~= old(self)@);
            assert(self.candidate_sets() =~= old(self).candidate_sets());
            assert(self.frozen_flags() =~= old(self).frozen_flags().update(index as int, true));
        }
    }

    /// Whether cell `index` is frozen.
    pub fn frozen(&self, index: usize) -> (r: bool)
        requires
            index < 81,
        ensures
            r == self.frozen_flags()[index as int],
    {
        self.cells[index].frozen
    }

    /// The number of frozen cells.
    pub fn givens(&self) -> (r: usize)
        ensures
            r == count_true(self.frozen_flags()),
    {
        let ghost flags = self.frozen_flags();
        let mut count: usize = 0;
        let mut i: usize = 0;
        while i < 81
            invariant
                i <= 81,
                flags == self.frozen_flags(),
                flags.len() == 81,
                count <= i,
                count == count_true(flags.subrange(0, i as int)),
            decreases 81 - i,
        {
            proof {
                assert(flags.subrange(0, i + 1).drop_last() =~= flags.subrange(0, i as int));
            }
            if self.cells[i].frozen {
                count = count + 1;
            }
            i = i + 1;
        }
        proof {
            assert(flags.subrange(0, 81) =~= flags);
        }
        count
    }

    /// Whether no cell is empty.
    pub fn is_complete(&self) -> (r: bool)
        ensures
            r == values_complete(self@),
    {
        let mut i: usize = 0;
        while i < 81
            invariant
                i <= 81,
                forall|j: int| 0 <= j < i ==> self@[j] != 0,
            decreases 81 - i,
        {
            if self.cells[i].value == 0 {
                proof {
                    assert(self@[i as int] == 0);
                }
                return false;
            }
            i = i + 1;
        }
        true
    }

    /// Whether no two peers hold the same nonzero value.
    pub fn is_valid(&self) -> (r: bool)
        ensures
            r == values_valid(self@),
    {
        let ghost v = self@;
        let mut i: usize = 0;
        while i < 81
            invariant
                i <= 81,
                v == self@,
                forall|a: int, b: int|
                    #![trigger v[a], v[b]]
                    0 <= a < i && is_peer(a, b) && v[a] > 0 ==> v[a] != v[b],
            decreases 81 - i,
        {
            let value = self.cells[i].value;
            if value > 0 {
                let ps = peers(i);
                proof {
                    lemma_peer_list(i as int);
                }
                let mut k: usize = 0;
                while k < 20
                    invariant
                        i < 81,
                        k <= 20,
                        v == self@,
                        value == v[i as int],
                        value > 0,
                        ps@.map_values(|p: usize| p as int) == peer_list(i as int),
                        forall|b: int| peer_list(i as int).contains(b) <==> is_peer(i as int, b),
                        forall|j: int| 0 <= j < k ==> v[#[trigger] ps@[j] as int] != value,
                    decreases 20 - k,
                {
                    let p = ps[k];
                    proof {
                        assert(ps@.map_values(|p: usize| p as int)[k as int] == p as int);
                        assert(peer_list(i as int).contains(p as int));
                    }
                    if self.cells[p].value == value {
                        proof {
                            assert(v[p as int] == v[i as int]);
                        }
                        return false;
                    }
                    k = k + 1;
                }
                proof {
                    assert forall|b: int| is_peer(i as int, b) implies v[i as int] != v[b] by {
                        assert(peer_list(i as int).contains(b));
                        let j = choose|j: int|
                            0 <= j < peer_list(i as int).len() && peer_list(i as int)[j] == b;
                        assert(ps@.map_values(|p: usize| p as int)[j] == b);
                        assert(v[ps@[j] as int] != value);
                    }
                }
            }
            i = i + 1;
        }
        true
    }

    /// The grid as 81 digit characters, row-major, `0` for an empty cell.
    pub fn to_string(&self) -> (r: String)
        requires
            self.wf(),
        ensures
            r@ == grid_text(self@),
    {
        let mut text = String::new();
        let mut i: usize = 0;
        while i < 81
            invariant
                i <= 81,
                self.wf(),
                forall|j: int| 0 <= j < 81 ==> #[trigger] self@[j] <= 9,
                text@ == grid_text(self@).subrange(0, i as int),
            decreases 81 - i,
        {
            proof {
                assert(self.cells@[i as int].value <= 9);
            }
            push_char(&mut text, digit_char(self.cells[i].value));
            proof {
                assert(grid_text(self@).subrange(0, i + 1) =~= grid_text(self@).subrange(
                    0,
                    i as int,
                ).push(spec_digit_char(self@[i as int])));
            }
            i = i + 1;
        }
        proof {
            assert(grid_text(self@).subrange(0, 81) =~= grid_text(self@));
        }
        text
    }

    /// The grid drawn in boxes: a border line before each band of three rows and at the
    /// end, `|` around each box, cells apart by a space.
    pub fn pretty(&self) -> (r: String)
        requires
            self.wf(),
        ensures
            r@ == pretty_text(self@),
    {
        let mut text = String::new();
        let mut row: usize = 0;
        while row < 9
            invariant
                row <= 9,
                self.wf(),
                text@ == pretty_rows(self@, row as int),
            decreases 9 - row,
        {
            let ghost start = text@;
            if row % 3 == 0 {
                push_border(&mut text);
                push_char(&mut text, '\n');
            }
            let ghost head = text@;
            proof {
                assert(head == start + (if row % 3 == 0 {
                    border().push('\n')
                } else {
                    Seq::empty()
                }));
            }
            let mut column: usize = 0;
            while column < 9
                invariant
                    row < 9,
                    column <= 9,
                    self.wf(),
                    text@ == head + row_cells(self@, row as int, column as int),
                decreases 9 - column,
            {
                let ghost before = text@;
                if column == 0 {
                    push_char(&mut text, '|');
                    push_char(&mut text, ' ');
                } else if column % 3 == 0 {
                    push_char(&mut text, ' ');
                    push_char(&mut text, '|');
                    push_char(&mut text, ' ');
                } else {
                    push_char(&mut text, ' ');
                }
                proof {
                    assert(text@ =~= before + cell_gap(column as int));
                    assert(self.cells@[(row * 9 + column) as int].value <= 9);
                }
                push_char(&mut text, digit_char(self.cells[row * 9 + column].value));
                proof {
                    assert(text@ =~= head + row_cells(self@, row as int, column + 1));
                }
                column = column + 1;
            }
            push_char(&mut text, ' ');
            push_char(&mut text, '|');
            push_char(&mut text, '\n');
            proof {
                assert(text@ =~= pretty_rows(self@, row + 1));
            }
            row = row + 1;
        }
        push_border(&mut text);
        text
    }

    /// The row-major indices of row `index`.
    pub fn get_row(&self, index: usize) -> (r: [usize; 9])
        requires
            index < 9,
        ensures
            forall|k: int| 0 <= k < 9 ==> #[trigger] r@[k] == 9 * index + k,
    {
        row_indices(index)
    }

    /// The row-major indices of column `index`.
    pub fn get_column(&self, index: usize) -> (r: [usize; 9])
        requires
            index < 9,
        ensures
            forall|k: int| 0 <= k < 9 ==> #[trigger] r@[k] == 9 * k + index,
    {
        column_indices(index)
    }

    /// The row-major indices of box `index`, row by row.
    pub fn get_box(&self, index: usize) -> (r: [usize; 9])
        requires
            index < 9,
        ensures
            forall|k: int|
                0 <= k < 9 ==> #[trigger] r@[k] == 9 * (index / 3 * 3 + k / 3) + (index % 3 * 3 + k
                    % 3),
    {
        box_indices(index)
    }

    /// The 20 peers of cell `index`.
    pub fn get_peers(&self, index: usize) -> (r: [usize; 20])
        requires
            index < 81,
        ensures
            r@.map_values(|p: usize| p as int) == peer_list(index as int),
    {
        peers(index)
    }

    /// Reads a grid from up to 81 digit characters, row-major, `0` for an empty cell;
    /// the cells beyond the text stay empty. Each digit is placed with a checked `set`,
    /// and each nonzero one is frozen. The first character that is no digit, or whose
    /// placement fails, gives the error.
    pub fn parse(s: &str) -> (r: Result<Grid, ParseError>)
        requires
            s@.len() <= 81,
        ensures
            match r {
                Ok(g) => {
                    &&& parse_accepts(s@)
                    &&& g.wf()
                    &&& g@ == prefix_values(s@, s@.len() as int)
                    &&& g.candidate_sets() == prefix_sets(s@, s@.len() as int)
                    &&& g.frozen_flags() == Seq::new(81, |q: int| g@[q] != 0)
                },
                Err(ParseError::InvalidDigit(c, k)) => {
                    &&& k < s@.len()
                    &&& forall|j: int| 0 <= j < k ==> #[trigger] step_ok(s@, j)
                    &&& !is_digit(s@[k as int])
                    &&& c == s@[k as int]
                },
                Err(ParseError::InvalidSudoku(k)) => {
                    &&& k < s@.len()
                    &&& forall|j: int| 0 <= j < k ==> #[trigger] step_ok(s@, j)
                    &&& is_digit(s@[k as int])
                    &&& !placement_ok(s@, k as int)
                },
            },
    {
        let mut grid = Grid::new();
        let n = s.unicode_len();
        proof {
            assert(grid@ =~= prefix_values(s@, 0));
            assert forall|q: int| 0 <= q < 81 implies free_digits(prefix_values(s@, 0), q)
                =~= all_digits() by {
                assert(peer_digits(prefix_values(s@, 0), q) =~= Set::empty());
            }
            assert(grid.candidate_sets() =~= prefix_sets(s@, 0));
        }
        let mut index: usize = 0;
        while index < n
            invariant
                n == s@.len(),
                n <= 81,
                index <= n,
                grid.wf(),
                grid@ == prefix_values(s@, index as int),
                grid.candidate_sets() == prefix_sets(s@, index as int),
                forall|q: int| 0 <= q < 81 ==> #[trigger] grid.frozen_flags()[q] == (grid@[q] != 0),
                forall|j: int| 0 <= j < index ==> #[trigger] step_ok(s@, j),
            decreases n - index,
        {
            let c = s.get_char(index);
            if !('0' <= c && c <= '9') {
                return Err(ParseError::InvalidDigit(c, index));
            }
            let value = (c as u32 - 48) as u8;
            proof {
                lemma_parse_step(s@, index as int);
            }
            if !grid.set(index, value, true) {
                return Err(ParseError::InvalidSudoku(index));
            }
            if value != 0 {
                grid.freeze(index);
            }
            proof {
                assert(step_ok(s@, index as int));
            }
            index = index + 1;
        }
        proof {
            assert(grid.frozen_flags() =~= Seq::new(81, |q: int| grid@[q] != 0));
        }
        Ok(grid)
    }
}

} // verus!

verus! {

impl PartialEq for Grid {
    fn eq(&self, other: &Grid) -> (r: bool) {
        let mut i: usize = 0;
        while i < 81
            invariant
                i <= 81,
                forall|j: int| 0 <= j < i ==> self@[j] == other@[j],
            decreases 81 - i,
        {
            if self.cells[i].value != other.cells[i].value {
                proof {
                    assert(self@[i as int] != other@[i as int]);
                }
                return false;
            }
            i = i + 1;
        }
        proof {
            assert(self@ =~= other@);
        }
        true
    }
}

impl vstd::std_specs::cmp::PartialEqSpecImpl for Grid {
    open spec fn obeys_eq_spec() -> bool {
        true
    }

    /// Two grids are equal when their values are; candidates and frozen flags do not count.
    open spec fn eq_spec(&self, other: &Grid) -> bool {
        self@ == other@
    }
}

impl Default for Grid {
    fn default() -> (r: Grid)
        ensures
            r@ == Seq::new(81, |i: int| 0u8),
            r.wf(),
    {
        Grid::new()
    }
}

} // verus!

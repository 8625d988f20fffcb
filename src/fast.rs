//! A grid whose `set` returns a new grid, and a depth-first search over it.

use vstd::prelude::*;

use crate::candidates::{all_digits, Candidates};
use crate::grid::{
    free_digits, in_prefix, lemma_parse_step, peer_digits, prefix_digits, prefix_sets,
    prefix_values, updated_sets, values_complete, values_valid, is_digit, digit_value, grid_text,
    spec_digit_char, digit_char, push_char,
};
use crate::solver::is_solution;
use crate::topology::{is_peer, lemma_peer_list, peer_list, peers};

verus! {

/// One cell of a `FastGrid`.
#[derive(Clone, Copy)]
pub struct FastCell {
    pub value: u8,
    pub candidates: Candidates,
    pub frozen: bool,
}

/// A grid whose `set` makes a new grid, for backtracking by copying.
pub struct FastGrid {
    pub cells: [FastCell; 81],
}

impl View for FastGrid {
    type V = Seq<u8>;

    open spec fn view(&self) -> Seq<u8> {
        self.cells@.map_values(|c: FastCell| c.value)
    }
}

/// Whether a `FastGrid::set` of `value` in cell `i` succeeds on values `v` and candidate
/// sets `c`: with a digit, every empty peer keeps a candidate once it is cleared; with 0,
/// some digit is held by no peer.
pub open spec fn fast_set_ok(v: Seq<u8>, c: Seq<Set<int>>, i: int, value: u8) -> bool {
    if value > 0 {
        forall|p: int| is_peer(i, p) && v[p] == 0 ==> !#[trigger] c[p].remove(value - 1).is_empty()
    } else {
        !free_digits(v, i).is_empty()
    }
}

impl FastGrid {
    /// Every value is a digit or 0.
    pub open spec fn wf(&self) -> bool {
        forall|i: int| 0 <= i < 81 ==> #[trigger] self.cells@[i].value <= 9
    }

    /// The candidate set of every cell.
    pub open spec fn candidate_sets(&self) -> Seq<Set<int>> {
        self.cells@.map_values(|c: FastCell| c.candidates@)
    }

    /// Which cells are frozen.
    pub open spec fn frozen_flags(&self) -> Seq<bool> {
        self.cells@.map_values(|c: FastCell| c.frozen)
    }

    /// Valid, with each empty cell's candidates among the digits that its peers do not
    /// hold, and no frozen cell empty.
    pub open spec fn sound(&self) -> bool {
        &&& self.wf()
        &&& values_valid(self@)
        &&& forall|q: int|
            0 <= q < 81 && self@[q] == 0 ==> #[trigger] self.candidate_sets()[q].subset_of(
                free_digits(self@, q),
            )
        &&& forall|q: int| 0 <= q < 81 && #[trigger] self.frozen_flags()[q] ==> self@[q] != 0
    }

    /// Each empty cell's candidates are exactly the digits that its peers do not hold.
    pub open spec fn exact(&self) -> bool {
        forall|q: int|
            0 <= q < 81 && self@[q] == 0 ==> #[trigger] self.candidate_sets()[q] == free_digits(
                self@,
                q,
            )
    }

    /// The empty grid: every value 0, every candidate possible, nothing frozen.
    pub fn new() -> (r: FastGrid)
        ensures
            r.wf(),
            r@ == Seq::new(81, |i: int| 0u8),
            r.candidate_sets() == Seq::new(81, |i: int| all_digits()),
            r.frozen_flags() == Seq::new(81, |i: int| false),
            r.exact(),
    {
        let r = FastGrid {
            cells: [FastCell { value: 0, candidates: Candidates::new(true), frozen: false }; 81],
        };
        proof {
            assert(r@ =~= Seq::new(81, |i: int| 0u8));
            assert(r.candidate_sets() =~= Seq::new(81, |i: int| all_digits()));
            assert(r.frozen_flags() =~= Seq::new(81, |i: int| false));
            assert forall|q: int| 0 <= q < 81 implies #[trigger] r.candidate_sets()[q] == free_digits(
                r@,
                q,
            ) by {
                assert(peer_digits(r@, q) =~= Set::empty());
                assert(free_digits(r@, q) =~= all_digits());
            }
        }
        r
    }

    /// A copy of the grid with `value` in cell `index`, unless that cell is frozen. A digit
    /// is cleared from the candidates of each empty peer, and the cell keeps none; with 0,
    /// the cell's candidates become the digits that no peer holds. None when the cell is
    /// frozen or when this leaves an empty peer, or the emptied cell, without candidates.
    pub fn set(&self, index: usize, value: u8) -> (r: Option<FastGrid>)
        requires
            self.wf(),
            index < 81,
            value <= 9,
        ensures
            r is Some == (!self.frozen_flags()[index as int] && fast_set_ok(
                self@,
                self.candidate_sets(),
                index as int,
                value,
            )),
            r matches Some(g) ==> {
                &&& g.wf()
                &&& g@ == self@.update(index as int, value)
                &&& g.frozen_flags() == self.frozen_flags().update(index as int, false)
                &&& g.candidate_sets() == updated_sets(
                    self@.update(index as int, value),
                    self.candidate_sets(),
                    index as int,
                )
            },
    {
        let mut cells = self.cells;
        if cells[index].frozen {
            return None;
        }
        let ps = peers(index);
        let ghost pl = peer_list(index as int);
        let ghost v = self@;
        let ghost c = self.candidate_sets();
        proof {
            lemma_peer_list(index as int);
            assert forall|j: int| 0 <= j < 20 implies ps@[j] as int == pl[j] by {
                assert(ps@.map_values(|p: usize| p as int)[j] == pl[j]);
            }
        }
        if value > 0 {
            let cell = FastCell { value, candidates: Candidates::new(false), frozen: false };
            let d = (value - 1) as usize;
            let mut k: usize = 0;
            while k < 20
                invariant
                    index < 81,
                    self.wf(),
                    0 < value <= 9,
                    d == value - 1,
                    k <= 20,
                    v == self@,
                    c == self.candidate_sets(),
                    pl == peer_list(index as int),
                    pl.no_duplicates(),
                    forall|b: int| pl.contains(b) <==> is_peer(index as int, b),
                    forall|j: int| 0 <= j < 20 ==> #[trigger] ps@[j] as int == pl[j],
                    forall|q: int|
                        0 <= q < 81 ==> (#[trigger] cells@[q]).value == self.cells@[q].value
                            && cells@[q].frozen == self.cells@[q].frozen,
                    forall|q: int|
                        0 <= q < 81 ==> (#[trigger] cells@[q]).candidates@ == (if in_prefix(
                            pl,
                            k as int,
                            q,
                        ) && v[q] == 0 {
                            c[q].remove(d as int)
                        } else {
                            c[q]
                        }),
                    forall|j: int|
                        0 <= j < k && v[pl[j]] == 0 ==> !(#[trigger] c[pl[j]]).remove(
                            d as int,
                        ).is_empty(),
                decreases 20 - k,
            {
                let p = ps[k];
                let mut peer = cells[p];
                proof {
                    assert(pl.contains(p as int));
                    assert(!in_prefix(pl, k as int, p as int));
                }
                if peer.value == 0 {
                    peer.candidates.unset(d);
                    if peer.candidates.none() {
                        return None;
                    }
                    cells[p] = peer;
                }
                proof {
                    assert forall|q: int| 0 <= q < 81 implies in_prefix(pl, k + 1, q) == (in_prefix(
                        pl,
                        k as int,
                        q,
                    ) || q == p) by {
                        if in_prefix(pl, k + 1, q) && q != p {
                            let j = choose|j: int| 0 <= j < k + 1 && pl[j] == q;
                            assert(j < k);
                        }
                        if q == p {
                            assert(pl[k as int] == q);
                        }
                    }
                }
                k = k + 1;
            }
            cells[index] = cell;
            proof {
                assert forall|q: int| 0 <= q < 81 implies in_prefix(pl, 20, q) == is_peer(
                    index as int,
                    q,
                ) by {
                    assert(in_prefix(pl, 20, q) == pl.contains(q));
                }
                assert forall|p: int| is_peer(index as int, p) && v[p] == 0 implies !#[trigger] c[p].remove(
                    value - 1,
                ).is_empty() by {
                    assert(pl.contains(p));
                    let j = choose|j: int| 0 <= j < pl.len() && pl[j] == p;
                }
            }
        } else {
            let mut cell = FastCell { value: 0, candidates: Candidates::new(true), frozen: false };
            let mut k: usize = 0;
            proof {
                assert(prefix_digits(v, pl, 0) =~= Set::empty());
                assert(cell.candidates@ =~= all_digits().difference(prefix_digits(v, pl, 0)));
                assert(cell.candidates@.contains(0));
            }
            while k < 20
                invariant
                    index < 81,
                    self.wf(),
                    value == 0,
                    !self.frozen_flags()[index as int],
                    k <= 20,
                    v == self@,
                    cells == self.cells,
                    pl == peer_list(index as int),
                    forall|b: int| pl.contains(b) <==> is_peer(index as int, b),
                    forall|j: int| 0 <= j < 20 ==> #[trigger] ps@[j] as int == pl[j],
                    cell.value == 0,
                    !cell.frozen,
                    cell.candidates@ == all_digits().difference(prefix_digits(v, pl, k as int)),
                    !cell.candidates@.is_empty(),
                decreases 20 - k,
            {
                let p = ps[k];
                let pv = cells[p].value;
                proof {
                    assert(self.cells@[p as int].value <= 9);
                    assert(pv == v[pl[k as int]]);
                }
                if pv > 0 {
                    cell.candidates.unset((pv - 1) as usize);
                }
                proof {
                    assert(cell.candidates@ =~= all_digits().difference(
                        prefix_digits(v, pl, k + 1),
                    )) by {
                        assert forall|d: int|
                            #[trigger] prefix_digits(v, pl, k + 1).contains(d) == (prefix_digits(
                                v,
                                pl,
                                k as int,
                            ).contains(d) || (pv > 0 && d == pv - 1)) by {
                            if pv > 0 && d == pv - 1 {
                                assert(v[pl[k as int]] as int == d + 1);
                            }
                            if exists|j: int| 0 <= j < k + 1 && v[pl[j]] as int == d + 1 {
                                let j = choose|j: int| 0 <= j < k + 1 && v[pl[j]] as int == d + 1;
                                if j < k {
                                } else {
                                    assert(j == k);
                                }
                            }
                        }
                    }
                }
                if cell.candidates.none() {
                    proof {
                        assert(free_digits(v, index as int).subset_of(cell.candidates@)) by {
                            assert forall|d: int|
                                free_digits(v, index as int).contains(d) implies cell.candidates@.contains(
                                d,
                            ) by {
                                if exists|j: int| 0 <= j < k + 1 && v[pl[j]] as int == d + 1 {
                                    let j = choose|j: int|
                                        0 <= j < k + 1 && v[pl[j]] as int == d + 1;
                                    assert(pl.contains(pl[j]));
                                    assert(peer_digits(v, index as int).contains(d));
                                }
                            }
                        }
                        assert(free_digits(v, index as int) =~= Set::empty());
                    }
                    return None;
                }
                k = k + 1;
            }
            proof {
                assert(cell.candidates@ =~= free_digits(v, index as int)) by {
                    assert forall|d: int|
                        #[trigger] prefix_digits(v, pl, 20).contains(d) == peer_digits(
                            v,
                            index as int,
                        ).contains(d) by {
                        if exists|j: int| 0 <= j < 20 && v[pl[j]] as int == d + 1 {
                            let j = choose|j: int| 0 <= j < 20 && v[pl[j]] as int == d + 1;
                            assert(pl.contains(pl[j]));
                        }
                        if peer_digits(v, index as int).contains(d) {
                            let p = choose|p: int| is_peer(index as int, p) && v[p] as int == d + 1;
                            assert(pl.contains(p));
                            let j = choose|j: int| 0 <= j < pl.len() && pl[j] == p;
                            assert(v[pl[j]] as int == d + 1);
                        }
                    }
                }
                assert(peer_digits(v.update(index as int, value), index as int) =~= peer_digits(
                    v,
                    index as int,
                )) by {
                    assert forall|d: int| #[trigger]
                        peer_digits(v, index as int).contains(d) implies peer_digits(
                        v.update(index as int, value),
                        index as int,
                    ).contains(d) by {
                        let p = choose|p: int| is_peer(index as int, p) && v[p] as int == d + 1;
                        assert(v.update(index as int, value)[p] == v[p]);
                    }
                }
            }
            cells[index] = cell;
        }
        let g = FastGrid { cells };
        proof {
            assert forall|q: int| 0 <= q < 81 implies #[trigger] g.cells@[q].value <= 9 by {
                assert(self.cells@[q].value <= 9);
            }
            assert(g@ =~= v.update(index as int, value));
            assert(g.frozen_flags() =~= self.frozen_flags().update(index as int, false));
            assert(g.candidate_sets() =~= updated_sets(v.update(index as int, value), c, index as int));
        }
        Some(g)
    }
}

/// Whether every character of `s` is a digit that `FastGrid::set` accepts in turn.
pub open spec fn fast_parse_accepts(s: Seq<char>) -> bool {
    forall|k: int|
        0 <= k < s.len() ==> is_digit(#[trigger] s[k]) && fast_set_ok(
            prefix_values(s, k),
            prefix_sets(s, k),
            k,
            digit_value(s[k]),
        )
}

proof fn lemma_peer_digits_update(v: Seq<u8>, i: int, x: u8, q: int)
    requires
        v.len() == 81,
        0 <= i < 81,
        0 <= q < 81,
        q != i,
        v[i] == 0,
        1 <= x <= 9,
    ensures
        is_peer(q, i) ==> peer_digits(v.update(i, x), q) == peer_digits(v, q).insert(x - 1),
        !is_peer(q, i) ==> peer_digits(v.update(i, x), q) == peer_digits(v, q),
{
    let w = v.update(i, x);
    if is_peer(q, i) {
        assert forall|d: int| #[trigger] peer_digits(w, q).contains(d) == peer_digits(v, q).insert(
            x - 1,
        ).contains(d) by {
            if peer_digits(w, q).contains(d) {
                let p = choose|p: int| is_peer(q, p) && w[p] as int == d + 1;
                if p != i {
                    assert(v[p] as int == d + 1);
                }
            }
            if d == x - 1 {
                assert(w[i] as int == d + 1);
            } else if peer_digits(v, q).contains(d) {
                let p = choose|p: int| is_peer(q, p) && v[p] as int == d + 1;
                assert(w[p] as int == d + 1);
            }
        }
        assert(peer_digits(w, q) =~= peer_digits(v, q).insert(x - 1));
    } else {
        assert forall|d: int| #[trigger] peer_digits(w, q).contains(d) == peer_digits(
            v,
            q,
        ).contains(d) by {
            if peer_digits(w, q).contains(d) {
                let p = choose|p: int| is_peer(q, p) && w[p] as int == d + 1;
                assert(v[p] as int == d + 1);
            }
            if peer_digits(v, q).contains(d) {
                let p = choose|p: int| is_peer(q, p) && v[p] as int == d + 1;
                assert(w[p] as int == d + 1);
            }
        }
        assert(peer_digits(w, q) =~= peer_digits(v, q));
    }
}

/// In a grid that a solution extends, an empty cell's free digits hold the solution's digit.
proof fn lemma_solution_digit_free(v: Seq<u8>, s: Seq<u8>, q: int)
    requires
        v.len() == 81,
        is_solution(v, s),
        0 <= q < 81,
    ensures
        1 <= s[q] <= 9,
        free_digits(v, q).contains(s[q] - 1),
{
    if peer_digits(v, q).contains(s[q] - 1) {
        let p = choose|p: int| is_peer(q, p) && v[p] as int == s[q] - 1 + 1;
        assert(s[p] == v[p]);
    }
}

/// Filling an empty cell keeps each empty cell's candidates exact.
proof fn lemma_fill_keeps_exact(g: FastGrid, n: FastGrid, index: int, value: u8)
    requires
        g.exact(),
        g@.len() == 81,
        0 <= index < 81,
        g@[index] == 0,
        1 <= value <= 9,
        n@ == g@.update(index, value),
        n.candidate_sets() == updated_sets(g@.update(index, value), g.candidate_sets(), index),
    ensures
        n.exact(),
{
    let v = g@;
    let w = n@;
    assert forall|q: int| 0 <= q < 81 && w[q] == 0 implies #[trigger] n.candidate_sets()[q]
        == free_digits(w, q) by {
        lemma_peer_digits_update(v, index, value, q);
        assert(g.candidate_sets()[q] == free_digits(v, q));
        if is_peer(index, q) {
            assert(is_peer(q, index));
            assert(free_digits(w, q) =~= free_digits(v, q).remove(value - 1));
        } else {
            assert(!is_peer(q, index));
        }
    }
}

/// Filling an empty cell with one of its candidates keeps a sound grid sound.
proof fn lemma_fill_keeps_sound(g: FastGrid, n: FastGrid, index: int, value: u8)
    requires
        g.sound(),
        0 <= index < 81,
        g@[index] == 0,
        1 <= value <= 9,
        g.candidate_sets()[index].contains(value - 1),
        n.wf(),
        n@ == g@.update(index, value),
        n.frozen_flags() == g.frozen_flags().update(index, false),
        n.candidate_sets() == updated_sets(g@.update(index, value), g.candidate_sets(), index),
    ensures
        n.sound(),
{
    let v = g@;
    let w = n@;
    assert(g.candidate_sets()[index].subset_of(free_digits(v, index)));
    assert(free_digits(v, index).contains(value - 1));
    assert(!peer_digits(v, index).contains(value - 1));
    assert forall|a: int, b: int| #![trigger w[a], w[b]] is_peer(a, b) && w[a] > 0 implies w[a] != w[b] by {
        if a == index {
            if w[b] == value {
                assert(peer_digits(v, index).contains(value - 1));
            }
        } else if b == index {
            if w[a] == value {
                assert(is_peer(index, a));
                assert(peer_digits(v, index).contains(value - 1));
            }
        } else {
            assert(v[a] == w[a] && v[b] == w[b]);
        }
    }
    assert forall|q: int| 0 <= q < 81 && w[q] == 0 implies #[trigger] n.candidate_sets()[q].subset_of(
        free_digits(w, q),
    ) by {
        lemma_peer_digits_update(v, index, value, q);
        assert(g.candidate_sets()[q].subset_of(free_digits(v, q)));
    }
}

impl FastGrid {
    /// Whether no cell is empty.
    pub fn is_complete(&self) -> (r: bool)
        ensures
            r == values_complete(self@),
    {
        let mut i: usize = 0;
        while i < 81
            invariant
                i <= 81,
                forall|j: int| 0 <= j < i ==> self@[j] != 0,
            decreases 81 - i,
        {
            if self.cells[i].value == 0 {
                proof {
                    assert(self@[i as int] == 0);
                }
                return false;
            }
            i = i + 1;
        }
        true
    }

    /// Whether no two peers hold the same nonzero value.
    pub fn is_valid(&self) -> (r: bool)
        ensures
            r == values_valid(self@),
    {
        let ghost v = self@;
        let mut i: usize = 0;
        while i < 81
            invariant
                i <= 81,
                v == self@,
                forall|a: int, b: int|
                    #![trigger v[a], v[b]]
                    0 <= a < i && is_peer(a, b) && v[a] > 0 ==> v[a] != v[b],
            decreases 81 - i,
        {
            let value = self.cells[i].value;
            if value > 0 {
                let ps = peers(i);
                proof {
                    lemma_peer_list(i as int);
                }
                let mut k: usize = 0;
                while k < 20
                    invariant
                        i < 81,
                        k <= 20,
                        v == self@,
                        value == v[i as int],
                        value > 0,
                        ps@.map_values(|p: usize| p as int) == peer_list(i as int),
                        forall|b: int| peer_list(i as int).contains(b) <==> is_peer(i as int, b),
                        forall|j: int| 0 <= j < k ==> v[#[trigger] ps@[j] as int] != value,
                    decreases 20 - k,
                {
                    let p = ps[k];
                    proof {
                        assert(ps@.map_values(|p: usize| p as int)[k as int] == p as int);
                        assert(peer_list(i as int).contains(p as int));
                    }
                    if self.cells[p].value == value {
                        proof {
                            assert(v[p as int] == v[i as int]);
                        }
                        return false;
                    }
                    k = k + 1;
                }
                proof {
                    assert forall|b: int| is_peer(i as int, b) implies v[i as int] != v[b] by {
                        assert(peer_list(i as int).contains(b));
                        let j = choose|j: int|
                            0 <= j < peer_list(i as int).len() && peer_list(i as int)[j] == b;
                        assert(ps@.map_values(|p: usize| p as int)[j] == b);
                        assert(v[ps@[j] as int] != value);
                    }
                }
            }
            i = i + 1;
        }
        true
    }

    /// The grid as 81 digit characters, row-major, `0` for an empty cell.
    pub fn to_string(&self) -> (r: String)
        requires
            self.wf(),
        ensures
            r@ == grid_text(self@),
    {
        let mut text = String::new();
        let mut i: usize = 0;
        while i < 81
            invariant
                i <= 81,
                self.wf(),
                text@ == grid_text(self@).subrange(0, i as int),
            decreases 81 - i,
        {
            proof {
                assert(self.cells@[i as int].value <= 9);
            }
            push_char(&mut text, digit_char(self.cells[i].value));
            proof {
                assert(grid_text(self@).subrange(0, i + 1) =~= grid_text(self@).subrange(
                    0,
                    i as int,
                ).push(spec_digit_char(self@[i as int])));
            }
            i = i + 1;
        }
        proof {
            assert(grid_text(self@).subrange(0, 81) =~= grid_text(self@));
        }
        text
    }

    /// Reads a grid from up to 81 digit characters, row-major, `0` for an empty cell, each
    /// placed with `set` and each nonzero one frozen. None when a character is not a digit
    /// or its `set` fails.
    pub fn parse(s: &str) -> (r: Option<FastGrid>)
        requires
            s@.len() <= 81,
        ensures
            r is Some == fast_parse_accepts(s@),
            r matches Some(g) ==> {
                &&& g.wf()
                &&& g@ == prefix_values(s@, s@.len() as int)
                &&& g.candidate_sets() == prefix_sets(s@, s@.len() as int)
                &&& g.frozen_flags() == Seq::new(81, |q: int| g@[q] != 0)
                &&& g.exact()
            },
    {
        let mut grid = FastGrid::new();
        let n = s.unicode_len();
        proof {
            assert(grid@ =~= prefix_values(s@, 0));
            assert forall|q: int| 0 <= q < 81 implies free_digits(prefix_values(s@, 0), q)
                =~= all_digits() by {
                assert(peer_digits(prefix_values(s@, 0), q) =~= Set::empty());
            }
            assert(grid.candidate_sets() =~= prefix_sets(s@, 0));
        }
        let mut index: usize = 0;
        while index < n
            invariant
                n == s@.len(),
                n <= 81,
                index <= n,
                grid.wf(),
                grid@ == prefix_values(s@, index as int),
                grid.candidate_sets() == prefix_sets(s@, index as int),
                forall|q: int| 0 <= q < 81 ==> #[trigger] grid.frozen_flags()[q] == (grid@[q] != 0),
                forall|j: int|
                    0 <= j < index ==> is_digit(#[trigger] s@[j]) && fast_set_ok(
                        prefix_values(s@, j),
                        prefix_sets(s@, j),
                        j,
                        digit_value(s@[j]),
                    ),
            decreases n - index,
        {
            let c = s.get_char(index);
            if !('0' <= c && c <= '9') {
                return None;
            }
            let value = (c as u32 - 48) as u8;
            proof {
                lemma_parse_step(s@, index as int);
            }
            let next = grid.set(index, value);
            match next {
                Some(g) => {
                    grid = g;
                },
                None => {
                    return None;
                },
            }
            let ghost placed = grid;
            if value != 0 {
                let mut cell = grid.cells[index];
                cell.frozen = true;
                grid.cells[index] = cell;
            }
            proof {
                assert(grid@ =~= placed@);
                assert forall|q: int| 0 <= q < 81 implies #[trigger] grid.frozen_flags()[q] == (
                grid@[q] != 0) by {
                    if q != index {
                        assert(grid.frozen_flags()[q] == placed.frozen_flags()[q]);
                    }
                }
                assert(grid@ =~= prefix_values(s@, index + 1));
                assert(grid.candidate_sets() =~= prefix_sets(s@, index + 1));
            }
            index = index + 1;
        }
        proof {
            assert(grid.frozen_flags() =~= Seq::new(81, |q: int| grid@[q] != 0));
            assert forall|q: int| 0 <= q < 81 && grid@[q] == 0 implies #[trigger] grid.candidate_sets()[q]
                == free_digits(grid@, q) by {
                assert(prefix_sets(s@, n as int)[q] == free_digits(prefix_values(s@, n as int), q));
            }
        }
        Some(grid)
    }
}

impl PartialEq for FastGrid {
    fn eq(&self, other: &FastGrid) -> (r: bool) {
        let mut i: usize = 0;
        while i < 81
            invariant
                i <= 81,
                forall|j: int| 0 <= j < i ==> self@[j] == other@[j],
            decreases 81 - i,
        {
            if self.cells[i].value != other.cells[i].value {
                proof {
                    assert(self@[i as int] != other@[i as int]);
                }
                return false;
            }
            i = i + 1;
        }
        proof {
            assert(self@ =~= other@);
        }
        true
    }
}

impl vstd::std_specs::cmp::PartialEqSpecImpl for FastGrid {
    open spec fn obeys_eq_spec() -> bool {
        true
    }

    /// Two grids are equal when their values are.
    open spec fn eq_spec(&self, other: &FastGrid) -> bool {
        self@ == other@
    }
}

/// A completion of `grid` found by trying the candidates of each empty, unfrozen cell in
/// turn, depth first. None when no completion is found. On a sound grid the result is a
/// solution.
pub fn brute_force(grid: FastGrid) -> (r: Option<FastGrid>)
    requires
        grid.wf(),
    ensures
        r matches Some(g) ==> {
            &&& g.wf()
            &&& forall|q: int| 0 <= q < 81 && grid@[q] != 0 ==> #[trigger] g@[q] == grid@[q]
            &&& grid.sound() ==> is_solution(grid@, g@)
        },
        grid.exact() && (exists|s: Seq<u8>| is_solution(grid@, s)) ==> r is Some,
{
    let ghost before = grid@;
    let r = brute_force_impl(grid, 0);
    proof {
        if r is Some {
            let g = r->0;
            if grid.sound() {
                assert forall|i: int| 0 <= i < 81 implies #[trigger] g@[i] <= 9 by {
                    assert(g.cells@[i].value <= 9);
                }
            }
        }
    }
    r
}

fn brute_force_impl(grid: FastGrid, index: usize) -> (r: Option<FastGrid>)
    requires
        grid.wf(),
        index <= 81,
    ensures
        r matches Some(g) ==> {
            &&& g.wf()
            &&& forall|q: int|
                0 <= q < 81 && (q < index || grid@[q] != 0) ==> #[trigger] g@[q] == grid@[q]
            &&& grid.sound() ==> g.sound() && forall|q: int| index <= q < 81 ==> #[trigger] g@[q]
                != 0
        },
        forall|s: Seq<u8>| grid.exact() && is_solution(grid@, s) ==> r is Some,
    decreases 81 - index,
{
    if index > 80 {
        return Some(grid);
    }
    let cell = grid.cells[index];
    if !cell.frozen && cell.value == 0 {
        if cell.candidates.some() {
            let mut value: usize = 1;
            while value < 10
                invariant
                    grid.wf(),
                    index < 81,
                    1 <= value <= 10,
                    cell == grid.cells@[index as int],
                    !cell.frozen,
                    cell.value == 0,
                    forall|s: Seq<u8>|
                        grid.exact() && is_solution(grid@, s) ==> value <= #[trigger] s[index as int],
                decreases 10 - value,
            {
                proof {
                    assert forall|s: Seq<u8>|
                        grid.exact() && is_solution(grid@, s) && #[trigger] s[index as int] == value
                            implies cell.candidates@.contains(value - 1) && fast_set_ok(
                        grid@,
                        grid.candidate_sets(),
                        index as int,
                        value as u8,
                    ) by {
                        lemma_solution_digit_free(grid@, s, index as int);
                        assert(grid.candidate_sets()[index as int] == free_digits(grid@, index as int));
                        assert forall|p: int|
                            is_peer(index as int, p) && grid@[p] == 0 implies !#[trigger] grid.candidate_sets()[p].remove(
                            value - 1,
                        ).is_empty() by {
                            lemma_solution_digit_free(grid@, s, p);
                            assert(grid.candidate_sets()[p] == free_digits(grid@, p));
                            assert(s[p] != s[index as int]);
                            assert(grid.candidate_sets()[p].remove(value - 1).contains(s[p] - 1));
                        }
                    }
                }
                if cell.candidates.get(value - 1) {
                    let next = grid.set(index, value as u8);
                    match next {
                        Some(n) => {
                            proof {
                                if grid.sound() {
                                    lemma_fill_keeps_sound(grid, n, index as int, value as u8);
                                }
                                if grid.exact() {
                                    lemma_fill_keeps_exact(grid, n, index as int, value as u8);
                                }
                            }
                            let ghost filled = n@;
                            let result = brute_force_impl(n, index + 1);
                            proof {
                                assert forall|s: Seq<u8>|
                                    grid.exact() && is_solution(grid@, s) && #[trigger] s[index as int]
                                        == value implies result is Some by {
                                    assert(is_solution(filled, s));
                                }
                            }
                            if result.is_some() {
                                return result;
                            }
                        },
                        None => {},
                    }
                }
                value = value + 1;
            }
        }
        proof {
            assert forall|s: Seq<u8>| grid.exact() && is_solution(grid@, s) implies false by {
                lemma_solution_digit_free(grid@, s, index as int);
                assert(grid.candidate_sets()[index as int] == free_digits(grid@, index as int));
                assert(cell.candidates@.contains(s[index as int] - 1));
            }
        }
        return None;
    }
    let ghost before = grid;
    let r = brute_force_impl(grid, index + 1);
    proof {
        assert(before@[index as int] == cell.value);
        assert(before.frozen_flags()[index as int] == cell.frozen);
    }
    r
}

} // verus!

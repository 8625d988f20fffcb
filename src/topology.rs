//! Rows, columns, boxes and peers of the 81 cells, addressed row-major.

use vstd::prelude::*;

verus! {

/// Row of cell `i`.
pub open spec fn row_of(i: int) -> int {
    i / 9
}

/// Column of cell `i`.
pub open spec fn col_of(i: int) -> int {
    i % 9
}

/// Box of cell `i`, counted left to right and top to bottom.
pub open spec fn box_of(i: int) -> int {
    row_of(i) / 3 * 3 + col_of(i) / 3
}

/// Whether `i` names one of the 81 cells.
pub open spec fn is_cell(i: int) -> bool {
    0 <= i < 81
}

/// Distinct cells that share a row, a column or a box.
pub open spec fn is_peer(a: int, b: int) -> bool {
    &&& is_cell(a)
    &&& is_cell(b)
    &&& a != b
    &&& (row_of(a) == row_of(b) || col_of(a) == col_of(b) || box_of(a) == box_of(b))
}

/// The peers of cell `i`.
pub open spec fn peer_set(i: int) -> Set<int> {
    Set::new(|b: int| is_peer(i, b))
}

/// Of the two lines of `x`'s band other than `x` itself, the first (`t == 0`) or second.
pub open spec fn other_in_band(x: int, t: int) -> int {
    let base = x - x % 3;
    if t == 0 {
        if x % 3 == 0 {
            base + 1
        } else {
            base
        }
    } else {
        if x % 3 == 2 {
            base + 1
        } else {
            base + 2
        }
    }
}

/// Peer number `k` of cell `i`: first the rest of its row, then the rest of its column,
/// then the four cells of its box on neither.
pub open spec fn peer_at(i: int, k: int) -> int {
    let r = row_of(i);
    let c = col_of(i);
    if k < 8 {
        9 * r + (if k < c {
            k
        } else {
            k + 1
        })
    } else if k < 16 {
        let m = k - 8;
        9 * (if m < r {
            m
        } else {
            m + 1
        }) + c
    } else {
        let m = k - 16;
        9 * other_in_band(r, m / 2) + other_in_band(c, m % 2)
    }
}

/// The 20 peers of cell `i`, in table order.
pub open spec fn peer_list(i: int) -> Seq<int> {
    Seq::new(20, |k: int| peer_at(i, k))
}

pub proof fn lemma_cell_parts(r: int, c: int)
    requires
        0 <= r < 9,
        0 <= c < 9,
    ensures
        row_of(9 * r + c) == r,
        col_of(9 * r + c) == c,
        is_cell(9 * r + c),
{
}

pub proof fn lemma_split(i: int)
    requires
        is_cell(i),
    ensures
        i == 9 * row_of(i) + col_of(i),
        0 <= row_of(i) < 9,
        0 <= col_of(i) < 9,
{
}

pub proof fn lemma_box(a: int, b: int)
    requires
        is_cell(a),
        is_cell(b),
    ensures
        (box_of(a) == box_of(b)) <==> (row_of(a) / 3 == row_of(b) / 3 && col_of(a) / 3 == col_of(b)
            / 3),
{
    lemma_split(a);
    lemma_split(b);
}

proof fn lemma_other_in_band(x: int, t: int)
    requires
        0 <= x < 9,
        0 <= t < 2,
    ensures
        0 <= other_in_band(x, t) < 9,
        other_in_band(x, t) != x,
        other_in_band(x, t) / 3 == x / 3,
        other_in_band(x, 0) != other_in_band(x, 1),
{
}

proof fn lemma_band_cover(x: int, y: int)
    requires
        0 <= x < 9,
        0 <= y < 9,
        y != x,
        y / 3 == x / 3,
    ensures
        y == other_in_band(x, 0) || y == other_in_band(x, 1),
{
}

proof fn lemma_peer_at(i: int, k: int)
    requires
        is_cell(i),
        0 <= k < 20,
    ensures
        is_peer(i, peer_at(i, k)),
        k < 8 ==> row_of(peer_at(i, k)) == row_of(i),
        8 <= k < 16 ==> col_of(peer_at(i, k)) == col_of(i) && row_of(peer_at(i, k)) != row_of(i),
        16 <= k ==> row_of(peer_at(i, k)) != row_of(i) && col_of(peer_at(i, k)) != col_of(i),
        k < 8 ==> col_of(peer_at(i, k)) == (if k < col_of(i) {
            k
        } else {
            k + 1
        }),
        8 <= k < 16 ==> row_of(peer_at(i, k)) == (if k - 8 < row_of(i) {
            k - 8
        } else {
            k - 7
        }),
        16 <= k ==> row_of(peer_at(i, k)) == other_in_band(row_of(i), (k - 16) / 2) && col_of(
            peer_at(i, k),
        ) == other_in_band(col_of(i), (k - 16) % 2),
{
    lemma_split(i);
    let r = row_of(i);
    let c = col_of(i);
    let p = peer_at(i, k);
    if k < 8 {
        let j = if k < c {
            k
        } else {
            k + 1
        };
        lemma_cell_parts(r, j);
    } else if k < 16 {
        let m = k - 8;
        let rr = if m < r {
            m
        } else {
            m + 1
        };
        lemma_cell_parts(rr, c);
    } else {
        let m = k - 16;
        lemma_other_in_band(r, m / 2);
        lemma_other_in_band(c, m % 2);
        lemma_cell_parts(other_in_band(r, m / 2), other_in_band(c, m % 2));
        lemma_box(i, p);
    }
}

proof fn lemma_peer_distinct(i: int, k1: int, k2: int)
    requires
        is_cell(i),
        0 <= k1 < 20,
        0 <= k2 < 20,
        k1 != k2,
    ensures
        peer_at(i, k1) != peer_at(i, k2),
{
    lemma_peer_at(i, k1);
    lemma_peer_at(i, k2);
    lemma_split(peer_at(i, k1));
    lemma_split(peer_at(i, k2));
    if k1 >= 16 && k2 >= 16 {
        lemma_other_in_band(row_of(i), 0);
        lemma_other_in_band(col_of(i), 0);
    }
}

proof fn lemma_peer_cover(i: int, b: int)
    requires
        is_peer(i, b),
    ensures
        exists|k: int| 0 <= k < 20 && peer_at(i, k) == b,
{
    lemma_split(i);
    lemma_split(b);
    let r = row_of(i);
    let c = col_of(i);
    let rb = row_of(b);
    let cb = col_of(b);
    if rb == r {
        let k = if cb < c {
            cb
        } else {
            cb - 1
        };
        lemma_peer_at(i, k);
        lemma_split(peer_at(i, k));
    } else if cb == c {
        let k = if rb < r {
            rb + 8
        } else {
            rb + 7
        };
        lemma_peer_at(i, k);
        lemma_split(peer_at(i, k));
    } else {
        lemma_box(i, b);
        lemma_other_in_band(r, 0);
        lemma_other_in_band(c, 0);
        lemma_band_cover(r, rb);
        lemma_band_cover(c, cb);
        let tr: int = if rb == other_in_band(r, 0) {
            0
        } else {
            1
        };
        let tc: int = if cb == other_in_band(c, 0) {
            0
        } else {
            1
        };
        let k = 16 + 2 * tr + tc;
        lemma_peer_at(i, k);
        lemma_split(peer_at(i, k));
    }
}

/// The peer table lists each peer of a cell once and nothing else: every cell has
/// exactly 20 peers, and the peer relation is symmetric.
pub proof fn lemma_peer_table(a: int, b: int)
    requires
        is_cell(a),
        is_cell(b),
    ensures
        peer_list(a).len() == 20,
        peer_list(a).no_duplicates(),
        peer_list(a).to_set() == peer_set(a),
        peer_set(a).len() == 20,
        peer_list(a).contains(b) <==> peer_list(b).contains(a),
{
    lemma_peer_list(a);
    lemma_peer_list(b);
    lemma_box(a, b);
    assert(is_peer(a, b) == is_peer(b, a));
    peer_list(a).unique_seq_to_set();
}

pub proof fn lemma_peer_list(a: int)
    requires
        is_cell(a),
    ensures
        peer_list(a).no_duplicates(),
        peer_list(a).to_set() == peer_set(a),
        forall|b: int| peer_list(a).contains(b) <==> is_peer(a, b),
{
    let s = peer_list(a);
    assert forall|k1: int, k2: int| 0 <= k1 < s.len() && 0 <= k2 < s.len() && k1 != k2 implies s[k1]
        != s[k2] by {
        lemma_peer_distinct(a, k1, k2);
    }
    assert forall|b: int| s.contains(b) <==> is_peer(a, b) by {
        if s.contains(b) {
            let k = choose|k: int| 0 <= k < s.len() && s[k] == b;
            lemma_peer_at(a, k);
        }
        if is_peer(a, b) {
            lemma_peer_cover(a, b);
            let k = choose|k: int| 0 <= k < 20 && peer_at(a, k) == b;
            assert(s[k] == b);
        }
    }
    assert(s.to_set() =~= peer_set(a));
}

/// Exec form of `other_in_band`.
fn other_in_band_exec(x: usize, t: usize) -> (r: usize)
    requires
        x < 9,
        t < 2,
    ensures
        r == other_in_band(x as int, t as int),
{
    let base = x - x % 3;
    if t == 0 {
        if x % 3 == 0 {
            base + 1
        } else {
            base
        }
    } else {
        if x % 3 == 2 {
            base + 1
        } else {
            base + 2
        }
    }
}

/// The 20 peers of cell `index`: the rest of its row, the rest of its column, then the
/// four cells of its box on neither.
pub fn peers(index: usize) -> (r: [usize; 20])
    requires
        index < 81,
    ensures
        r@.map_values(|p: usize| p as int) == peer_list(index as int),
        forall|k: int| 0 <= k < 20 ==> is_peer(index as int, #[trigger] r@[k] as int),
{
    let r = index / 9;
    let c = index % 9;
    let mut table: [usize; 20] = [0usize; 20];
    let mut k: usize = 0;
    while k < 20
        invariant
            index < 81,
            r == row_of(index as int),
            c == col_of(index as int),
            k <= 20,
            forall|j: int| 0 <= j < k ==> table@[j] as int == peer_at(index as int, j),
        decreases 20 - k,
    {
        let p = if k < 8 {
            9 * r + if k < c {
                k
            } else {
                k + 1
            }
        } else if k < 16 {
            let m = k - 8;
            9 * (if m < r {
                m
            } else {
                m + 1
            }) + c
        } else {
            let m = k - 16;
            9 * other_in_band_exec(r, m / 2) + other_in_band_exec(c, m % 2)
        };
        table[k] = p;
        k = k + 1;
    }
    proof {
        assert(table@.map_values(|p: usize| p as int) =~= peer_list(index as int));
        assert forall|k: int| 0 <= k < 20 implies is_peer(index as int, #[trigger] table@[k] as int) by {
            lemma_peer_at(index as int, k);
        }
    }
    table
}

/// The nine cells of row `row`, left to right.
pub fn row_indices(row: usize) -> (r: [usize; 9])
    requires
        row < 9,
    ensures
        forall|k: int| 0 <= k < 9 ==> #[trigger] r@[k] == 9 * row + k,
        forall|k: int| 0 <= k < 9 ==> row_of(#[trigger] r@[k] as int) == row,
{
    let mut line: [usize; 9] = [0usize; 9];
    let mut k: usize = 0;
    while k < 9
        invariant
            row < 9,
            k <= 9,
            forall|j: int| 0 <= j < k ==> line@[j] == 9 * row + j,
        decreases 9 - k,
    {
        line[k] = 9 * row + k;
        k = k + 1;
    }
    proof {
        assert forall|k: int| 0 <= k < 9 implies row_of(#[trigger] line@[k] as int) == row by {
            lemma_cell_parts(row as int, k);
        }
    }
    line
}

/// The nine cells of column `column`, top to bottom.
pub fn column_indices(column: usize) -> (r: [usize; 9])
    requires
        column < 9,
    ensures
        forall|k: int| 0 <= k < 9 ==> #[trigger] r@[k] == 9 * k + column,
        forall|k: int| 0 <= k < 9 ==> col_of(#[trigger] r@[k] as int) == column,
{
    let mut line: [usize; 9] = [0usize; 9];
    let mut k: usize = 0;
    while k < 9
        invariant
            column < 9,
            k <= 9,
            forall|j: int| 0 <= j < k ==> line@[j] == 9 * j + column,
        decreases 9 - k,
    {
        line[k] = 9 * k + column;
        k = k + 1;
    }
    proof {
        assert forall|k: int| 0 <= k < 9 implies col_of(#[trigger] line@[k] as int) == column by {
            lemma_cell_parts(k, column as int);
        }
    }
    line
}

/// The nine cells of box `b`, row by row.
pub fn box_indices(b: usize) -> (r: [usize; 9])
    requires
        b < 9,
    ensures
        forall|k: int|
            0 <= k < 9 ==> #[trigger] r@[k] == 9 * (b / 3 * 3 + k / 3) + (b % 3 * 3 + k % 3),
        forall|k: int| 0 <= k < 9 ==> box_of(#[trigger] r@[k] as int) == b,
{
    let mut line: [usize; 9] = [0usize; 9];
    let mut k: usize = 0;
    while k < 9
        invariant
            b < 9,
            k <= 9,
            forall|j: int|
                0 <= j < k ==> line@[j] == 9 * (b / 3 * 3 + j / 3) + (b % 3 * 3 + j % 3),
        decreases 9 - k,
    {
        line[k] = 9 * (b / 3 * 3 + k / 3) + (b % 3 * 3 + k % 3);
        k = k + 1;
    }
    proof {
        assert forall|k: int| 0 <= k < 9 implies box_of(#[trigger] line@[k] as int) == b by {
            lemma_cell_parts(b / 3 * 3 + k / 3, b % 3 * 3 + k % 3);
        }
    }
    line
}

} // verus!

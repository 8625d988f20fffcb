//! The exact-cover search (Algorithm X with the most constrained column first) and the
//! proof that its results are exactly the solutions of a grid.

use vstd::prelude::*;
use vstd::relations::injective_on;
use vstd::set_lib::{
    lemma_int_range, lemma_len_subset, lemma_map_size, lemma_subset_equality, set_int_range,
};

use crate::cover::{
    clashes, column_members, column_add, column_len, column_list, column_remove, compatible, consistent, constraint,
    constraint_of, cover_columns, cover_has, cover_insert, cover_keys, cover_remove, covered, covers, full, is_constraint,
    is_placement, lemma_clashes, lemma_constraint, lemma_covers_family, live, new_column,
    new_cover, placement, cell_of, value_of, Column, Cover,
};
use crate::grid::{values_complete, values_valid, Grid};
use crate::topology::{box_of, col_of, is_cell, is_peer, lemma_cell_parts, row_of};

verus! {

/// Whether `k` is one of the first `n` constraints of placement `p`.
spec fn within(p: u16, n: int, k: u16) -> bool {
    ||| (n > 0 && constraint(p, 0) == k)
    ||| (n > 1 && constraint(p, 1) == k)
    ||| (n > 2 && constraint(p, 2) == k)
    ||| (n > 3 && constraint(p, 3) == k)
}

/// Whether placement `p` satisfies one of the first `n` constraints of placement `r`.
spec fn hit(r: u16, n: int, p: u16) -> bool {
    ||| (n > 0 && covers(p, constraint(r, 0)))
    ||| (n > 1 && covers(p, constraint(r, 1)))
    ||| (n > 2 && covers(p, constraint(r, 2)))
    ||| (n > 3 && covers(p, constraint(r, 3)))
}

/// The live index of `s` once the first `n` constraints of `r` are selected.
spec fn stage(s: Set<u16>, r: u16, n: int) -> Map<u16, Set<u16>> {
    Map::new(
        |k: u16| live(s).dom().contains(k) && !within(r, n, k),
        |k: u16| Set::new(|p: u16| live(s)[k].contains(p) && !hit(r, n, p)),
    )
}

/// `m` with placement `i` gone from each column of its constraints but `j`.
spec fn detached(m: Map<u16, Set<u16>>, i: u16, j: u16) -> Map<u16, Set<u16>> {
    Map::new(
        |k: u16| m.dom().contains(k),
        |k: u16|
            if k != j && covers(i, k) {
                m[k].remove(i)
            } else {
                m[k]
            },
    )
}

/// `m` with placement `i` back in each column of its constraints but `j`.
spec fn attached(m: Map<u16, Set<u16>>, i: u16, j: u16) -> Map<u16, Set<u16>> {
    Map::new(
        |k: u16| m.dom().contains(k),
        |k: u16|
            if k != j && covers(i, k) {
                m[k].insert(i)
            } else {
                m[k]
            },
    )
}

proof fn lemma_stage_ends(s: Set<u16>, r: u16)
    requires
        consistent(s),
        is_placement(r),
        compatible(r, s),
    ensures
        stage(s, r, 0) == live(s),
        stage(s, r, 4) == live(s.insert(r)),
{
    assert(stage(s, r, 0) =~~= live(s));
    let n = s.insert(r);
    assert forall|k: u16| #[trigger] live(n).dom().contains(k) == stage(s, r, 4).dom().contains(
        k,
    ) by {
        if covered(n).contains(k) && !covered(s).contains(k) {
            let p = choose|p: u16| n.contains(p) && #[trigger] covers(p, k);
            assert(p == r);
        }
        if covers(r, k) {
            assert(covered(n).contains(k));
        }
        if covered(s).contains(k) {
            let p = choose|p: u16| s.contains(p) && #[trigger] covers(p, k);
            assert(covered(n).contains(k));
        }
    }
    assert forall|k: u16| #[trigger] live(n).dom().contains(k) implies live(n)[k] =~= stage(
        s,
        r,
        4,
    )[k] by {
        assert forall|p: u16| live(n)[k].contains(p) == stage(s, r, 4)[k].contains(p) by {
            if is_placement(p) {
                lemma_clashes(r, p);
                lemma_clashes(p, r);
            }
        }
    }
    assert(live(n) =~~= stage(s, r, 4));
}

/// One selection step: with the columns of constraint `t` of `r` gone, and its placements
/// gone from every other column, the stage moves on.
proof fn lemma_stage_step(s: Set<u16>, r: u16, t: int)
    requires
        consistent(s),
        is_placement(r),
        compatible(r, s),
        0 <= t < 4,
    ensures
        stage(s, r, t).dom().contains(constraint(r, t)),
        forall|k: u16|
            #[trigger] stage(s, r, t).dom().contains(k) ==> forall|p: u16|
                stage(s, r, t)[k].contains(p) ==> is_placement(p) && covers(p, k),
        stage(s, r, t + 1) == Map::new(
            |k: u16| stage(s, r, t).dom().contains(k) && k != constraint(r, t),
            |k: u16|
                stage(s, r, t)[k].difference(stage(s, r, t)[constraint(r, t)]),
        ),
        forall|k: u16|
            #[trigger] stage(s, r, t + 1).dom().contains(k) ==> stage(s, r, t)[k] == stage(
                s,
                r,
                t + 1,
            )[k].union(
                stage(s, r, t)[constraint(r, t)].filter(|p: u16| covers(p, k)),
            ),
{
    let j = constraint(r, t);
    lemma_constraint(r, 0);
    lemma_constraint(r, 1);
    lemma_constraint(r, 2);
    lemma_constraint(r, 3);
    lemma_constraint(r, t);
    if covered(s).contains(j) {
        let q = choose|q: u16| s.contains(q) && #[trigger] covers(q, j);
        lemma_clashes(r, q);
        assert(clashes(r, q));
    }
    let next = Map::new(
        |k: u16| stage(s, r, t).dom().contains(k) && k != j,
        |k: u16| stage(s, r, t)[k].difference(stage(s, r, t)[j]),
    );
    assert forall|k: u16| #[trigger] stage(s, r, t + 1).dom().contains(k) implies stage(
        s,
        r,
        t + 1,
    )[k] =~= next[k] by {
        assert forall|p: u16| stage(s, r, t + 1)[k].contains(p) == next[k].contains(p) by {
            if stage(s, r, t)[k].contains(p) && covers(p, j) {
                assert(stage(s, r, t)[j].contains(p));
            }
        }
    }
    assert(stage(s, r, t + 1) =~~= next);
    assert forall|k: u16| #[trigger] stage(s, r, t + 1).dom().contains(k) implies stage(
        s,
        r,
        t,
    )[k] =~= stage(s, r, t + 1)[k].union(stage(s, r, t)[j].filter(|p: u16| covers(p, k))) by {
        assert forall|p: u16| stage(s, r, t)[j].contains(p) && covers(p, k) implies stage(
            s,
            r,
            t,
        )[k].contains(p) by {}
    }
}

/// The index of all constraints, each with every placement that satisfies it.
fn exact_cover() -> (r: Cover)
    ensures
        cover_columns(r) == live(Set::empty()),
{
    let mut x = new_cover();
    let mut j: u16 = 0;
    while j < 324
        invariant
            j <= 324,
            cover_columns(x) == Map::new(|k: u16| k < j, |k: u16| Set::<u16>::empty()),
        decreases 324 - j,
    {
        cover_insert(&mut x, j, new_column());
        proof {
            assert(cover_columns(x) =~~= Map::new(
                |k: u16| k < j + 1,
                |k: u16| Set::<u16>::empty(),
            ));
        }
        j = j + 1;
    }
    proof {
        assert(cover_columns(x) =~~= Map::new(
            |k: u16| is_constraint(k),
            |k: u16| Set::new(|i: u16| i < 0 && covers(i, k)),
        ));
    }
    let mut p: u16 = 0;
    while p < 729
        invariant
            p <= 729,
            cover_columns(x) == Map::new(
                |k: u16| is_constraint(k),
                |k: u16| Set::new(|i: u16| i < p && covers(i, k)),
            ),
        decreases 729 - p,
    {
        let mut t: usize = 0;
        proof {
            assert(cover_columns(x) =~~= Map::new(
                |k: u16| is_constraint(k),
                |k: u16| Set::new(|i: u16| (i < p && covers(i, k)) || (i == p && within(p, 0, k))),
            ));
        }
        while t < 4
            invariant
                p < 729,
                t <= 4,
                cover_columns(x) == Map::new(
                    |k: u16| is_constraint(k),
                    |k: u16|
                        Set::new(
                            |i: u16| (i < p && covers(i, k)) || (i == p && within(p, t as int, k)),
                        ),
                ),
            decreases 4 - t,
        {
            let k = constraint_of(p, t);
            proof {
                lemma_constraint(p, t as int);
            }
            column_add(&mut x, k, p);
            proof {
                assert(cover_columns(x) =~~= Map::new(
                    |k: u16| is_constraint(k),
                    |k: u16|
                        Set::new(
                            |i: u16|
                                (i < p && covers(i, k)) || (i == p && within(p, t + 1, k)),
                        ),
                ));
            }
            t = t + 1;
        }
        proof {
            assert(cover_columns(x) =~~= Map::new(
                |k: u16| is_constraint(k),
                |k: u16| Set::new(|i: u16| i < p + 1 && covers(i, k)),
            ));
        }
        p = p + 1;
    }
    proof {
        assert forall|k: u16| #[trigger] live(Set::empty()).dom().contains(k) == is_constraint(k) by {
            if covered(Set::<u16>::empty()).contains(k) {
                let q = choose|q: u16| Set::<u16>::empty().contains(q) && #[trigger] covers(q, k);
            }
        }
        assert(cover_columns(x) =~~= live(Set::empty()));
    }
    x
}

/// Takes placement `i` out of each column of its constraints but `j`.
fn detach(x: &mut Cover, i: u16, j: u16)
    requires
        is_placement(i),
    ensures
        cover_columns(*final(x)) == detached(cover_columns(*old(x)), i, j),
{
    let ghost m = cover_columns(*x);
    let mut t: usize = 0;
    while t < 4
        invariant
            is_placement(i),
            t <= 4,
            cover_columns(*x) == Map::new(
                |k: u16| m.dom().contains(k),
                |k: u16|
                    if k != j && within(i, t as int, k) {
                        m[k].remove(i)
                    } else {
                        m[k]
                    },
            ),
        decreases 4 - t,
    {
        let k = constraint_of(i, t);
        if k != j {
            column_remove(x, k, i);
        }
        proof {
            assert(cover_columns(*x) =~~= Map::new(
                |k: u16| m.dom().contains(k),
                |k: u16|
                    if k != j && within(i, t + 1, k) {
                        m[k].remove(i)
                    } else {
                        m[k]
                    },
            ));
        }
        t = t + 1;
    }
    proof {
        assert(cover_columns(*x) =~~= detached(m, i, j));
    }
}

/// Puts placement `i` back in each column of its constraints but `j`.
fn attach(x: &mut Cover, i: u16, j: u16)
    requires
        is_placement(i),
    ensures
        cover_columns(*final(x)) == attached(cover_columns(*old(x)), i, j),
{
    let ghost m = cover_columns(*x);
    let mut t: usize = 0;
    while t < 4
        invariant
            is_placement(i),
            t <= 4,
            cover_columns(*x) == Map::new(
                |k: u16| m.dom().contains(k),
                |k: u16|
                    if k != j && within(i, t as int, k) {
                        m[k].insert(i)
                    } else {
                        m[k]
                    },
            ),
        decreases 4 - t,
    {
        let k = constraint_of(i, t);
        if k != j {
            column_add(x, k, i);
        }
        proof {
            assert(cover_columns(*x) =~~= Map::new(
                |k: u16| m.dom().contains(k),
                |k: u16|
                    if k != j && within(i, t + 1, k) {
                        m[k].insert(i)
                    } else {
                        m[k]
                    },
            ));
        }
        t = t + 1;
    }
    proof {
        assert(cover_columns(*x) =~~= attached(m, i, j));
    }
}

/// Whether `p` is among the first `m` entries of `ms`.
spec fn in_list(ms: Seq<u16>, m: int, p: u16) -> bool {
    exists|a: int| 0 <= a < m && ms[a] == p
}

/// Chooses placement `r`: each column of its constraints leaves the index, and each
/// placement in those columns leaves every other column. The removed columns come
/// back in constraint order, for `deselect`.
fn select(x: &mut Cover, r: u16, Ghost(s): Ghost<Set<u16>>) -> (cols: Vec<Column>)
    requires
        cover_columns(*old(x)) == live(s),
        consistent(s),
        is_placement(r),
        compatible(r, s),
    ensures
        cover_columns(*final(x)) == live(s.insert(r)),
        cols@.len() == 4,
        forall|t: int|
            0 <= t < 4 ==> column_members(#[trigger] cols@[t]) == stage(s, r, t)[constraint(
                r,
                t,
            )],
{
    proof {
        lemma_stage_ends(s, r);
    }
    let mut cols: Vec<Column> = Vec::new();
    let mut t: usize = 0;
    while t < 4
        invariant
            consistent(s),
            is_placement(r),
            compatible(r, s),
            t <= 4,
            stage(s, r, 4) == live(s.insert(r)),
            cover_columns(*x) == stage(s, r, t as int),
            cols@.len() == t,
            forall|u: int|
                0 <= u < t ==> column_members(#[trigger] cols@[u]) == stage(s, r, u)[constraint(
                    r,
                    u,
                )],
        decreases 4 - t,
    {
        let j = constraint_of(r, t);
        proof {
            lemma_stage_step(s, r, t as int);
        }
        let ghost st = stage(s, r, t as int);
        let members = column_list(x, j);
        proof {
            assert(cover_columns(*x) =~~= Map::new(
                |k: u16| st.dom().contains(k),
                |k: u16|
                    if k == j {
                        st[k]
                    } else {
                        Set::new(|p: u16| st[k].contains(p) && !in_list(members@, 0, p))
                    },
            ));
        }
        let mut m: usize = 0;
        while m < members.len()
            invariant
                st == stage(s, r, t as int),
                j == constraint(r, t as int),
                st.dom().contains(j),
                m <= members@.len(),
                members@.to_set() == st[j],
                forall|k: u16|
                    #[trigger] st.dom().contains(k) ==> forall|p: u16|
                        st[k].contains(p) ==> is_placement(p) && covers(p, k),
                cover_columns(*x) == Map::new(
                    |k: u16| st.dom().contains(k),
                    |k: u16|
                        if k == j {
                            st[k]
                        } else {
                            Set::new(|p: u16| st[k].contains(p) && !in_list(members@, m as int, p))
                        },
                ),
            decreases members@.len() - m,
        {
            let i = members[m];
            proof {
                assert(members@.to_set().contains(i));
            }
            detach(x, i, j);
            proof {
                assert forall|k: u16| #[trigger] st.dom().contains(k) && k != j implies Set::new(
                    |p: u16| st[k].contains(p) && !in_list(members@, m + 1, p),
                ) =~= (if covers(i, k) {
                    Set::new(|p: u16| st[k].contains(p) && !in_list(members@, m as int, p)).remove(
                        i,
                    )
                } else {
                    Set::new(|p: u16| st[k].contains(p) && !in_list(members@, m as int, p))
                }) by {
                    assert forall|p: u16|
                        in_list(members@, m + 1, p) == (in_list(members@, m as int, p) || p
                            == i) by {
                        if in_list(members@, m + 1, p) && p != i {
                            let a = choose|a: int| 0 <= a < m + 1 && members@[a] == p;
                            assert(a < m);
                        }
                        if p == i {
                            assert(members@[m as int] == p);
                        }
                    }
                }
                assert(cover_columns(*x) =~~= Map::new(
                    |k: u16| st.dom().contains(k),
                    |k: u16|
                        if k == j {
                            st[k]
                        } else {
                            Set::new(
                                |p: u16| st[k].contains(p) && !in_list(members@, m + 1, p),
                            )
                        },
                ));
            }
            m = m + 1;
        }
        let col = cover_remove(x, j);
        let col = col.unwrap();
        cols.push(col);
        proof {
            assert forall|k: u16| #[trigger] st.dom().contains(k) && k != j implies Set::new(
                |p: u16| st[k].contains(p) && !in_list(members@, members@.len() as int, p),
            ) =~= st[k].difference(st[j]) by {
                assert forall|p: u16|
                    in_list(members@, members@.len() as int, p) == st[j].contains(p) by {
                    if st[j].contains(p) {
                        assert(members@.to_set().contains(p));
                    }
                }
            }
            assert(cover_columns(*x) =~~= stage(s, r, t + 1));
            assert(cols@[t as int] == col);
        }
        t = t + 1;
    }
    cols
}

/// Undoes `select` of placement `r`, given the columns that it removed.
fn deselect(x: &mut Cover, r: u16, cols: &mut Vec<Column>, Ghost(s): Ghost<Set<u16>>)
    requires
        cover_columns(*old(x)) == live(s.insert(r)),
        consistent(s),
        is_placement(r),
        compatible(r, s),
        old(cols)@.len() == 4,
        forall|t: int|
            0 <= t < 4 ==> column_members(#[trigger] old(cols)@[t]) == stage(s, r, t)[constraint(
                r,
                t,
            )],
    ensures
        cover_columns(*final(x)) == live(s),
        final(cols)@.len() == 0,
{
    proof {
        lemma_stage_ends(s, r);
    }
    let mut t: usize = 4;
    while t > 0
        invariant
            consistent(s),
            is_placement(r),
            compatible(r, s),
            t <= 4,
            stage(s, r, 0) == live(s),
            cover_columns(*x) == stage(s, r, t as int),
            cols@.len() == t,
            forall|u: int|
                0 <= u < t ==> column_members(#[trigger] cols@[u]) == stage(s, r, u)[constraint(
                    r,
                    u,
                )],
        decreases t,
    {
        let ghost before = cols@;
        let col = cols.pop().unwrap();
        proof {
            assert(col == before[t - 1]);
        }
        let j = constraint_of(r, t - 1);
        proof {
            lemma_stage_step(s, r, t - 1);
        }
        let ghost st = stage(s, r, t - 1);
        let ghost later = stage(s, r, t as int);
        cover_insert(x, j, col);
        let members = column_list(x, j);
        proof {
            assert(cover_columns(*x) =~~= Map::new(
                |k: u16| st.dom().contains(k),
                |k: u16|
                    if k == j {
                        st[j]
                    } else {
                        later[k].union(Set::new(|p: u16| in_list(members@, 0, p) && covers(p, k)))
                    },
            ));
        }
        let mut m: usize = 0;
        while m < members.len()
            invariant
                st == stage(s, r, t - 1),
                later == stage(s, r, t as int),
                j == constraint(r, t - 1),
                st.dom().contains(j),
                m <= members@.len(),
                members@.to_set() == st[j],
                forall|k: u16|
                    #[trigger] st.dom().contains(k) ==> forall|p: u16|
                        st[k].contains(p) ==> is_placement(p) && covers(p, k),
                cover_columns(*x) == Map::new(
                    |k: u16| st.dom().contains(k),
                    |k: u16|
                        if k == j {
                            st[j]
                        } else {
                            later[k].union(
                                Set::new(|p: u16| in_list(members@, m as int, p) && covers(p, k)),
                            )
                        },
                ),
            decreases members@.len() - m,
        {
            let i = members[m];
            proof {
                assert(members@.to_set().contains(i));
            }
            attach(x, i, j);
            proof {
                assert forall|k: u16| #[trigger] st.dom().contains(k) && k != j implies later[k].union(
                    Set::new(|p: u16| in_list(members@, m + 1, p) && covers(p, k)),
                ) =~= (if covers(i, k) {
                    later[k].union(
                        Set::new(|p: u16| in_list(members@, m as int, p) && covers(p, k)),
                    ).insert(i)
                } else {
                    later[k].union(
                        Set::new(|p: u16| in_list(members@, m as int, p) && covers(p, k)),
                    )
                }) by {
                    assert forall|p: u16|
                        in_list(members@, m + 1, p) == (in_list(members@, m as int, p) || p
                            == i) by {
                        if in_list(members@, m + 1, p) && p != i {
                            let a = choose|a: int| 0 <= a < m + 1 && members@[a] == p;
                            assert(a < m);
                        }
                        if p == i {
                            assert(members@[m as int] == p);
                        }
                    }
                }
                assert(cover_columns(*x) =~~= Map::new(
                    |k: u16| st.dom().contains(k),
                    |k: u16|
                        if k == j {
                            st[j]
                        } else {
                            later[k].union(
                                Set::new(|p: u16| in_list(members@, m + 1, p) && covers(p, k)),
                            )
                        },
                ));
            }
            m = m + 1;
        }
        proof {
            assert forall|k: u16| #[trigger] st.dom().contains(k) && k != j implies later[k].union(
                Set::new(|p: u16| in_list(members@, members@.len() as int, p) && covers(p, k)),
            ) =~= st[k] by {
                assert(later.dom().contains(k));
                assert(Set::new(
                    |p: u16| in_list(members@, members@.len() as int, p) && covers(p, k),
                ) =~= st[j].filter(|p: u16| covers(p, k))) by {
                    assert forall|p: u16|
                        in_list(members@, members@.len() as int, p) == st[j].contains(p) by {
                        if st[j].contains(p) {
                            assert(members@.to_set().contains(p));
                        }
                    }
                }
            }
            assert(cover_columns(*x) =~~= st);
        }
        t = t - 1;
    }
}

/// The placements that search result `k` stands for: the givens and the ones found.
spec fn found(s0: Set<u16>, r: Seq<Vec<u16>>, k: int) -> Set<u16> {
    s0 + r[k]@.to_set()
}

proof fn lemma_live_dom_finite(s: Set<u16>)
    ensures
        live(s).dom().finite(),
{
    let all = Set::new(|j: u16| is_constraint(j));
    let ints = set_int_range(0, 324);
    lemma_int_range(0, 324);
    let f = |i: int| i as u16;
    ints.lemma_map_finite(f);
    assert(ints.map(f) =~= all) by {
        assert forall|j: u16| all.contains(j) implies ints.map(f).contains(j) by {
            assert(ints.contains(j as int));
            assert(f(j as int) == j);
        }
    }
    assert(live(s).dom().subset_of(all));
    vstd::set_lib::lemma_set_subset_finite(all, live(s).dom());
}

/// Choosing a compatible placement leaves fewer constraints to cover.
proof fn lemma_live_shrinks(s: Set<u16>, r: u16)
    requires
        consistent(s),
        is_placement(r),
        compatible(r, s),
    ensures
        consistent(s.insert(r)),
        live(s.insert(r)).dom().len() < live(s).dom().len(),
{
    lemma_clashes(r, r);
    assert forall|p: u16, q: u16|
        s.insert(r).contains(p) && s.insert(r).contains(q) && p != q implies !#[trigger] clashes(
        p,
        q,
    ) by {
        if p == r {
        } else if q == r {
            lemma_clashes(q, p);
        }
    }
    lemma_stage_ends(s, r);
    lemma_stage_step(s, r, 0);
    lemma_live_dom_finite(s);
    let j = constraint(r, 0);
    assert(live(s.insert(r)).dom().subset_of(live(s).dom().remove(j))) by {
        assert forall|k: u16| live(s.insert(r)).dom().contains(k) implies live(s).dom().remove(
            j,
        ).contains(k) by {
            assert(covers(r, j));
            if k == j {
                assert(covered(s.insert(r)).contains(j));
            }
            if covered(s).contains(k) {
                let q = choose|q: u16| s.contains(q) && #[trigger] covers(q, k);
                assert(covered(s.insert(r)).contains(k));
            }
        }
    }
    lemma_len_subset(live(s.insert(r)).dom(), live(s).dom().remove(j));
}

/// Two placements that satisfy one constraint clash.
proof fn lemma_same_column(p: u16, q: u16, c: u16)
    requires
        is_placement(p),
        is_placement(q),
        is_constraint(c),
        covers(p, c),
        covers(q, c),
    ensures
        clashes(p, q),
{
    let t = c as int / 81;
    lemma_covers_family(p, c, t);
    lemma_covers_family(q, c, t);
}

/// With every constraint covered, the chosen placements are the only exact cover that
/// holds them.
proof fn lemma_nothing_left(s: Set<u16>, f: Set<u16>)
    requires
        consistent(s),
        live(s).dom() =~= Set::empty(),
    ensures
        full(s),
        full(f) && s.subset_of(f) ==> f == s,
{
    assert forall|j: u16| is_constraint(j) implies #[trigger] covered(s).contains(j) by {
        assert(!live(s).dom().contains(j));
    }
    assert forall|p: u16| full(f) && s.subset_of(f) && f.contains(p) implies s.contains(p) by {
        lemma_constraint(p, 0);
        assert(covered(s).contains(constraint(p, 0)));
        let q = choose|q: u16| s.contains(q) && #[trigger] covers(q, constraint(p, 0));
        lemma_clashes(p, q);
        assert(clashes(p, q));
    }
    if full(f) && s.subset_of(f) {
        assert(f =~= s);
    }
}

/// An exact cover that holds the chosen placements holds one of the live placements
/// that satisfy a constraint still to cover.
proof fn lemma_cover_passes(s: Set<u16>, f: Set<u16>, c: u16) -> (p: u16)
    requires
        consistent(s),
        full(f),
        s.subset_of(f),
        live(s).dom().contains(c),
    ensures
        f.contains(p),
        live(s)[c].contains(p),
{
    assert(covered(f).contains(c));
    let p = choose|p: u16| f.contains(p) && #[trigger] covers(p, c);
    assert forall|q: u16| s.contains(q) implies !#[trigger] clashes(p, q) by {
        if q == p {
            assert(covered(s).contains(c));
        }
    }
    p
}

/// The exact-cover search. Every result extends `solution` to an exact cover (with the
/// givens `s0`), no two results stand for the same cover, at most `limit` come back when
/// `limit > 0`, and when fewer than `limit` (or any number, for 0) come back, every exact
/// cover that holds the chosen placements is among them. The index and `solution` are
/// restored on return.
fn solve(
    x: &mut Cover,
    solution: &mut Vec<u16>,
    limit: usize,
    Ghost(s0): Ghost<Set<u16>>,
    Ghost(chosen): Ghost<Set<u16>>,
) -> (r: Vec<Vec<u16>>)
    requires
        cover_columns(*old(x)) == live(chosen),
        consistent(chosen),
        chosen == s0 + old(solution)@.to_set(),
    ensures
        cover_columns(*final(x)) == live(chosen),
        final(solution)@ == old(solution)@,
        limit > 0 ==> r@.len() <= limit,
        forall|k: int|
            0 <= k < r@.len() ==> full(#[trigger] found(s0, r@, k)) && chosen.subset_of(
                found(s0, r@, k),
            ),
        forall|k1: int, k2: int|
            0 <= k1 < r@.len() && 0 <= k2 < r@.len() && k1 != k2 ==> #[trigger] found(s0, r@, k1)
                != #[trigger] found(s0, r@, k2),
        limit == 0 || r@.len() < limit ==> forall|f: Set<u16>|
            full(f) && chosen.subset_of(f) ==> exists|k: int|
                0 <= k < r@.len() && #[trigger] found(s0, r@, k) == f,
    decreases live(chosen).dom().len(),
{
    let keys = cover_keys(x);
    if keys.len() == 0 {
        let mut copy: Vec<u16> = Vec::new();
        let mut i: usize = 0;
        while i < solution.len()
            invariant
                i <= solution@.len(),
                copy@ == solution@.subrange(0, i as int),
            decreases solution@.len() - i,
        {
            copy.push(solution[i]);
            proof {
                assert(copy@ =~= solution@.subrange(0, i + 1));
            }
            i = i + 1;
        }
        proof {
            assert(copy@ =~= solution@);
            assert(live(chosen).dom() =~= Set::empty()) by {
                assert forall|j: u16| !live(chosen).dom().contains(j) by {
                    if live(chosen).dom().contains(j) {
                        assert(keys@.to_set().contains(j));
                        assert(keys@.contains(j));
                    }
                }
            }
        }
        let r = vec![copy];
        proof {
            assert(found(s0, r@, 0) == chosen);
            lemma_nothing_left(chosen, chosen);
            assert forall|f: Set<u16>| full(f) && chosen.subset_of(f) implies exists|k: int|
                0 <= k < r@.len() && #[trigger] found(s0, r@, k) == f by {
                lemma_nothing_left(chosen, f);
                assert(found(s0, r@, 0) == f);
            }
        }
        return r;
    }
    let mut best = keys[0];
    let mut best_len = column_len(x, best);
    let mut i: usize = 1;
    while i < keys.len()
        invariant
            1 <= i <= keys@.len(),
            keys@.contains(best),
        decreases keys@.len() - i,
    {
        let len = column_len(x, keys[i]);
        if len < best_len {
            best = keys[i];
            best_len = len;
        }
        i = i + 1;
    }
    let c = best;
    proof {
        assert(keys@.to_set().contains(c));
    }
    let members = column_list(x, c);
    let mut solutions: Vec<Vec<u16>> = Vec::new();
    let mut m: usize = 0;
    while m < members.len() && !(limit > 0 && solutions.len() >= limit)
        invariant
            cover_columns(*x) == live(chosen),
            consistent(chosen),
            chosen == s0 + solution@.to_set(),
            solution@ == old(solution)@,
            live(chosen).dom().contains(c),
            members@.to_set() == live(chosen)[c],
            members@.no_duplicates(),
            m <= members@.len(),
            limit > 0 ==> solutions@.len() <= limit,
            forall|k: int|
                0 <= k < solutions@.len() ==> full(#[trigger] found(s0, solutions@, k))
                    && chosen.subset_of(found(s0, solutions@, k)) && exists|a: int|
                    0 <= a < m && found(s0, solutions@, k).contains(members@[a]),
            forall|k1: int, k2: int|
                0 <= k1 < solutions@.len() && 0 <= k2 < solutions@.len() && k1 != k2
                    ==> #[trigger] found(s0, solutions@, k1) != #[trigger] found(
                    s0,
                    solutions@,
                    k2,
                ),
            limit == 0 || solutions@.len() < limit ==> forall|f: Set<u16>|
                full(f) && chosen.subset_of(f) && (exists|a: int|
                    0 <= a < m && f.contains(#[trigger] members@[a])) ==> exists|k: int|
                    0 <= k < solutions@.len() && #[trigger] found(s0, solutions@, k) == f,
        decreases members@.len() - m,
    {
        let p = members[m];
        proof {
            assert(members@.to_set().contains(p));
            lemma_live_shrinks(chosen, p);
        }
        solution.push(p);
        proof {
            assert forall|y: u16| solution@.contains(y) == old(solution)@.to_set().insert(
                p,
            ).contains(y) by {
                if solution@.contains(y) && y != p {
                    let a = choose|a: int| 0 <= a < solution@.len() && solution@[a] == y;
                    assert(old(solution)@[a] == y);
                }
                if y == p {
                    assert(solution@[solution@.len() - 1] == y);
                }
                if old(solution)@.contains(y) {
                    let a = choose|a: int| 0 <= a < old(solution)@.len() && old(solution)@[a] == y;
                    assert(solution@[a] == y);
                }
            }
            assert(solution@.to_set() =~= old(solution)@.to_set().insert(p));
            assert(chosen.insert(p) =~= s0 + solution@.to_set());
        }
        let mut cols = select(x, p, Ghost(chosen));
        let remaining = if limit > 0 {
            limit - solutions.len()
        } else {
            0
        };
        let mut sub = solve(x, solution, remaining, Ghost(s0), Ghost(chosen.insert(p)));
        deselect(x, p, &mut cols, Ghost(chosen));
        solution.pop();
        proof {
            assert(solution@ =~= old(solution)@);
        }
        let ghost before = solutions@;
        let ghost subs = sub@;
        solutions.append(&mut sub);
        proof {
            assert(solutions@ =~= before + subs);
            assert forall|k: int| 0 <= k < subs.len() implies found(s0, solutions@, before.len() + k)
                == found(s0, subs, k) by {
                assert(solutions@[before.len() + k] == subs[k]);
            }
            assert forall|k: int| 0 <= k < before.len() implies found(s0, solutions@, k) == found(
                s0,
                before,
                k,
            ) by {
                assert(solutions@[k] == before[k]);
            }
            assert forall|k: int| 0 <= k < subs.len() implies #[trigger] found(
                s0,
                subs,
                k,
            ).contains(p) by {
                assert(chosen.insert(p).subset_of(found(s0, subs, k)));
            }
            assert forall|k: int| 0 <= k < solutions@.len() implies full(
                #[trigger] found(s0, solutions@, k),
            ) && chosen.subset_of(found(s0, solutions@, k)) && exists|a: int|
                0 <= a < m + 1 && found(s0, solutions@, k).contains(members@[a]) by {
                if k >= before.len() {
                    assert(found(s0, solutions@, k) == found(s0, subs, k - before.len()));
                    assert(found(s0, solutions@, k).contains(members@[m as int]));
                } else {
                    assert(found(s0, solutions@, k) == found(s0, before, k));
                    let a = choose|a: int|
                        0 <= a < m && found(s0, before, k).contains(members@[a]);
                    assert(found(s0, solutions@, k).contains(members@[a]));
                }
            }
            assert forall|k1: int, k2: int|
                0 <= k1 < solutions@.len() && 0 <= k2 < solutions@.len() && k1 != k2 implies #[trigger] found(
                s0,
                solutions@,
                k1,
            ) != #[trigger] found(s0, solutions@, k2) by {
                if k1 >= before.len() && k2 >= before.len() {
                    assert(found(s0, solutions@, k1) == found(s0, subs, k1 - before.len()));
                    assert(found(s0, solutions@, k2) == found(s0, subs, k2 - before.len()));
                } else if k1 < before.len() && k2 < before.len() {
                    assert(found(s0, solutions@, k1) == found(s0, before, k1));
                    assert(found(s0, solutions@, k2) == found(s0, before, k2));
                } else {
                    let (kn, ko) = if k1 >= before.len() {
                        (k1, k2)
                    } else {
                        (k2, k1)
                    };
                    let f = found(s0, solutions@, kn);
                    assert(f == found(s0, subs, kn - before.len()));
                    assert(f.contains(p));
                    assert(found(s0, solutions@, ko) == found(s0, before, ko));
                    let a = choose|a: int|
                        0 <= a < m && found(s0, before, ko).contains(members@[a]);
                    if f == found(s0, solutions@, ko) {
                        let q = members@[a];
                        assert(members@.to_set().contains(q));
                        assert(q != p);
                        lemma_same_column(p, q, c);
                        assert(consistent(f));
                    }
                }
            }
            if limit == 0 || solutions@.len() < limit {
                assert(remaining == 0 || subs.len() < remaining);
                assert forall|f: Set<u16>|
                    full(f) && chosen.subset_of(f) && (exists|a: int|
                        0 <= a < m + 1 && f.contains(#[trigger] members@[a])) implies exists|k: int|
                    0 <= k < solutions@.len() && #[trigger] found(s0, solutions@, k) == f by {
                    if f.contains(p) {
                        assert(chosen.insert(p).subset_of(f));
                        let k = choose|k: int| 0 <= k < subs.len() && #[trigger] found(s0, subs, k) == f;
                        assert(found(s0, solutions@, before.len() + k) == f);
                    } else {
                        let a = choose|a: int| 0 <= a < m + 1 && f.contains(#[trigger] members@[a]);
                        assert(a < m);
                        let k = choose|k: int|
                            0 <= k < before.len() && #[trigger] found(s0, before, k) == f;
                        assert(found(s0, solutions@, k) == f);
                    }
                }
            }
        }
        m = m + 1;
    }
    proof {
        if limit == 0 || solutions@.len() < limit {
            assert(m == members@.len());
            assert forall|f: Set<u16>| full(f) && chosen.subset_of(f) implies exists|k: int|
                0 <= k < solutions@.len() && #[trigger] found(s0, solutions@, k) == f by {
                let q = lemma_cover_passes(chosen, f, c);
                assert(members@.to_set().contains(q));
                let a = choose|a: int| 0 <= a < members@.len() && members@[a] == q;
                assert(f.contains(members@[a]));
            }
        }
    }
    solutions
}

/// The values of each grid.
pub open spec fn grid_values(r: Seq<Grid>) -> Seq<Seq<u8>> {
    r.map_values(|g: Grid| g@)
}

/// What solving `g` with `limit` may return: solutions of `g`, each once, at most `limit`
/// of them when `limit > 0`, and all of them unless `limit` were reached.
pub open spec fn solve_result(g: Seq<u8>, limit: usize, r: Seq<Seq<u8>>) -> bool {
    &&& forall|k: int| 0 <= k < r.len() ==> is_solution(g, #[trigger] r[k])
    &&& forall|k1: int, k2: int|
        0 <= k1 < r.len() && 0 <= k2 < r.len() && k1 != k2 ==> #[trigger] r[k1] != #[trigger] r[k2]
    &&& limit > 0 ==> r.len() <= limit
    &&& limit == 0 || r.len() < limit ==> forall|s: Seq<u8>|
        is_solution(g, s) ==> exists|k: int| 0 <= k < r.len() && #[trigger] r[k] == s
}

/// Whether `g` has exactly one solution.
pub open spec fn unique_solution(g: Seq<u8>) -> bool {
    &&& exists|s: Seq<u8>| is_solution(g, s)
    &&& forall|s1: Seq<u8>, s2: Seq<u8>| is_solution(g, s1) && is_solution(g, s2) ==> s1 == s2
}

/// A grid with exactly one solution gives exactly one result, whatever the limit.
pub proof fn lemma_unique_solves_once(g: Seq<u8>, limit: usize, r: Seq<Seq<u8>>)
    requires
        unique_solution(g),
        solve_result(g, limit, r),
    ensures
        r.len() == 1,
{
    let s = choose|s: Seq<u8>| is_solution(g, s);
    if r.len() == 0 {
        assert(limit == 0 || r.len() < limit);
        assert(exists|k: int| 0 <= k < r.len() && #[trigger] r[k] == s);
    }
    if r.len() > 1 {
        assert(is_solution(g, r[0]) && is_solution(g, r[1]));
        assert(r[0] != r[1]);
    }
}

/// Solving the same grid twice with the same limit gives the same grids, up to order,
/// when the first call did not reach the limit (or there was none).
pub proof fn lemma_solve_idempotent(
    g: Seq<u8>,
    limit: usize,
    r1: Seq<Seq<u8>>,
    r2: Seq<Seq<u8>>,
)
    requires
        solve_result(g, limit, r1),
        solve_result(g, limit, r2),
        limit == 0 || r1.len() < limit,
    ensures
        r1.to_set() == r2.to_set(),
        r1.len() == r2.len(),
{
    assert forall|s: Seq<u8>| r2.to_set().contains(s) implies r1.to_set().contains(s) by {
        let k = choose|k: int| 0 <= k < r2.len() && r2[k] == s;
        assert(is_solution(g, r2[k]));
        let k1 = choose|k1: int| 0 <= k1 < r1.len() && #[trigger] r1[k1] == s;
    }
    assert(r1.no_duplicates());
    assert(r2.no_duplicates());
    r1.unique_seq_to_set();
    r2.unique_seq_to_set();
    lemma_len_subset(r2.to_set(), r1.to_set());
    if !(limit == 0 || r2.len() < limit) {
        assert(r2.len() == limit);
        assert(false);
    }
    assert forall|s: Seq<u8>| r1.to_set().contains(s) implies r2.to_set().contains(s) by {
        let k = choose|k: int| 0 <= k < r1.len() && r1[k] == s;
        assert(is_solution(g, r1[k]));
        let k2 = choose|k2: int| 0 <= k2 < r2.len() && #[trigger] r2[k2] == s;
    }
    assert(r1.to_set() =~= r2.to_set());
}

/// Whether `s` solves the puzzle `g`: 81 digits, complete and valid, keeping every
/// filled cell of `g`.
pub open spec fn is_solution(g: Seq<u8>, s: Seq<u8>) -> bool {
    &&& s.len() == 81
    &&& forall|i: int| 0 <= i < 81 ==> #[trigger] s[i] <= 9
    &&& values_complete(s)
    &&& values_valid(s)
    &&& forall|i: int| 0 <= i < 81 && g[i] != 0 ==> #[trigger] s[i] == g[i]
}

/// The placements that the values of `s` make.
pub open spec fn placements_of(s: Seq<u8>) -> Set<u16> {
    Set::new(|p: u16| is_placement(p) && s[cell_of(p)] as int == value_of(p))
}

/// The placements of the filled cells of `g` among the first `n`.
spec fn givens(g: Seq<u8>, n: int) -> Set<u16> {
    Set::new(|p: u16| is_placement(p) && cell_of(p) < n && g[cell_of(p)] as int == value_of(p))
}

/// The placement of an exact cover in cell `q`.
spec fn pick(f: Set<u16>, q: int) -> u16 {
    choose|p: u16| f.contains(p) && cell_of(p) == q
}

/// The values that an exact cover puts in the cells.
spec fn values_of(f: Set<u16>) -> Seq<u8> {
    Seq::new(81, |q: int| value_of(pick(f, q)) as u8)
}

proof fn lemma_placement(q: int, v: int)
    requires
        0 <= q < 81,
        1 <= v <= 9,
    ensures
        is_placement(placement(q, v)),
        cell_of(placement(q, v)) == q,
        value_of(placement(q, v)) == v,
{
}

/// Nine distinct peers of a row, column or box hold every digit.
pub proof fn lemma_unit_has_digit(s: Seq<u8>, unit: spec_fn(int) -> int, d: int)
    requires
        0 <= d < 9,
        s.len() == 81,
        forall|i: int| 0 <= i < 81 ==> #[trigger] s[i] <= 9,
        values_complete(s),
        values_valid(s),
        forall|k: int| 0 <= k < 9 ==> is_cell(#[trigger] unit(k)),
        forall|k1: int, k2: int|
            0 <= k1 < 9 && 0 <= k2 < 9 && k1 != k2 ==> is_peer(#[trigger] unit(k1), #[trigger] unit(k2)),
    ensures
        exists|k: int| 0 <= k < 9 && s[#[trigger] unit(k)] as int == d + 1,
{
    let x = set_int_range(0, 9);
    lemma_int_range(0, 9);
    let f = |k: int| s[unit(k)] as int - 1;
    assert(injective_on(f, x)) by {
        assert forall|k1: int, k2: int| x.contains(k1) && x.contains(k2) && #[trigger] f(k1) == #[trigger] f(k2) implies k1 == k2 by {
            if k1 != k2 {
                assert(is_peer(unit(k1), unit(k2)));
                assert(s[unit(k1)] != 0);
            }
        }
    }
    lemma_map_size(x, x.map(f), f);
    assert(x.map(f).subset_of(x)) by {
        assert forall|e: int| x.map(f).contains(e) implies x.contains(e) by {
            let k = choose|k: int| x.contains(k) && f(k) == e;
            assert(s[unit(k)] != 0);
        }
    }
    lemma_subset_equality(x.map(f), x);
    assert(x.contains(d));
    assert(x.map(f).contains(d));
    let k = choose|k: int| x.contains(k) && f(k) == d;
    assert(s[unit(k)] as int == d + 1);
}

/// Some placement of a solution satisfies constraint `j`.
proof fn lemma_constraint_met(g: Seq<u8>, s: Seq<u8>, j: u16) -> (p: u16)
    requires
        g.len() == 81,
        is_solution(g, s),
        is_constraint(j),
    ensures
        placements_of(s).contains(p),
        covers(p, j),
{
    let f = placements_of(s);
    let t = j as int / 81;
    let u = (j as int % 81) / 9;
    let d = j as int % 9;
    let q = if t == 0 {
        assert(s[j as int] != 0);
        j as int
    } else if t == 1 {
        let unit = |k: int| 9 * u + k;
        assert forall|k: int| 0 <= k < 9 implies #[trigger] row_of(unit(k)) == u && is_cell(unit(k)) by {
            lemma_cell_parts(u, k);
        }
        lemma_unit_has_digit(s, unit, d);
        let k = choose|k: int| 0 <= k < 9 && s[#[trigger] unit(k)] as int == d + 1;
        unit(k)
    } else if t == 2 {
        let unit = |k: int| 9 * k + u;
        assert forall|k: int| 0 <= k < 9 implies #[trigger] col_of(unit(k)) == u && is_cell(unit(k)) by {
            lemma_cell_parts(k, u);
        }
        lemma_unit_has_digit(s, unit, d);
        let k = choose|k: int| 0 <= k < 9 && s[#[trigger] unit(k)] as int == d + 1;
        unit(k)
    } else {
        let unit = |k: int| 9 * (u / 3 * 3 + k / 3) + (u % 3 * 3 + k % 3);
        assert forall|k: int| 0 <= k < 9 implies #[trigger] box_of(unit(k)) == u && is_cell(unit(k)) && row_of(unit(k)) == u / 3 * 3 + k / 3 && col_of(unit(k)) == u % 3 * 3 + k % 3 by {
            lemma_cell_parts(u / 3 * 3 + k / 3, u % 3 * 3 + k % 3);
        }
        assert forall|k1: int, k2: int| 0 <= k1 < 9 && 0 <= k2 < 9 && k1 != k2 implies is_peer(#[trigger] unit(k1), #[trigger] unit(k2)) by {
            assert(box_of(unit(k1)) == u && box_of(unit(k2)) == u);
            assert(row_of(unit(k1)) != row_of(unit(k2)) || col_of(unit(k1)) != col_of(unit(k2)));
        }
        lemma_unit_has_digit(s, unit, d);
        let k = choose|k: int| 0 <= k < 9 && s[#[trigger] unit(k)] as int == d + 1;
        unit(k)
    };
    let v = s[q] as int;
    lemma_placement(q, v);
    let p = placement(q, v);
    assert(f.contains(p));
    lemma_constraint(p, t);
    assert(covers(p, j));
    p
}

/// No two placements of a solution clash.
proof fn lemma_solution_consistent(g: Seq<u8>, s: Seq<u8>)
    requires
        g.len() == 81,
        is_solution(g, s),
    ensures
        consistent(placements_of(s)),
{
    let f = placements_of(s);
    assert forall|p: u16, q: u16| f.contains(p) && f.contains(q) && p != q implies !#[trigger] clashes(p, q) by {
        lemma_no_clash(g, s, p, q);
    }
}

proof fn lemma_no_clash(g: Seq<u8>, s: Seq<u8>, p: u16, q: u16)
    requires
        g.len() == 81,
        is_solution(g, s),
        placements_of(s).contains(p),
        placements_of(s).contains(q),
        p != q,
    ensures
        !clashes(p, q),
{
    lemma_constraint(p, 0);
    lemma_constraint(q, 0);
    let a = cell_of(p);
    let b = cell_of(q);
    if a != b {
        let ra = row_of(a);
        let rb = row_of(b);
        let ca = col_of(a);
        let cb = col_of(b);
        assert(0 <= ra < 9 && 0 <= rb < 9 && 0 <= ca < 9 && 0 <= cb < 9);
        assert(0 <= box_of(a) < 9 && 0 <= box_of(b) < 9) by {
            assert(ra / 3 < 3 && rb / 3 < 3 && ca / 3 < 3 && cb / 3 < 3);
        }
        assert(s[a] != 0);
        if clashes(p, q) {
            assert(ra == rb || ca == cb || box_of(a) == box_of(b));
            assert(is_peer(a, b));
            assert(s[a] == s[b]);
        }
    }
}

/// A solution's placements form an exact cover that holds the puzzle's givens.
proof fn lemma_solution_cover(g: Seq<u8>, s: Seq<u8>)
    requires
        g.len() == 81,
        is_solution(g, s),
    ensures
        full(placements_of(s)),
        givens(g, 81).subset_of(placements_of(s)),
{
    let f = placements_of(s);
    lemma_solution_consistent(g, s);
    assert forall|j: u16| is_constraint(j) implies #[trigger] covered(f).contains(j) by {
        let p = lemma_constraint_met(g, s, j);
    }
    assert forall|p: u16| givens(g, 81).contains(p) implies f.contains(p) by {
        lemma_constraint(p, 0);
    }
}

/// An exact cover puts one digit in each cell, and the grid it makes is complete and
/// valid, keeps the givens it holds, and makes exactly its placements.
proof fn lemma_cover_solution(g: Seq<u8>, f: Set<u16>)
    requires
        g.len() == 81,
        forall|i: int| 0 <= i < 81 ==> #[trigger] g[i] <= 9,
        full(f),
        givens(g, 81).subset_of(f),
    ensures
        is_solution(g, values_of(f)),
        placements_of(values_of(f)) == f,
        forall|q: int| 0 <= q < 81 ==> f.contains(#[trigger] pick(f, q)) && cell_of(pick(f, q)) == q,
{
    assert forall|q: int| 0 <= q < 81 implies f.contains(#[trigger] pick(f, q)) && cell_of(pick(f, q)) == q && 1 <= value_of(pick(f, q)) <= 9 by {
        let j = q as u16;
        assert(covered(f).contains(j));
        let p = choose|p: u16| f.contains(p) && #[trigger] covers(p, j);
        lemma_covers_family(p, j, 0);
        lemma_constraint(p, 0);
        lemma_constraint(pick(f, q), 0);
    }
    let v = values_of(f);
    assert forall|a: int, b: int| #![trigger v[a], v[b]] is_peer(a, b) && v[a] > 0 implies v[a] != v[b] by {
        let pa = pick(f, a);
        let pb = pick(f, b);
        if v[a] == v[b] {
            lemma_constraint(pa, 1);
            lemma_constraint(pb, 1);
            lemma_constraint(pa, 2);
            lemma_constraint(pb, 2);
            lemma_constraint(pa, 3);
            lemma_constraint(pb, 3);
            assert(clashes(pa, pb));
        }
    }
    assert forall|p: u16| f.contains(p) implies placements_of(v).contains(p) by {
        lemma_constraint(p, 0);
        let q = cell_of(p);
        assert(f.contains(pick(f, q)) && cell_of(pick(f, q)) == q);
        lemma_constraint(pick(f, q), 0);
        if pick(f, q) != p {
            assert(clashes(p, pick(f, q)));
        }
        assert(v[q] as int == value_of(p));
    }
    assert forall|p: u16| placements_of(v).contains(p) implies f.contains(p) by {
        lemma_constraint(p, 0);
        let q = cell_of(p);
        lemma_constraint(pick(f, q), 0);
    }
    assert(placements_of(v) =~= f);
    assert forall|i: int| 0 <= i < 81 && g[i] != 0 implies #[trigger] v[i] == g[i] by {
        lemma_placement(i, g[i] as int);
        let p = placement(i, g[i] as int);
        assert(givens(g, 81).contains(p));
        lemma_constraint(pick(f, i), 0);
        lemma_constraint(p, 0);
        if pick(f, i) != p {
            assert(clashes(p, pick(f, i)));
        }
    }
}

/// Grids of digits with the same placements are equal.
proof fn lemma_placements_equal(a: Seq<u8>, b: Seq<u8>)
    requires
        a.len() == 81,
        b.len() == 81,
        forall|i: int| 0 <= i < 81 ==> 1 <= #[trigger] a[i] <= 9,
        forall|i: int| 0 <= i < 81 ==> 1 <= #[trigger] b[i] <= 9,
        placements_of(a) == placements_of(b),
    ensures
        a == b,
{
    assert forall|i: int| 0 <= i < 81 implies a[i] == b[i] by {
        lemma_placement(i, a[i] as int);
        assert(placements_of(a).contains(placement(i, a[i] as int)));
    }
    assert(a =~= b);
}

/// Every solution of `grid`, up to `limit` of them (all when `limit` is 0), each once, as
/// a copy of `grid` with the empty cells filled. Fewer than `limit` come back only when
/// there are no more; a grid whose givens already conflict has none.
pub fn alx_solve(grid: &Grid, limit: usize) -> (r: Vec<Grid>)
    requires
        grid.wf(),
    ensures
        solve_result(grid@, limit, grid_values(r@)),
        forall|k: int|
            0 <= k < r@.len() ==> (#[trigger] r@[k]).wf() && r@[k].frozen_flags()
                == grid.frozen_flags(),
{
    let mut x = exact_cover();
    let ghost mut chosen: Set<u16> = Set::empty();
    proof {
        grid.lemma_wf();
        assert(chosen =~= givens(grid@, 0));
    }
    let mut q: usize = 0;
    while q < 81
        invariant
            grid.wf(),
            q <= 81,
            grid@.len() == 81,
            cover_columns(x) == live(chosen),
            consistent(chosen),
            chosen == givens(grid@, q as int),
        decreases 81 - q,
    {
        let v = grid.get(q);
        if v > 0 {
            let p = (q * 9 + (v as usize) - 1) as u16;
            proof {
                lemma_placement(q as int, v as int);
                assert(p == placement(q as int, v as int));
            }
            if !(cover_has(&x, constraint_of(p, 0)) && cover_has(&x, constraint_of(p, 1))
                && cover_has(&x, constraint_of(p, 2)) && cover_has(&x, constraint_of(p, 3))) {
                proof {
                    let t = choose|t: int|
                        0 <= t < 4 && !live(chosen).dom().contains(#[trigger] constraint(p, t));
                    lemma_constraint(p, t);
                    let j = constraint(p, t);
                    assert(covered(chosen).contains(j));
                    let o = choose|o: u16| chosen.contains(o) && #[trigger] covers(o, j);
                    lemma_clashes(p, o);
                    assert(clashes(p, o));
                    assert forall|s: Seq<u8>| !is_solution(grid@, s) by {
                        if is_solution(grid@, s) {
                            lemma_solution_cover(grid@, s);
                            assert(givens(grid@, 81).contains(p));
                            assert(givens(grid@, 81).contains(o));
                        }
                    }
                }
                return Vec::new();
            }
            proof {
                assert forall|o: u16| chosen.contains(o) implies !#[trigger] clashes(p, o) by {
                    lemma_clashes(p, o);
                    if clashes(p, o) {
                        let t = choose|t: int| 0 <= t < 4 && #[trigger] covers(o, constraint(p, t));
                        assert(covered(chosen).contains(constraint(p, t)));
                    }
                }
                lemma_live_shrinks(chosen, p);
            }
            let _cols = select(&mut x, p, Ghost(chosen));
            proof {
                chosen = chosen.insert(p);
            }
        }
        proof {
            assert(chosen =~= givens(grid@, q + 1)) by {
                assert forall|o: u16| givens(grid@, q + 1).contains(o) implies chosen.contains(o) by {
                    lemma_constraint(o, 0);
                }
                assert forall|o: u16| chosen.contains(o) implies givens(grid@, q + 1).contains(o) by {
                    lemma_constraint(o, 0);
                }
            }
        }
        q = q + 1;
    }
    let mut solution: Vec<u16> = Vec::new();
    proof {
        assert(chosen =~= chosen + solution@.to_set());
    }
    let results = solve(&mut x, &mut solution, limit, Ghost(chosen), Ghost(chosen));
    let ghost s0 = chosen;
    let mut grids: Vec<Grid> = Vec::new();
    let mut k: usize = 0;
    while k < results.len()
        invariant
            grid.wf(),
            grid@.len() == 81,
            forall|i: int| 0 <= i < 81 ==> #[trigger] grid@[i] <= 9,
            s0 == givens(grid@, 81),
            k <= results@.len(),
            grids@.len() == k,
            forall|a: int| 0 <= a < results@.len() ==> full(#[trigger] found(s0, results@, a)),
            forall|a: int|
                0 <= a < k ==> (#[trigger] grids@[a]).wf() && grids@[a]@ == values_of(
                    found(s0, results@, a),
                ) && grids@[a].frozen_flags() == grid.frozen_flags(),
        decreases results@.len() - k,
    {
        let t = &results[k];
        let ghost f = found(s0, results@, k as int);
        proof {
            assert(full(f));
            assert(s0.subset_of(f));
        }
        let mut g = *grid;
        proof {
            assert(g.frozen_flags() == grid.frozen_flags());
            assert forall|a: int| 0 <= a < t@.len() implies is_placement(#[trigger] t@[a]) by {
                assert(t@.to_set().contains(t@[a]));
            }
        }
        let mut i: usize = 0;
        while i < t.len()
            invariant
                grid@.len() == 81,
                forall|a: int| 0 <= a < t@.len() ==> is_placement(#[trigger] t@[a]),
                g.wf(),
                g@.len() == 81,
                g.frozen_flags() == grid.frozen_flags(),
                i <= t@.len(),
                f == s0 + t@.to_set(),
                s0 == givens(grid@, 81),
                full(f),
                forall|q: int|
                    0 <= q < 81 && (forall|a: int| 0 <= a < i ==> cell_of(#[trigger] t@[a]) != q)
                        ==> g@[q] == grid@[q],
                forall|a: int| 0 <= a < i ==> g@[cell_of(#[trigger] t@[a])] as int == value_of(t@[a]),
            decreases t@.len() - i,
        {
            let p = t[i];
            proof {
                assert(t@.to_set().contains(p));
                lemma_constraint(p, 0);
            }
            g.place((p / 9) as usize, (p % 9 + 1) as u8);
            proof {
                assert forall|a: int| 0 <= a < i implies 0 <= cell_of(#[trigger] t@[a]) < 81 by {
                    lemma_constraint(t@[a], 0);
                }
                assert forall|a: int| 0 <= a < i + 1 implies g@[cell_of(#[trigger] t@[a])] as int
                    == value_of(t@[a]) by {
                    if a < i && cell_of(t@[a]) == cell_of(p) {
                        assert(t@.to_set().contains(t@[a]));
                        lemma_constraint(t@[a], 0);
                        if t@[a] != p {
                            assert(clashes(p, t@[a]));
                        }
                    }
                }
            }
            i = i + 1;
        }
        proof {
            lemma_cover_solution(grid@, f);
            assert forall|q: int| 0 <= q < 81 implies g@[q] == values_of(f)[q] by {
                let pq = pick(f, q);
                lemma_constraint(pq, 0);
                if exists|a: int| 0 <= a < t@.len() && cell_of(#[trigger] t@[a]) == q {
                    let a = choose|a: int| 0 <= a < t@.len() && cell_of(#[trigger] t@[a]) == q;
                    assert(t@.to_set().contains(t@[a]));
                    lemma_constraint(t@[a], 0);
                    if t@[a] != pq {
                        assert(clashes(pq, t@[a]));
                    }
                } else {
                    if t@.to_set().contains(pq) {
                        let a = choose|a: int| 0 <= a < t@.len() && t@[a] == pq;
                        assert(cell_of(t@[a]) == q);
                    }
                    assert(s0.contains(pq));
                }
            }
            assert(g@ =~= values_of(f));
        }
        grids.push(g);
        k = k + 1;
    }
    proof {
        let gv = grid_values(grids@);
        assert(gv.len() == grids@.len());
        assert forall|a: int| 0 <= a < grids@.len() implies #[trigger] gv[a] == grids@[a]@ by {}
        assert forall|a: int| 0 <= a < grids@.len() implies is_solution(
            grid@,
            (#[trigger] grids@[a])@,
        ) && placements_of(grids@[a]@) == found(s0, results@, a) by {
            lemma_cover_solution(grid@, found(s0, results@, a));
        }
        assert forall|k1: int, k2: int|
            0 <= k1 < grids@.len() && 0 <= k2 < grids@.len() && k1 != k2 implies (
            #[trigger] grids@[k1])@ != (#[trigger] grids@[k2])@ by {
            assert(found(s0, results@, k1) != found(s0, results@, k2));
        }
        if limit == 0 || grids@.len() < limit {
            assert forall|s: Seq<u8>| is_solution(grid@, s) implies exists|k: int|
                0 <= k < gv.len() && #[trigger] gv[k] == s by {
                lemma_solution_cover(grid@, s);
                let k = choose|k: int|
                    0 <= k < results@.len() && #[trigger] found(s0, results@, k) == placements_of(s);
                assert(placements_of(grids@[k]@) == placements_of(s));
                lemma_placements_equal(grids@[k]@, s);
                assert(gv[k] == s);
            }
        }
        assert forall|k1: int, k2: int|
            0 <= k1 < gv.len() && 0 <= k2 < gv.len() && k1 != k2 implies #[trigger] gv[k1]
            != #[trigger] gv[k2] by {
            assert(grids@[k1]@ != grids@[k2]@);
        }
        assert forall|k: int| 0 <= k < gv.len() implies is_solution(grid@, #[trigger] gv[k]) by {
            assert(is_solution(grid@, grids@[k]@));
        }
    }
    grids
}

} // verus!

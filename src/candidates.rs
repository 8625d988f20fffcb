//! The set of digits still possible for one cell, as a 9-bit value.

use vstd::prelude::*;

verus! {

/// Whether bit `i` of `v` is set.
pub open spec fn bit(v: u16, i: u16) -> bool {
    (v >> i) & 1u16 == 1u16
}

/// The digit indices 0..9.
pub open spec fn all_digits() -> Set<int> {
    Set::new(|i: int| 0 <= i < 9)
}

proof fn lemma_bits_of_full(j: u16)
    requires
        j < 9,
    ensures
        bit(511u16, j),
        !bit(0u16, j),
{
    assert(((511u16 >> j) & 1u16 == 1u16) && ((0u16 >> j) & 1u16 != 1u16)) by (bit_vector)
        requires
            j < 9,
    ;
}

proof fn lemma_set_bit(v: u16, i: u16, j: u16)
    requires
        v < 512,
        i < 9,
        j < 9,
    ensures
        (v | (1u16 << i)) < 512,
        bit(v | (1u16 << i), j) == (i == j || bit(v, j)),
        (v & !(1u16 << i)) < 512,
        bit(v & !(1u16 << i), j) == (i != j && bit(v, j)),
        ((1u16 << i) & v > 0) == bit(v, i),
{
    assert((v | (1u16 << i)) < 512 && (v & !(1u16 << i)) < 512) by (bit_vector)
        requires
            v < 512,
            i < 9,
    ;
    assert(((((v | (1u16 << i)) >> j) & 1u16 == 1u16) == (i == j || (v >> j) & 1u16 == 1u16))
        && ((((v & !(1u16 << i)) >> j) & 1u16 == 1u16) == (i != j && (v >> j) & 1u16 == 1u16)))
        by (bit_vector)
        requires
            i < 9,
            j < 9,
    ;
    assert((((1u16 << i) & v) > 0) == ((v >> i) & 1u16 == 1u16)) by (bit_vector)
        requires
            i < 9,
    ;
}

proof fn lemma_empty_bits(v: u16)
    requires
        v < 512,
    ensures
        (v == 0) == (forall|j: u16| j < 9 ==> !bit(v, j)),
{
    if v != 0 {
        assert(exists|j: u16| j < 9 && bit(v, j)) by {
            assert(v != 0 && v < 512 ==> (v & 1u16 == 1u16 || (v >> 1u16) & 1u16 == 1u16
                || (v >> 2u16) & 1u16 == 1u16 || (v >> 3u16) & 1u16 == 1u16
                || (v >> 4u16) & 1u16 == 1u16 || (v >> 5u16) & 1u16 == 1u16
                || (v >> 6u16) & 1u16 == 1u16 || (v >> 7u16) & 1u16 == 1u16
                || (v >> 8u16) & 1u16 == 1u16)) by (bit_vector);
            assert((v >> 0u16) == v) by (bit_vector);
            if bit(v, 0) {
            } else if bit(v, 1) {
            } else if bit(v, 2) {
            } else if bit(v, 3) {
            } else if bit(v, 4) {
            } else if bit(v, 5) {
            } else if bit(v, 6) {
            } else if bit(v, 7) {
            } else {
                assert(bit(v, 8));
            }
        }
    } else {
        assert forall|j: u16| j < 9 implies !bit(v, j) by {
            lemma_bits_of_full(j);
        }
    }
}

/// The set of digits still possible for one cell, as a 9-bit value:
/// bit `i` is set when digit `i + 1` is possible.
#[derive(Debug, Copy, Clone)]
pub struct Candidates {
    value: u16,
}

impl View for Candidates {
    type V = Set<int>;

    /// The digit indices (0 for digit 1, ..., 8 for digit 9) that are set.
    closed spec fn view(&self) -> Set<int> {
        Set::new(|i: int| 0 <= i < 9 && bit(self.value, i as u16))
    }
}

impl Candidates {
    #[verifier::type_invariant]
    spec fn inv(self) -> bool {
        self.value < 512
    }

    /// Every digit possible (`all`), or none.
    pub fn new(all: bool) -> (r: Candidates)
        ensures
            r@ == (if all { all_digits() } else { Set::<int>::empty() }),
    {
        let r = Candidates { value: if all { 511 } else { 0 } };
        proof {
            assert forall|j: u16| j < 9 implies bit(511u16, j) && !bit(0u16, j) by {
                lemma_bits_of_full(j);
            }
            assert(r@ =~= (if all { all_digits() } else { Set::<int>::empty() }));
        }
        r
    }

    /// The bits as a number below 512.
    pub fn value(self) -> (r: u16)
        ensures
            r < 512,
            forall|i: u16| i < 9 ==> (bit(r, i) <==> self@.contains(i as int)),
            forall|i: u16| 9 <= i < 16 ==> !bit(r, i),
            (r == 0) == self@.is_empty(),
            self@.subset_of(all_digits()),
    {
        proof {
            use_type_invariant(self);
            self.lemma_empty();
            let v = self.value;
            assert(forall|i: u16| 9 <= i < 16 ==> (v >> i) & 1u16 != 1u16) by (bit_vector)
                requires
                    v < 512,
            ;
        }
        self.value
    }

    /// Whether digit index `candidate` is set.
    pub fn get(self, candidate: usize) -> (r: bool)
        requires
            candidate < 9,
        ensures
            r == self@.contains(candidate as int),
    {
        proof {
            use_type_invariant(self);
            lemma_set_bit(self.value, candidate as u16, candidate as u16);
        }
        ((1u16 << (candidate as u16)) & self.value) > 0
    }

    /// Sets every digit.
    pub fn set_all(&mut self)
        ensures
            final(self)@ == all_digits(),
    {
        self.value = 511;
        proof {
            assert forall|j: u16| j < 9 implies bit(511u16, j) by {
                lemma_bits_of_full(j);
            }
            assert(self@ =~= all_digits());
        }
    }

    /// Sets digit index `candidate`.
    pub fn set(&mut self, candidate: usize)
        requires
            candidate < 9,
        ensures
            final(self)@ == old(self)@.insert(candidate as int),
    {
        proof {
            use_type_invariant(&*self);
        }
        let ghost v = self.value;
        let next = self.value | (1u16 << (candidate as u16));
        proof {
            lemma_set_bit(v, candidate as u16, 0);
        }
        self.value = next;
        proof {
            assert forall|j: u16| j < 9 implies bit(self.value, j) == (candidate as u16 == j || bit(
                v,
                j,
            )) by {
                lemma_set_bit(v, candidate as u16, j);
            }
            lemma_set_bit(v, candidate as u16, 0);
            assert(self@ =~= old(self)@.insert(candidate as int));
        }
    }

    /// Clears every digit.
    pub fn unset_all(&mut self)
        ensures
            final(self)@ == Set::<int>::empty(),
    {
        self.value = 0;
        proof {
            assert forall|j: u16| j < 9 implies !bit(0u16, j) by {
                lemma_bits_of_full(j);
            }
            assert(self@ =~= Set::<int>::empty());
        }
    }

    /// Clears digit index `candidate`.
    pub fn unset(&mut self, candidate: usize)
        requires
            candidate < 9,
        ensures
            final(self)@ == old(self)@.remove(candidate as int),
    {
        proof {
            use_type_invariant(&*self);
        }
        let ghost v = self.value;
        let next = self.value & !(1u16 << (candidate as u16));
        proof {
            lemma_set_bit(v, candidate as u16, 0);
        }
        self.value = next;
        proof {
            assert forall|j: u16| j < 9 implies bit(self.value, j) == (candidate as u16 != j && bit(
                v,
                j,
            )) by {
                lemma_set_bit(v, candidate as u16, j);
            }
            lemma_set_bit(v, candidate as u16, 0);
            assert(self@ =~= old(self)@.remove(candidate as int));
        }
    }

    /// Whether any digit is set.
    pub fn some(self) -> (r: bool)
        ensures
            r == !self@.is_empty(),
            self@.subset_of(all_digits()),
    {
        proof {
            use_type_invariant(self);
            self.lemma_empty();
        }
        self.value > 0
    }

    /// Whether no digit is set.
    pub fn none(self) -> (r: bool)
        ensures
            r == self@.is_empty(),
            self@.subset_of(all_digits()),
    {
        proof {
            use_type_invariant(self);
            self.lemma_empty();
        }
        self.value == 0
    }

    proof fn lemma_empty(self)
        requires
            self.value < 512,
        ensures
            (self.value == 0) == self@.is_empty(),
            self@.subset_of(all_digits()),
    {
        lemma_empty_bits(self.value);
        if self.value == 0 {
            assert(self@ =~= Set::<int>::empty());
        } else {
            let j = choose|j: u16| j < 9 && bit(self.value, j);
            assert(self@.contains(j as int));
        }
    }

    /// The number of digits set.
    pub fn count(self) -> (r: usize)
        ensures
            r == self@.len(),
            r <= 9,
            self@.subset_of(all_digits()),
    {
        let mut count: usize = 0;
        let mut i: usize = 0;
        let ghost seen = Set::<int>::empty();
        while i < 9
            invariant
                i <= 9,
                count <= i,
                seen == self@.filter(|j: int| j < i),
                count == seen.len(),
                seen.finite(),
            decreases 9 - i,
        {
            let ghost before = seen;
            if self.get(i) {
                count = count + 1;
                proof {
                    seen = seen.insert(i as int);
                }
            }
            proof {
                assert(seen =~= self@.filter(|j: int| j < i + 1));
            }
            i = i + 1;
        }
        proof {
            use_type_invariant(self);
            self.lemma_empty();
            assert(seen =~= self@);
            vstd::set_lib::lemma_int_range(0, 9);
            assert(all_digits() =~= vstd::set_lib::set_int_range(0, 9));
            vstd::set_lib::lemma_len_subset(self@, all_digits());
        }
        count
    }
}

} // verus!

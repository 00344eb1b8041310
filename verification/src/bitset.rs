use vstd::prelude::*;

use crate::digit::Digit;

verus! {

/// The set of digits still possible for one Sudoku cell, kept as a 9-bit mask.
/// Bit `i` of the mask stands for digit `i + 1`. The contract speaks of the
/// abstract view: a sequence of 9 booleans, one per digit.
#[derive(Debug, Clone, Copy, PartialEq, Eq, Structural)]
pub struct PossibleValues {
    mask: u16,
}

/// Whether bit `i` of `m` is set.
pub open spec fn bit_at(m: u16, i: int) -> bool {
    (m >> (i as u16)) & 1 == 1
}

impl View for PossibleValues {
    type V = Seq<bool>;

    closed spec fn view(&self) -> Seq<bool> {
        Seq::new(9, |i: int| bit_at(self.mask, i))
    }
}

/// The number of `true` entries of a boolean sequence: the cardinality of the
/// candidate set it models.
pub open spec fn count_true(s: Seq<bool>) -> nat
    decreases s.len(),
{
    if s.len() == 0 {
        0
    } else {
        count_true(s.drop_last()) + if s.last() {
            1nat
        } else {
            0nat
        }
    }
}

/// The view of a set holding exactly the digit `d`.
pub open spec fn singleton_view(d: int) -> Seq<bool> {
    Seq::new(9, |i: int| i == d - 1)
}

/// The view of the universal set: every digit possible.
pub open spec fn full_view() -> Seq<bool> {
    Seq::new(9, |i: int| true)
}

/// The view of the empty (broken) set.
pub open spec fn empty_view() -> Seq<bool> {
    Seq::new(9, |i: int| false)
}

/// Pointwise union of two candidate-set views.
pub open spec fn union_view(x: Seq<bool>, y: Seq<bool>) -> Seq<bool> {
    Seq::new(9, |i: int| x[i] || y[i])
}

/// Pointwise intersection of two candidate-set views.
pub open spec fn inter_view(x: Seq<bool>, y: Seq<bool>) -> Seq<bool> {
    Seq::new(9, |i: int| x[i] && y[i])
}

/// The view after removing digit `d`.
pub open spec fn remove_view(x: Seq<bool>, d: int) -> Seq<bool> {
    Seq::new(9, |i: int| x[i] && i != d - 1)
}

/// The view after adding digit `d`.
pub open spec fn add_view(x: Seq<bool>, d: int) -> Seq<bool> {
    Seq::new(9, |i: int| x[i] || i == d - 1)
}

pub proof fn lemma_count_true_take_step(s: Seq<bool>, i: int)
    requires
        0 <= i < s.len(),
    ensures
        count_true(s.take(i + 1)) == count_true(s.take(i)) + if s[i] {
            1nat
        } else {
            0nat
        },
{
    assert(s.take(i + 1).drop_last() =~= s.take(i));
    assert(s.take(i + 1).last() == s[i]);
}

pub proof fn lemma_count_true_zero(s: Seq<bool>)
    ensures
        count_true(s) == 0 <==> (forall|i: int| 0 <= i < s.len() ==> !s[i]),
    decreases s.len(),
{
    if s.len() > 0 {
        lemma_count_true_zero(s.drop_last());
        assert(forall|i: int| 0 <= i < s.len() - 1 ==> s.drop_last()[i] == s[i]);
        if count_true(s) == 0 {
            assert(!s.last());
            assert(forall|i: int| 0 <= i < s.len() ==> !s[i]);
        }
    }
}

pub proof fn lemma_count_true_le_len(s: Seq<bool>)
    ensures
        count_true(s) <= s.len(),
    decreases s.len(),
{
    if s.len() > 0 {
        lemma_count_true_le_len(s.drop_last());
    }
}

pub proof fn lemma_count_true_member(s: Seq<bool>, a: int)
    requires
        0 <= a < s.len(),
        s[a],
    ensures
        count_true(s) >= 1,
    decreases s.len(),
{
    if a == s.len() - 1 {
    } else {
        lemma_count_true_member(s.drop_last(), a);
    }
}

pub proof fn lemma_count_true_two(s: Seq<bool>, a: int, b: int)
    requires
        0 <= a < b < s.len(),
        s[a],
        s[b],
    ensures
        count_true(s) >= 2,
    decreases s.len(),
{
    if b == s.len() - 1 {
        lemma_count_true_member(s.drop_last(), a);
    } else {
        lemma_count_true_two(s.drop_last(), a, b);
    }
}

pub proof fn lemma_count_true_unique(s: Seq<bool>, a: int)
    requires
        0 <= a < s.len(),
        s[a],
        forall|j: int| 0 <= j < s.len() && s[j] ==> j == a,
    ensures
        count_true(s) == 1,
    decreases s.len(),
{
    if a == s.len() - 1 {
        lemma_count_true_zero(s.drop_last());
        assert(forall|i: int| 0 <= i < s.len() - 1 ==> !s.drop_last()[i]);
    } else {
        assert(!s.last());
        lemma_count_true_unique(s.drop_last(), a);
    }
}

/// A pointwise-smaller view has no larger a cardinality.
pub proof fn lemma_count_true_subset(s1: Seq<bool>, s2: Seq<bool>)
    requires
        s1.len() == s2.len(),
        forall|i: int| 0 <= i < s1.len() && s1[i] ==> s2[i],
    ensures
        count_true(s1) <= count_true(s2),
    decreases s1.len(),
{
    if s1.len() > 0 {
        assert(forall|i: int|
            0 <= i < s1.len() - 1 && s1.drop_last()[i] ==> s2.drop_last()[i]);
        lemma_count_true_subset(s1.drop_last(), s2.drop_last());
    }
}

/// A strictly pointwise-smaller view has a strictly smaller cardinality.
pub proof fn lemma_count_true_subset_strict(s1: Seq<bool>, s2: Seq<bool>, w: int)
    requires
        s1.len() == s2.len(),
        forall|i: int| 0 <= i < s1.len() && s1[i] ==> s2[i],
        0 <= w < s1.len(),
        !s1[w],
        s2[w],
    ensures
        count_true(s1) < count_true(s2),
    decreases s1.len(),
{
    assert(forall|i: int| 0 <= i < s1.len() - 1 && s1.drop_last()[i] ==> s2.drop_last()[i]);
    if w == s1.len() - 1 {
        lemma_count_true_subset(s1.drop_last(), s2.drop_last());
    } else {
        lemma_count_true_subset_strict(s1.drop_last(), s2.drop_last(), w);
    }
}

impl PossibleValues {
    /// A set is well formed when only the nine digit bits can be set.
    pub closed spec fn wf(self) -> bool {
        self.mask < 512
    }

    /// The set with no candidates: the broken state.
    pub fn empty() -> (r: PossibleValues)
        ensures
            r.wf(),
            r@ == empty_view(),
    {
        let r = PossibleValues { mask: 0 };
        proof {
            assert forall|i: int| 0 <= i < 9 implies !bit_at(r.mask, i) by {
                let iu = i as u16;
                assert((0u16 >> iu) & 1 != 1) by (bit_vector);
            }
            assert(r@ =~= empty_view());
        }
        r
    }

    /// The universal set: every digit still possible.
    pub fn any() -> (r: PossibleValues)
        ensures
            r.wf(),
            r@ == full_view(),
    {
        let r = PossibleValues { mask: 0x1ff };
        proof {
            assert forall|i: int| 0 <= i < 9 implies bit_at(r.mask, i) by {
                let iu = i as u16;
                assert(iu < 9 ==> (0x1ffu16 >> iu) & 1 == 1) by (bit_vector);
            }
            assert(r@ =~= full_view());
        }
        r
    }

    /// The universal set if no digit is given, else the singleton set for it.
    pub fn initial_state(value: Option<Digit>) -> (r: PossibleValues)
        requires
            value matches Some(d) ==> d.wf(),
        ensures
            r.wf(),
            value matches Some(d) ==> r@ == singleton_view(d@) && count_true(r@) == 1,
            value is None ==> r@ == full_view(),
    {
        match value {
            Some(d) => PossibleValues::from_digit(d),
            None => PossibleValues::any(),
        }
    }

    /// True iff no candidate is left.
    pub fn is_broken(&self) -> (r: bool)
        requires
            self.wf(),
        ensures
            r <==> count_true(self@) == 0,
    {
        let r = self.mask == 0;
        proof {
            let m = self.mask;
            if m == 0 {
                assert forall|i: int| 0 <= i < 9 implies !bit_at(m, i) by {
                    let iu = i as u16;
                    assert((0u16 >> iu) & 1 != 1) by (bit_vector);
                }
            } else {
                lemma_count_true_zero(self@);
                if count_true(self@) == 0 {
                    assert(!self@[0] && !self@[1] && !self@[2] && !self@[3] && !self@[4]
                        && !self@[5] && !self@[6] && !self@[7] && !self@[8]);
                    assert((m >> 0) & 1 != 1 && (m >> 1) & 1 != 1 && (m >> 2) & 1 != 1 && (m
                        >> 3) & 1 != 1 && (m >> 4) & 1 != 1 && (m >> 5) & 1 != 1 && (m >> 6)
                        & 1 != 1 && (m >> 7) & 1 != 1 && (m >> 8) & 1 != 1 && m < 512 ==> m
                        == 0) by (bit_vector);
                    assert(false);
                }
            }
            lemma_count_true_zero(self@);
        }
        r
    }

    /// How many candidate digits remain, 0..=9.
    pub fn count(&self) -> (r: u8)
        requires
            self.wf(),
        ensures
            r == count_true(self@),
            r <= 9,
    {
        let mut c: u8 = 0;
        let mut i: u16 = 0;
        while i < 9
            invariant
                i <= 9,
                c <= i,
                c == count_true(self@.take(i as int)),
            decreases 9 - i,
        {
            proof {
                lemma_count_true_take_step(self@, i as int);
            }
            if (self.mask >> i) & 1 == 1 {
                c = c + 1;
            }
            i = i + 1;
        }
        proof {
            assert(self@.take(9) =~= self@);
        }
        c
    }

    /// True iff digit `d` is a member.
    pub fn contains(&self, d: Digit) -> (r: bool)
        requires
            self.wf(),
            d.wf(),
        ensures
            r == self@[d@ - 1],
    {
        (self.mask >> (d.index() as u16)) & 1 == 1
    }

    /// Include digit `d` in the set.
    pub fn add(&mut self, d: Digit)
        requires
            old(self).wf(),
            d.wf(),
        ensures
            final(self).wf(),
            final(self)@ == add_view(old(self)@, d@),
    {
        let k: u16 = d.index() as u16;
        let m = self.mask;
        self.mask = self.mask | (1u16 << k);
        proof {
            let m2 = m | (1u16 << k);
            assert(m < 512 && k < 9 ==> (m | (1u16 << k)) < 512) by (bit_vector);
            assert forall|i: int| 0 <= i < 9 implies bit_at(m2, i) == (bit_at(m, i) || i == k)
            by {
                let iu = i as u16;
                assert(iu < 9 && k < 9 ==> (((m | (1u16 << k)) >> iu) & 1 == 1 <==> ((m >> iu)
                    & 1 == 1 || iu == k))) by (bit_vector);
            }
            assert(final(self)@ =~= add_view(old(self)@, d@));
        }
    }

    /// Exclude digit `d` from the set; removing the last digit leaves the
    /// broken state.
    pub fn remove(&mut self, d: Digit)
        requires
            old(self).wf(),
            d.wf(),
        ensures
            final(self).wf(),
            final(self)@ == remove_view(old(self)@, d@),
    {
        let k: u16 = d.index() as u16;
        let m = self.mask;
        self.mask = self.mask & !(1u16 << k);
        proof {
            let m2 = m & !(1u16 << k);
            assert(m < 512 ==> (m & !(1u16 << k)) < 512) by (bit_vector);
            assert forall|i: int| 0 <= i < 9 implies bit_at(m2, i) == (bit_at(m, i) && i != k)
            by {
                let iu = i as u16;
                assert(iu < 9 && k < 9 ==> (((m & !(1u16 << k)) >> iu) & 1 == 1 <==> ((m >> iu)
                    & 1 == 1 && iu != k))) by (bit_vector);
            }
            assert(final(self)@ =~= remove_view(old(self)@, d@));
        }
    }

    /// Set intersection.
    pub fn intersect(self, other: PossibleValues) -> (r: PossibleValues)
        requires
            self.wf(),
            other.wf(),
        ensures
            r.wf(),
            r@ == inter_view(self@, other@),
    {
        let r = PossibleValues { mask: self.mask & other.mask };
        proof {
            let a = self.mask;
            let b = other.mask;
            assert(a < 512 ==> (a & b) < 512) by (bit_vector);
            assert forall|i: int| 0 <= i < 9 implies bit_at(a & b, i) == (bit_at(a, i) && bit_at(
                b, i)) by {
                let iu = i as u16;
                assert((((a & b) >> iu) & 1 == 1) <==> ((a >> iu) & 1 == 1 && (b >> iu) & 1
                    == 1)) by (bit_vector);
            }
            assert(r@ =~= inter_view(self@, other@));
        }
        r
    }

    /// Set union.
    pub fn union(self, other: PossibleValues) -> (r: PossibleValues)
        requires
            self.wf(),
            other.wf(),
        ensures
            r.wf(),
            r@ == union_view(self@, other@),
    {
        let r = PossibleValues { mask: self.mask | other.mask };
        proof {
            let a = self.mask;
            let b = other.mask;
            assert(a < 512 && b < 512 ==> (a | b) < 512) by (bit_vector);
            assert forall|i: int| 0 <= i < 9 implies bit_at(a | b, i) == (bit_at(a, i) || bit_at(
                b, i)) by {
                let iu = i as u16;
                assert((((a | b) >> iu) & 1 == 1) <==> ((a >> iu) & 1 == 1 || (b >> iu) & 1
                    == 1)) by (bit_vector);
            }
            assert(r@ =~= union_view(self@, other@));
        }
        r
    }

    /// The single remaining digit iff exactly one candidate is left.
    pub fn determined(&self) -> (r: Option<Digit>)
        requires
            self.wf(),
        ensures
            r is Some <==> count_true(self@) == 1,
            r matches Some(d) ==> d.wf() && self@[d@ - 1] && (forall|j: int|
                0 <= j < 9 && self@[j] ==> j == d@ - 1),
    {
        if self.count() == 1 {
            let mut i: u8 = 0;
            while i < 9
                invariant
                    self.wf(),
                    count_true(self@) == 1,
                    i <= 9,
                    forall|j: int| 0 <= j < i ==> !self@[j],
                decreases 9 - i,
            {
                if (self.mask >> (i as u16)) & 1 == 1 {
                    let d = Digit::unchecked(i + 1);
                    proof {
                        assert forall|j: int| 0 <= j < 9 && self@[j] implies j == i as int by {
                            if j < i as int {
                                assert(!self@[j]);
                            } else if j > i as int {
                                lemma_count_true_two(self@, i as int, j);
                            }
                        }
                    }
                    return Some(d);
                }
                i = i + 1;
            }
            proof {
                lemma_count_true_zero(self@);
                assert(false);
            }
            None
        } else {
            None
        }
    }

    /// The contained digits in ascending order.
    pub fn options(&self) -> (r: Vec<Digit>)
        requires
            self.wf(),
        ensures
            r@.len() == count_true(self@),
            forall|k: int| 0 <= k < r@.len() ==> (#[trigger] r@[k]).wf() && self@[r@[k]@ - 1],
            forall|k1: int, k2: int| 0 <= k1 < k2 < r@.len() ==> r@[k1]@ < r@[k2]@,
            forall|d: int|
                1 <= d <= 9 && #[trigger] self@[d - 1] ==> exists|k: int|
                    0 <= k < r@.len() && r@[k]@ == d,
    {
        let mut r: Vec<Digit> = Vec::new();
        let mut i: u8 = 0;
        while i < 9
            invariant
                self.wf(),
                i <= 9,
                r@.len() == count_true(self@.take(i as int)),
                forall|k: int| 0 <= k < r@.len() ==> (#[trigger] r@[k]).wf() && self@[r@[k]@ - 1],
                forall|k: int| 0 <= k < r@.len() ==> r@[k]@ <= i,
                forall|k1: int, k2: int| 0 <= k1 < k2 < r@.len() ==> r@[k1]@ < r@[k2]@,
                forall|d: int|
                    1 <= d <= i && #[trigger] self@[d - 1] ==> exists|k: int|
                        0 <= k < r@.len() && r@[k]@ == d,
            decreases 9 - i,
        {
            proof {
                lemma_count_true_take_step(self@, i as int);
            }
            let ghost r0 = r@;
            if (self.mask >> (i as u16)) & 1 == 1 {
                r.push(Digit::unchecked(i + 1));
            }
            proof {
                assert forall|d: int|
                    1 <= d <= i + 1 && #[trigger] self@[d - 1] implies exists|k: int|
                    0 <= k < r@.len() && r@[k]@ == d by {
                    if d == i + 1 {
                        assert(r@[r@.len() - 1]@ == d);
                    } else {
                        let k0 = choose|k: int| 0 <= k < r0.len() && r0[k]@ == d;
                        assert(r@[k0]@ == d);
                    }
                }
            }
            i = i + 1;
        }
        proof {
            assert(self@.take(9) =~= self@);
        }
        r
    }
}

/// The view of a candidate set always has nine entries.
pub broadcast proof fn lemma_pv_view_len(pv: PossibleValues)
    ensures
        (#[trigger] pv@).len() == 9,
{
}

/// Two well-formed sets with the same view hold the same mask.
pub proof fn lemma_view_injective(a: PossibleValues, b: PossibleValues)
    requires
        a.wf(),
        b.wf(),
        a@ == b@,
    ensures
        a == b,
{
    let x = a.mask;
    let y = b.mask;
    assert forall|i: int| 0 <= i < 9 implies bit_at(x, i) == bit_at(y, i) by {
        assert(a@[i] == bit_at(x, i));
        assert(b@[i] == bit_at(y, i));
        assert(a@[i] == b@[i]);
    }
    assert(bit_at(x, 0) == bit_at(y, 0) && bit_at(x, 1) == bit_at(y, 1) && bit_at(x, 2)
        == bit_at(y, 2) && bit_at(x, 3) == bit_at(y, 3) && bit_at(x, 4) == bit_at(y, 4)
        && bit_at(x, 5) == bit_at(y, 5) && bit_at(x, 6) == bit_at(y, 6) && bit_at(x, 7)
        == bit_at(y, 7) && bit_at(x, 8) == bit_at(y, 8));
    assert(((x >> 0) & 1 == 1 <==> (y >> 0) & 1 == 1) && ((x >> 1) & 1 == 1 <==> (y >> 1) & 1
        == 1) && ((x >> 2) & 1 == 1 <==> (y >> 2) & 1 == 1) && ((x >> 3) & 1 == 1 <==> (y
        >> 3) & 1 == 1) && ((x >> 4) & 1 == 1 <==> (y >> 4) & 1 == 1) && ((x >> 5) & 1 == 1
        <==> (y >> 5) & 1 == 1) && ((x >> 6) & 1 == 1 <==> (y >> 6) & 1 == 1) && ((x >> 7) & 1
        == 1 <==> (y >> 7) & 1 == 1) && ((x >> 8) & 1 == 1 <==> (y >> 8) & 1 == 1) && x < 512
        && y < 512 ==> x == y) by (bit_vector);
    assert(a.mask == b.mask);
}

impl PossibleValues {
    /// The singleton set holding exactly `d`.
    pub fn from_digit(d: Digit) -> (r: PossibleValues)
        requires
            d.wf(),
        ensures
            r.wf(),
            r@ == singleton_view(d@),
            count_true(r@) == 1,
    {
        let r = PossibleValues { mask: 1u16 << (d.index() as u16) };
        proof {
            let k: u16 = (d@ - 1) as u16;
            assert(k < 9 ==> (1u16 << k) < 512) by (bit_vector);
            assert forall|i: int| 0 <= i < 9 implies bit_at(1u16 << k, i) == (i == k) by {
                let iu = i as u16;
                assert(iu < 9 && k < 9 ==> (((1u16 << k) >> iu) & 1 == 1 <==> iu == k))
                    by (bit_vector);
            }
            assert(r@ =~= singleton_view(d@));
            lemma_count_true_unique(r@, d@ - 1);
        }
        r
    }
}

/// Union of candidate sets is commutative.
pub proof fn lemma_union_comm(x: Seq<bool>, y: Seq<bool>)
    ensures
        union_view(x, y) == union_view(y, x),
{
    assert(union_view(x, y) =~= union_view(y, x));
}

/// Union of candidate sets is idempotent.
pub proof fn lemma_union_idem(x: Seq<bool>)
    requires
        x.len() == 9,
    ensures
        union_view(x, x) == x,
{
    assert(union_view(x, x) =~= x);
}

/// Union of candidate sets is associative.
pub proof fn lemma_union_assoc(x: Seq<bool>, y: Seq<bool>, z: Seq<bool>)
    ensures
        union_view(union_view(x, y), z) == union_view(x, union_view(y, z)),
{
    assert(union_view(union_view(x, y), z) =~= union_view(x, union_view(y, z)));
}

/// The empty set is the identity of union.
pub proof fn lemma_union_empty(x: Seq<bool>)
    requires
        x.len() == 9,
    ensures
        union_view(x, empty_view()) == x,
{
    assert(union_view(x, empty_view()) =~= x);
}

/// Intersection of candidate sets is commutative.
pub proof fn lemma_inter_comm(x: Seq<bool>, y: Seq<bool>)
    ensures
        inter_view(x, y) == inter_view(y, x),
{
    assert(inter_view(x, y) =~= inter_view(y, x));
}

/// Intersection of a candidate set with itself is itself.
pub proof fn lemma_inter_self(x: Seq<bool>)
    requires
        x.len() == 9,
    ensures
        inter_view(x, x) == x,
{
    assert(inter_view(x, x) =~= x);
}

/// Intersection of candidate sets is associative.
pub proof fn lemma_inter_assoc(x: Seq<bool>, y: Seq<bool>, z: Seq<bool>)
    ensures
        inter_view(inter_view(x, y), z) == inter_view(x, inter_view(y, z)),
{
    assert(inter_view(inter_view(x, y), z) =~= inter_view(x, inter_view(y, z)));
}

/// The universal set is the identity of intersection.
pub proof fn lemma_inter_any(x: Seq<bool>)
    requires
        x.len() == 9,
    ensures
        inter_view(x, full_view()) == x,
{
    assert(inter_view(x, full_view()) =~= x);
}

/// Intersecting two singleton sets of different digits yields the broken state.
pub proof fn lemma_disjoint_singletons(d1: int, d2: int)
    requires
        1 <= d1 <= 9,
        1 <= d2 <= 9,
        d1 != d2,
    ensures
        inter_view(singleton_view(d1), singleton_view(d2)) == empty_view(),
        count_true(inter_view(singleton_view(d1), singleton_view(d2))) == 0,
{
    assert(inter_view(singleton_view(d1), singleton_view(d2)) =~= empty_view());
    lemma_count_true_zero(empty_view());
}

/// Removing the only digit of a singleton set yields the broken state.
pub proof fn lemma_remove_last(d: int)
    requires
        1 <= d <= 9,
    ensures
        remove_view(singleton_view(d), d) == empty_view(),
        count_true(remove_view(singleton_view(d), d)) == 0,
{
    assert(remove_view(singleton_view(d), d) =~= empty_view());
    lemma_count_true_zero(empty_view());
}

} // verus!

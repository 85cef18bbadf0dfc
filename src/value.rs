use vstd::prelude::*;

verus! {

/// One of the nine digits of a board. The digit `One` sits at bit position 0.
#[derive(Debug, Clone, Copy, PartialEq, Eq, Structural)]
pub enum Value {
    One,
    Two,
    Three,
    Four,
    Five,
    Six,
    Seven,
    Eight,
    Nine,
}

/// The bit position of a digit.
pub open spec fn digit(v: Value) -> nat {
    match v {
        Value::One => 0,
        Value::Two => 1,
        Value::Three => 2,
        Value::Four => 3,
        Value::Five => 4,
        Value::Six => 5,
        Value::Seven => 6,
        Value::Eight => 7,
        Value::Nine => 8,
    }
}

/// Two digits with the same bit position are the same digit.
pub proof fn lemma_digit_injective(a: Value, b: Value)
    ensures
        digit(a) == digit(b) <==> a == b,
        digit(a) < 9,
{
}

impl Value {
    /// The digit at bit position `val`.
    pub fn from_u8(val: u8) -> (r: Value)
        requires
            val < 9,
        ensures
            digit(r) == val,
    {
        match val {
            0 => Value::One,
            1 => Value::Two,
            2 => Value::Three,
            3 => Value::Four,
            4 => Value::Five,
            5 => Value::Six,
            6 => Value::Seven,
            7 => Value::Eight,
            _ => Value::Nine,
        }
    }

    /// The bit position of this digit.
    pub fn to_u8(self) -> (r: u8)
        ensures
            r == digit(self),
            r < 9,
    {
        match self {
            Value::One => 0,
            Value::Two => 1,
            Value::Three => 2,
            Value::Four => 3,
            Value::Five => 4,
            Value::Six => 5,
            Value::Seven => 6,
            Value::Eight => 7,
            Value::Nine => 8,
        }
    }
}

/// Whether bit `d` of `s` is set.
pub open spec fn has_bit(s: u16, d: u16) -> bool {
    (s >> d) & 1u16 == 1u16
}

/// The digits (bit positions 0 to 8) whose bits are set in `s`.
pub open spec fn bits_view(s: u16) -> Set<nat> {
    Set::new(|d: nat| d < 9 && has_bit(s, d as u16))
}

/// The set of all nine digits.
pub open spec fn all_digits() -> Set<nat> {
    Set::new(|d: nat| d < 9)
}

/// The digits below `n` whose bits are set in `s`.
spec fn bits_below(s: u16, n: nat) -> Set<nat> {
    Set::new(|d: nat| d < n && d < 9 && has_bit(s, d as u16))
}

proof fn lemma_bits_or(a: u16, b: u16)
    by (bit_vector)
    ensures
        forall|d: u16| #[trigger] has_bit(a | b, d) == (has_bit(a, d) || has_bit(b, d)),
{
}

proof fn lemma_bits_and(a: u16, b: u16)
    by (bit_vector)
    ensures
        forall|d: u16| #[trigger] has_bit(a & b, d) == (has_bit(a, d) && has_bit(b, d)),
{
}

proof fn lemma_bits_and_not(a: u16, b: u16)
    by (bit_vector)
    ensures
        forall|d: u16| #[trigger] has_bit(a & !b, d) == (has_bit(a, d) && !has_bit(b, d)),
{
}

proof fn lemma_bits_single(e: u16)
    by (bit_vector)
    requires
        e < 9,
    ensures
        forall|d: u16| d < 16 ==> #[trigger] has_bit(1u16 << e, d) == (d == e),
        (1u16 << e) < 512,
{
}

proof fn lemma_bits_bounds(a: u16, b: u16)
    by (bit_vector)
    requires
        a < 512,
        b < 512,
    ensures
        (a | b) < 512,
        (a & b) < 512,
        (a & !b) < 512,
{
}

proof fn lemma_bits_ext(a: u16, b: u16)
    by (bit_vector)
    requires
        a < 512,
        b < 512,
        has_bit(a, 0) == has_bit(b, 0),
        has_bit(a, 1) == has_bit(b, 1),
        has_bit(a, 2) == has_bit(b, 2),
        has_bit(a, 3) == has_bit(b, 3),
        has_bit(a, 4) == has_bit(b, 4),
        has_bit(a, 5) == has_bit(b, 5),
        has_bit(a, 6) == has_bit(b, 6),
        has_bit(a, 7) == has_bit(b, 7),
        has_bit(a, 8) == has_bit(b, 8),
    ensures
        a == b,
{
}

proof fn lemma_bits_zero()
    by (bit_vector)
    ensures
        forall|d: u16| !#[trigger] has_bit(0u16, d),
        forall|d: u16| d < 9 ==> #[trigger] has_bit(511u16, d),
{
}

proof fn lemma_bits_step(s: u16, i: u16)
    by (bit_vector)
    requires
        i < 16,
    ensures
        ((s >> i) & 1u16 == 1u16) == has_bit(s, i),
        (s >> i) & 1u16 <= 1u16,
{
}

/// Two well-formed sets of digits with the same members are the same value.
proof fn lemma_view_ext_bits(a: u16, b: u16)
    requires
        a < 512,
        b < 512,
        bits_view(a) == bits_view(b),
    ensures
        a == b,
{
    assert forall|d: nat| d < 9 implies #[trigger] has_bit(a, d as u16) == has_bit(b, d as u16) by {
        assert(bits_view(a).contains(d) <==> has_bit(a, d as u16));
        assert(bits_view(b).contains(d) <==> has_bit(b, d as u16));
    }
    assert(has_bit(a, 0nat as u16) == has_bit(b, 0nat as u16));
    assert(has_bit(a, 1nat as u16) == has_bit(b, 1nat as u16));
    assert(has_bit(a, 2nat as u16) == has_bit(b, 2nat as u16));
    assert(has_bit(a, 3nat as u16) == has_bit(b, 3nat as u16));
    assert(has_bit(a, 4nat as u16) == has_bit(b, 4nat as u16));
    assert(has_bit(a, 5nat as u16) == has_bit(b, 5nat as u16));
    assert(has_bit(a, 6nat as u16) == has_bit(b, 6nat as u16));
    assert(has_bit(a, 7nat as u16) == has_bit(b, 7nat as u16));
    assert(has_bit(a, 8nat as u16) == has_bit(b, 8nat as u16));
    lemma_bits_ext(a, b);
}

/// A set of digits kept as a 16-bit word whose low nine bits are used.
#[derive(Debug, Clone, Copy, PartialEq, Eq, Structural)]
pub struct ValueSet {
    set: u16,
}

impl ValueSet {
    #[verifier::type_invariant]
    spec fn bits_in_range(self) -> bool {
        self.set < 512
    }
}

impl View for ValueSet {
    type V = Set<nat>;

    closed spec fn view(&self) -> Set<nat> {
        bits_view(self.set)
    }
}

/// Every set of digits is finite, holds digits below 9 only, and has at most nine members.
pub proof fn lemma_digit_set_bounds(s: Set<nat>)
    requires
        s.subset_of(all_digits()),
    ensures
        s.finite(),
        s.len() <= 9,
        all_digits().finite(),
        all_digits().len() == 9,
{
    assert(all_digits() =~= Set::range(0nat, 9nat));
    vstd::set_lib::range_set_properties::<nat>(0nat, 9nat);
    vstd::set_lib::lemma_len_subset(s, all_digits());
}

impl ValueSet {
    /// Only the low nine bits may be set.
    pub closed spec fn wf(&self) -> bool {
        self.set < 512
    }

    /// A well-formed set holds digits below 9 only.
    pub proof fn lemma_wf(&self)
        requires
            self.wf(),
        ensures
            self@.subset_of(all_digits()),
            self@.finite(),
            self@.len() <= 9,
    {
        lemma_digit_set_bounds(self@);
    }

    /// Two well-formed sets with the same members are equal.
    pub proof fn lemma_ext(&self, other: &ValueSet)
        requires
            self.wf(),
            other.wf(),
            self@ == other@,
        ensures
            *self == *other,
    {
        lemma_view_ext_bits(self.set, other.set);
    }

    /// The set whose members are the bits set in `value`.
    pub fn new(value: u16) -> (r: ValueSet)
        requires
            value < 512,
        ensures
            r.wf(),
            r@ == bits_view(value),
    {
        ValueSet { set: value }
    }

    /// The empty set.
    pub fn empty() -> (r: ValueSet)
        ensures
            r.wf(),
            r@ == Set::<nat>::empty(),
    {
        proof {
            lemma_bits_zero();
            assert(bits_view(0u16) =~= Set::<nat>::empty());
        }
        ValueSet { set: 0 }
    }

    /// The set of all nine digits.
    pub fn full() -> (r: ValueSet)
        ensures
            r.wf(),
            r@ == all_digits(),
    {
        proof {
            lemma_bits_zero();
            assert forall|d: nat| all_digits().contains(d) implies bits_view(511u16).contains(d) by {
                assert(has_bit(511u16, d as u16));
            }
            assert(bits_view(511u16) =~= all_digits());
        }
        ValueSet { set: 511 }
    }

    pub fn contains(&self, value: &Value) -> (r: bool)
        ensures
            r == self@.contains(digit(*value)),
    {
        let d = value.to_u8() as u16;
        let bit_val: u16 = 1u16 << d;
        proof {
            let s = self.set;
            assert((s & bit_val == bit_val) == has_bit(s, d)) by (bit_vector)
                requires
                    bit_val == 1u16 << d,
                    d < 9,
            ;
        }
        self.set & bit_val == bit_val
    }

    pub fn insert(&mut self, value: Value)
        requires
            old(self).wf(),
        ensures
            final(self).wf(),
            final(self)@ == old(self)@.insert(digit(value)),
    {
        let d = value.to_u8() as u16;
        let bit_val: u16 = 1u16 << d;
        proof {
            lemma_bits_single(d);
            lemma_bits_or(self.set, bit_val);
            lemma_bits_bounds(self.set, bit_val);
            assert(bits_view(self.set | bit_val) =~= bits_view(self.set).insert(digit(value)));
        }
        self.set = self.set | bit_val;
    }

    pub fn remove(&mut self, value: &Value)
        requires
            old(self).wf(),
        ensures
            final(self).wf(),
            final(self)@ == old(self)@.remove(digit(*value)),
    {
        let d = value.to_u8() as u16;
        let bit_val: u16 = 1u16 << d;
        proof {
            lemma_bits_single(d);
            lemma_bits_and_not(self.set, bit_val);
            lemma_bits_bounds(self.set, bit_val);
            assert(bits_view(self.set & !bit_val) =~= bits_view(self.set).remove(digit(*value)));
        }
        self.set = self.set & !bit_val;
    }

    pub fn clear(&mut self)
        ensures
            final(self).wf(),
            final(self)@ == Set::<nat>::empty(),
    {
        *self = ValueSet::empty();
    }

    /// The number of digits in the set.
    pub fn len(&self) -> (r: u8)
        requires
            self.wf(),
        ensures
            r == self@.len(),
            r <= 9,
    {
        let mut count: u8 = 0;
        let mut i: u16 = 0;
        proof {
            assert(bits_below(self.set, 0) =~= Set::<nat>::empty());
        }
        while i < 9
            invariant
                i <= 9,
                count <= i,
                bits_below(self.set, i as nat).finite(),
                bits_below(self.set, i as nat).len() == count,
            decreases 9 - i,
        {
            proof {
                lemma_bits_step(self.set, i);
            }
            let bit = (self.set >> i) & 1u16;
            proof {
                if bit == 1 {
                    assert(bits_below(self.set, (i + 1) as nat) =~= bits_below(
                        self.set,
                        i as nat,
                    ).insert(i as nat));
                } else {
                    assert(bits_below(self.set, (i + 1) as nat) =~= bits_below(
                        self.set,
                        i as nat,
                    ));
                }
            }
            count = count + bit as u8;
            i = i + 1;
        }
        proof {
            assert(bits_below(self.set, 9) =~= self@);
        }
        count
    }

    pub fn is_empty(&self) -> (r: bool)
        requires
            self.wf(),
        ensures
            r == (self@ == Set::<nat>::empty()),
    {
        proof {
            lemma_bits_zero();
            assert(bits_view(0u16) =~= Set::<nat>::empty());
            if self@ == Set::<nat>::empty() {
                lemma_view_ext_bits(self.set, 0u16);
            }
        }
        self.set == 0
    }

    /// Whether all nine digits are in the set.
    pub fn is_full(&self) -> (r: bool)
        requires
            self.wf(),
        ensures
            r == (self@ == all_digits()),
    {
        let f = ValueSet::full();
        proof {
            if self@ == all_digits() {
                lemma_view_ext_bits(self.set, f.set);
            }
        }
        self.set == f.set
    }

    /// The digits in either set.
    pub fn union(&self, other: &ValueSet) -> (r: ValueSet)
        requires
            self.wf(),
            other.wf(),
        ensures
            r.wf(),
            r@ == self@.union(other@),
    {
        proof {
            lemma_bits_or(self.set, other.set);
            lemma_bits_bounds(self.set, other.set);
            assert(bits_view(self.set | other.set) =~= self@.union(other@));
        }
        ValueSet { set: self.set | other.set }
    }

    /// The digits in both sets.
    pub fn intersection(&self, other: &ValueSet) -> (r: ValueSet)
        requires
            self.wf(),
            other.wf(),
        ensures
            r.wf(),
            r@ == self@.intersect(other@),
    {
        proof {
            lemma_bits_and(self.set, other.set);
            lemma_bits_bounds(self.set, other.set);
            assert(bits_view(self.set & other.set) =~= self@.intersect(other@));
        }
        ValueSet { set: self.set & other.set }
    }

    /// The digits of this set that are not in `other`.
    pub fn difference(&self, other: &ValueSet) -> (r: ValueSet)
        requires
            self.wf(),
            other.wf(),
        ensures
            r.wf(),
            r@ == self@.difference(other@),
    {
        proof {
            lemma_bits_and_not(self.set, other.set);
            lemma_bits_bounds(self.set, other.set);
            assert(bits_view(self.set & !other.set) =~= self@.difference(other@));
        }
        ValueSet { set: self.set & !other.set }
    }

    /// Whether every digit of this set is in `other`.
    pub fn is_subset(&self, other: &ValueSet) -> (r: bool)
        requires
            self.wf(),
            other.wf(),
        ensures
            r == self@.subset_of(other@),
    {
        let both = self.intersection(other);
        proof {
            if self@.subset_of(other@) {
                assert(both@ =~= self@);
                both.lemma_ext(self);
            }
        }
        both.set == self.set
    }

    /// Takes the lowest digit out of the set and returns it; `None` once the set is empty.
    pub fn next(&mut self) -> (r: Option<Value>)
        requires
            old(self).wf(),
        ensures
            final(self).wf(),
            old(self)@ == Set::<nat>::empty() ==> r is None && final(self)@ == old(self)@,
            old(self)@ != Set::<nat>::empty() ==> (r matches Some(v) && old(self)@.contains(digit(v))
                && (forall|d: nat| old(self)@.contains(d) ==> digit(v) <= d)
                && final(self)@ == old(self)@.remove(digit(v))),
    {
        let mut i: u8 = 0;
        while i < 9
            invariant
                i <= 9,
                self.wf(),
                *self == *old(self),
                forall|d: nat| d < i ==> !self@.contains(d),
            decreases 9 - i,
        {
            let v = Value::from_u8(i);
            if self.contains(&v) {
                self.remove(&v);
                return Some(v);
            }
            i = i + 1;
        }
        proof {
            assert(self@ =~= Set::<nat>::empty());
        }
        None
    }
}

/// The order of inclusion: equal sets are equal, a proper superset is greater, a proper
/// subset is less, and two sets that hold different digits each are not ordered.
pub open spec fn inclusion_order(a: Set<nat>, b: Set<nat>) -> Option<core::cmp::Ordering> {
    if a == b {
        Some(core::cmp::Ordering::Equal)
    } else if b.subset_of(a) {
        Some(core::cmp::Ordering::Greater)
    } else if a.subset_of(b) {
        Some(core::cmp::Ordering::Less)
    } else {
        None
    }
}

impl PartialOrd for ValueSet {
    fn partial_cmp(&self, other: &ValueSet) -> (r: Option<core::cmp::Ordering>) {
        proof {
            use_type_invariant(self);
            use_type_invariant(other);
        }
        if self.set == other.set {
            return Some(core::cmp::Ordering::Equal);
        }
        proof {
            if self@ == other@ {
                self.lemma_ext(other);
            }
        }
        if other.is_subset(self) {
            return Some(core::cmp::Ordering::Greater);
        }
        if self.is_subset(other) {
            return Some(core::cmp::Ordering::Less);
        }
        None
    }
}

impl vstd::std_specs::cmp::PartialOrdSpecImpl for ValueSet {
    open spec fn obeys_partial_cmp_spec() -> bool {
        true
    }

    open spec fn partial_cmp_spec(&self, other: &ValueSet) -> Option<core::cmp::Ordering> {
        inclusion_order(self@, other@)
    }
}

} // verus!

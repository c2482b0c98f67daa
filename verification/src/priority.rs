//! Transfer priorities and sets of priorities.

use vstd::prelude::*;
use vstd::std_specs::convert::FromSpec;
use vstd::std_specs::convert::FromSpecImpl;
use vstd::std_specs::convert::TryFromSpec;
use vstd::std_specs::convert::TryFromSpecImpl;
use vstd::std_specs::ops::BitAndSpecImpl;
use vstd::std_specs::ops::BitOrSpecImpl;
use vstd::std_specs::ops::NotSpecImpl;

verus! {

/// A number lies outside of the range of the type it is converted into.
#[derive(Debug, Clone, Copy, PartialEq, Eq, Structural)]
pub struct InvalidValue;

/// Transfer priority.
///
/// The numeric encoding is the one of the CAN identifier, thus the ordering is reversed:
/// a more urgent priority has a smaller code.
#[derive(Debug, Clone, Copy, PartialEq, Eq, PartialOrd, Ord, Structural)]
pub enum Priority {
    /// Sent only when a total system failure has occurred; not part of the bus load.
    Exceptional,
    /// High priority with the tightest latency constraints.
    Immediate,
    /// High priority with tight latency constraints.
    Fast,
    /// More important than nominal traffic, with looser latency requirements than `Fast`.
    High,
    /// The default priority of every message.
    Nominal,
    /// Sent under all conditions, and must not delay nominal messages.
    Low,
    /// No time sensitivity; sent eventually.
    Slow,
    /// Might never be sent; diagnostics and debugging.
    Optional,
}

impl Priority {
    /// The most urgent priority.
    pub const MIN: Priority = Priority::Exceptional;

    /// The least urgent priority.
    pub const MAX: Priority = Priority::Optional;

    /// The numeric code of a priority, in `0..8`.
    pub open spec fn code(self) -> u8 {
        match self {
            Priority::Exceptional => 0,
            Priority::Immediate => 1,
            Priority::Fast => 2,
            Priority::High => 3,
            Priority::Nominal => 4,
            Priority::Low => 5,
            Priority::Slow => 6,
            Priority::Optional => 7,
        }
    }

    /// The priority with the code `code % 8`.
    pub open spec fn of_code(code: int) -> Priority {
        let c = code % 8;
        if c == 0 {
            Priority::Exceptional
        } else if c == 1 {
            Priority::Immediate
        } else if c == 2 {
            Priority::Fast
        } else if c == 3 {
            Priority::High
        } else if c == 4 {
            Priority::Nominal
        } else if c == 5 {
            Priority::Low
        } else if c == 6 {
            Priority::Slow
        } else {
            Priority::Optional
        }
    }

    /// Returns the priority with the given code, if there is one.
    pub fn try_from_u8(code: u8) -> (r: Option<Priority>)
        ensures
            r == (if code <= 7 { Some(Priority::of_code(code as int)) } else { None }),
            r matches Some(p) ==> p.code() == code,
    {
        if code <= Priority::MAX.into_u8() {
            Some(Priority::from_u8_truncating(code))
        } else {
            None
        }
    }

    /// Returns the priority encoded by the three least significant bits of `code`.
    pub fn from_u8_truncating(code: u8) -> (r: Priority)
        ensures
            r == Priority::of_code(code as int),
            r.code() == code % 8,
    {
        assert(code & 0x7 == code % 8) by (bit_vector);
        match code & 0x7 {
            0 => Priority::Exceptional,
            1 => Priority::Immediate,
            2 => Priority::Fast,
            3 => Priority::High,
            4 => Priority::Nominal,
            5 => Priority::Low,
            6 => Priority::Slow,
            _ => Priority::Optional,
        }
    }

    /// Returns the numeric code.
    pub fn into_u8(self) -> (r: u8)
        ensures
            r == self.code(),
            r < 8,
    {
        match self {
            Priority::Exceptional => 0,
            Priority::Immediate => 1,
            Priority::Fast => 2,
            Priority::High => 3,
            Priority::Nominal => 4,
            Priority::Low => 5,
            Priority::Slow => 6,
            Priority::Optional => 7,
        }
    }

    /// Returns the next less urgent priority, or `None` for `Optional`.
    pub fn next(self) -> (r: Option<Self>)
        ensures
            r == (if self.code() < 7 { Some(Priority::of_code(self.code() + 1)) } else { None }),
    {
        Self::try_from_u8(self.into_u8() + 1)
    }

    /// Returns the next more urgent priority, or `None` for `Exceptional`.
    pub fn prev(self) -> (r: Option<Self>)
        ensures
            r == (if self.code() > 0 { Some(Priority::of_code(self.code() - 1)) } else { None }),
    {
        if let Some(code) = self.into_u8().checked_sub(1) {
            Some(Self::from_u8_truncating(code))
        } else {
            None
        }
    }
}

impl From<Priority> for u8 {
    fn from(value: Priority) -> Self {
        value.into_u8()
    }
}

impl FromSpecImpl<Priority> for u8 {
    open spec fn obeys_from_spec() -> bool {
        true
    }

    open spec fn from_spec(value: Priority) -> u8 {
        value.code()
    }
}

impl From<Priority> for usize {
    fn from(value: Priority) -> Self {
        value.into_u8() as usize
    }
}

impl FromSpecImpl<Priority> for usize {
    open spec fn obeys_from_spec() -> bool {
        true
    }

    open spec fn from_spec(value: Priority) -> usize {
        value.code() as usize
    }
}

impl TryFrom<u8> for Priority {
    type Error = InvalidValue;

    fn try_from(value: u8) -> Result<Self, InvalidValue> {
        match Self::try_from_u8(value) {
            Some(p) => Ok(p),
            None => Err(InvalidValue),
        }
    }
}

impl TryFromSpecImpl<u8> for Priority {
    open spec fn obeys_try_from_spec() -> bool {
        true
    }

    open spec fn try_from_spec(value: u8) -> Result<Self, InvalidValue> {
        if value <= 7 {
            Ok(Priority::of_code(value as int))
        } else {
            Err(InvalidValue)
        }
    }
}

/// Codes identify priorities: the code determines the priority, and every code below 8 occurs.
pub proof fn lemma_code_bijective(p: Priority, q: Priority)
    ensures
        p.code() == q.code() <==> p == q,
        Priority::of_code(p.code() as int) == p,
        forall|c: int| 0 <= c < 8 ==> (#[trigger] Priority::of_code(c)).code() == c,
{
}

/// Bit `i` of `bits`.
pub open spec fn bit(bits: u8, i: u8) -> bool {
    (bits >> i) & 1u8 == 1u8
}

/// What the bitwise operators do to each single bit.
pub(crate) proof fn lemma_bits(a: u8, b: u8, i: u8, j: u8)
    by (bit_vector)
    requires
        i < 8,
        j < 8,
    ensures
        bit(!a, i) == !bit(a, i),
        bit(a & b, i) == (bit(a, i) && bit(b, i)),
        bit(a | b, i) == (bit(a, i) || bit(b, i)),
        bit(1u8 << j, i) == (i == j),
        bit(0xffu8 << j, i) == (i >= j),
        bit(0xffu8 >> ((7 - j) as u8), i) == (i <= j),
        bit(0xffu8, i),
        !bit(0u8, i),
        ((a >> i) & 1u8 != 0u8) == bit(a, i),
{
}

/// A byte is determined by its bits.
pub(crate) proof fn lemma_bits_ext(a: u8, b: u8)
    by (bit_vector)
    requires
        bit(a, 0) == bit(b, 0),
        bit(a, 1) == bit(b, 1),
        bit(a, 2) == bit(b, 2),
        bit(a, 3) == bit(b, 3),
        bit(a, 4) == bit(b, 4),
        bit(a, 5) == bit(b, 5),
        bit(a, 6) == bit(b, 6),
        bit(a, 7) == bit(b, 7),
    ensures
        a == b,
{
}

/// A set of priorities.
///
/// A more urgent priority has a smaller code and is ordered first. The constructors are named
/// by the codes: `new_ge(Priority::Nominal)` holds `Nominal`, `Low`, `Slow` and `Optional`.
#[derive(Debug, Clone, Copy, PartialEq, Eq, Structural)]
pub struct PrioritySet(u8);

impl View for PrioritySet {
    type V = Set<Priority>;

    closed spec fn view(&self) -> Set<Priority> {
        Set::new(|p: Priority| bit(self.0, p.code()))
    }
}

/// Membership of each operation's result, stated bit by bit.
proof fn lemma_view(s: PrioritySet, p: Priority)
    ensures
        s@.contains(p) == bit(s.0, p.code()),
        p.code() < 8,
{
}

/// Two sets with the same members are equal.
pub proof fn lemma_set_ext(a: PrioritySet, b: PrioritySet)
    requires
        a@ == b@,
    ensures
        a == b,
{
    assert forall|i: u8| i < 8 implies bit(a.0, i) == bit(b.0, i) by {
        let p = Priority::of_code(i as int);
        assert(p.code() == i);
        lemma_view(a, p);
        lemma_view(b, p);
    }
    lemma_bits_ext(a.0, b.0);
}

impl PrioritySet {
    /// Returns the empty set.
    pub fn none() -> (r: Self)
        ensures
            r@ == Set::<Priority>::empty(),
    {
        let r = Self(0);
        proof {
            assert forall|p: Priority| !r@.contains(p) by {
                lemma_bits(0, 0, p.code(), 0);
            }
            assert(r@ =~= Set::<Priority>::empty());
        }
        r
    }

    /// Returns the set of all priorities.
    pub fn all() -> (r: Self)
        ensures
            r@ == Set::<Priority>::full(),
    {
        let r = Self(u8::MAX);
        proof {
            assert forall|p: Priority| r@.contains(p) by {
                lemma_bits(0, 0, p.code(), 0);
            }
            assert(r@ =~= Set::<Priority>::full());
        }
        r
    }

    /// The members encoded by a byte: priority `p` is a member if bit `p.code()` is set.
    pub open spec fn of_bits(bits: u8) -> Set<Priority> {
        Set::new(|p: Priority| bit(bits, p.code()))
    }

    /// Returns the set whose members are given by the bits of `bits`.
    pub fn from_bits(bits: u8) -> (r: Self)
        ensures
            r@ == Self::of_bits(bits),
    {
        Self(bits)
    }

    /// Returns the byte that encodes the set.
    pub fn into_bits(self) -> (r: u8)
        ensures
            self@ == Self::of_bits(r),
    {
        self.0
    }

    /// The byte that encodes the set.
    pub closed spec fn bits(self) -> u8 {
        self.0
    }

    /// Returns the set of the priorities that are not in this one.
    pub fn complement(self) -> (r: Self)
        ensures
            r@ == self@.complement(),
            r.bits() == !self.bits(),
    {
        let r = Self(!self.0);
        proof {
            assert forall|p: Priority| r@.contains(p) == !self@.contains(p) by {
                lemma_bits(self.0, 0, p.code(), 0);
            }
            assert(r@ =~= self@.complement());
        }
        r
    }

    /// Returns the set of the priorities that are in both sets.
    pub fn intersect(self, rhs: PrioritySet) -> (r: Self)
        ensures
            r@ == self@.intersect(rhs@),
            r.bits() == self.bits() & rhs.bits(),
    {
        let r = PrioritySet(self.0 & rhs.0);
        proof {
            assert forall|p: Priority| r@.contains(p) == (self@.contains(p) && rhs@.contains(p)) by {
                lemma_bits(self.0, rhs.0, p.code(), 0);
            }
            assert(r@ =~= self@.intersect(rhs@));
        }
        r
    }

    /// Returns the set of the priorities that are in one of the sets.
    pub fn unite(self, rhs: PrioritySet) -> (r: Self)
        ensures
            r@ == self@.union(rhs@),
            r.bits() == self.bits() | rhs.bits(),
    {
        let r = PrioritySet(self.0 | rhs.0);
        proof {
            assert forall|p: Priority| r@.contains(p) == (self@.contains(p) || rhs@.contains(p)) by {
                lemma_bits(self.0, rhs.0, p.code(), 0);
            }
            assert(r@ =~= self@.union(rhs@));
        }
        r
    }

    /// Returns the set of `priority` alone.
    pub fn new_eq(priority: Priority) -> (r: Self)
        ensures
            r@ == Set::<Priority>::empty().insert(priority),
    {
        let r = Self(1u8 << priority.into_u8());
        proof {
            assert forall|p: Priority| r@.contains(p) == (p == priority) by {
                lemma_bits(0, 0, p.code(), priority.code());
                lemma_code_bijective(p, priority);
            }
            assert(r@ =~= Set::<Priority>::empty().insert(priority));
        }
        r
    }

    /// Returns the set of the priorities with a code not below the one of `priority`.
    pub fn new_ge(priority: Priority) -> (r: Self)
        ensures
            r@ == Set::new(|p: Priority| p.code() >= priority.code()),
    {
        let r = Self(u8::MAX << priority.into_u8());
        proof {
            assert forall|p: Priority| r@.contains(p) == (p.code() >= priority.code()) by {
                lemma_bits(0, 0, p.code(), priority.code());
            }
            assert(r@ =~= Set::new(|p: Priority| p.code() >= priority.code()));
        }
        r
    }

    /// Returns the set of the priorities with a code not above the one of `priority`.
    pub fn new_le(priority: Priority) -> (r: Self)
        ensures
            r@ == Set::new(|p: Priority| p.code() <= priority.code()),
    {
        let r = Self(u8::MAX >> (Priority::MAX.into_u8() - priority.into_u8()));
        proof {
            assert forall|p: Priority| r@.contains(p) == (p.code() <= priority.code()) by {
                lemma_bits(0, 0, p.code(), priority.code());
            }
            assert(r@ =~= Set::new(|p: Priority| p.code() <= priority.code()));
        }
        r
    }

    /// Returns the set of the priorities with a code above the one of `priority`.
    pub fn new_gt(priority: Priority) -> (r: Self)
        ensures
            r@ == Set::new(|p: Priority| p.code() > priority.code()),
    {
        let r = Self::new_le(priority).complement();
        proof {
            assert(r@ =~= Set::new(|p: Priority| p.code() > priority.code()));
        }
        r
    }

    /// Returns the set of the priorities with a code below the one of `priority`.
    pub fn new_lt(priority: Priority) -> (r: Self)
        ensures
            r@ == Set::new(|p: Priority| p.code() < priority.code()),
    {
        let r = Self::new_ge(priority).complement();
        proof {
            assert(r@ =~= Set::new(|p: Priority| p.code() < priority.code()));
        }
        r
    }

    /// Tells whether `priority` is a member.
    pub fn contains(&self, priority: Priority) -> (r: bool)
        ensures
            r == self@.contains(priority),
    {
        proof {
            lemma_bits(self.0, 0, priority.code(), 0);
        }
        (self.0 >> priority.into_u8()) & 0x1 != 0
    }

    /// Adds a member.
    pub fn insert(&mut self, priority: Priority)
        ensures
            final(self)@ == old(self)@.insert(priority),
    {
        let one = Self::new_eq(priority);
        let ghost before = *self;
        self.0 = self.0 | one.0;
        proof {
            assert forall|p: Priority| self@.contains(p) == before@.insert(priority).contains(p) by {
                lemma_bits(before.0, one.0, p.code(), 0);
                lemma_view(one, p);
            }
            assert(self@ =~= before@.insert(priority));
        }
    }

    /// Takes a member out.
    pub fn remove(&mut self, priority: Priority)
        ensures
            final(self)@ == old(self)@.remove(priority),
    {
        let rest = Self::new_eq(priority).complement();
        let ghost before = *self;
        self.0 = self.0 & rest.0;
        proof {
            assert forall|p: Priority| self@.contains(p) == before@.remove(priority).contains(p) by {
                lemma_bits(before.0, rest.0, p.code(), 0);
                lemma_view(rest, p);
            }
            assert(self@ =~= before@.remove(priority));
        }
    }

    /// The member with the smallest code.
    pub open spec fn is_first(s: Set<Priority>, r: Option<Priority>) -> bool {
        match r {
            Some(p) => s.contains(p) && forall|q: Priority| #[trigger] s.contains(q) ==> p.code() <= q.code(),
            None => s == Set::<Priority>::empty(),
        }
    }

    /// The most urgent member.
    pub open spec fn first_of(s: Set<Priority>) -> Option<Priority> {
        choose|r: Option<Priority>| #[trigger] Self::is_first(s, r)
    }

    /// There is only one most urgent member.
    pub proof fn lemma_first(s: Set<Priority>, r: Option<Priority>)
        requires
            Self::is_first(s, r),
        ensures
            Self::first_of(s) == r,
    {
        let q = Self::first_of(s);
        assert(Self::is_first(s, q));
        if let Some(a) = r {
            assert(s.contains(a));
            if let Some(b) = q {
                lemma_code_bijective(a, b);
            }
        } else if let Some(b) = q {
            assert(s.contains(b));
        }
    }

    /// The member with the largest code.
    pub open spec fn is_last(s: Set<Priority>, r: Option<Priority>) -> bool {
        match r {
            Some(p) => s.contains(p) && forall|q: Priority| #[trigger] s.contains(q) ==> q.code() <= p.code(),
            None => s == Set::<Priority>::empty(),
        }
    }

    /// Returns the most urgent member.
    pub fn first(&self) -> (r: Option<Priority>)
        ensures
            Self::is_first(self@, r),
    {
        broadcast use vstd::std_specs::bits::axiom_u8_trailing_zeros;
        let n: u32 = self.0.trailing_zeros();
        proof {
            assert forall|q: Priority| #[trigger] self@.contains(q) implies n <= q.code() by {
                if q.code() < n {
                    let j = q.code();
                    assert((self.0 >> j) & 1u8 == 0u8);
                }
            }
            if self.0 == 0 {
                assert forall|q: Priority| !self@.contains(q) by {
                    lemma_bits(0, 0, q.code(), 0);
                }
                assert(self@ =~= Set::<Priority>::empty());
            }
        }
        Priority::try_from_u8(n as u8)
    }

    /// Returns the least urgent member.
    pub fn last(&self) -> (r: Option<Priority>)
        ensures
            Self::is_last(self@, r),
    {
        broadcast use vstd::std_specs::bits::axiom_u8_leading_zeros;
        let z: u32 = self.0.leading_zeros();
        let n: u32 = u8::BITS - z;
        proof {
            assert forall|q: Priority| #[trigger] self@.contains(q) implies q.code() < n by {
                if n <= q.code() {
                    let j = q.code();
                    assert((self.0 >> j) & 1u8 == 0u8);
                }
            }
            if self.0 == 0 {
                assert forall|q: Priority| !self@.contains(q) by {
                    lemma_bits(0, 0, q.code(), 0);
                }
                assert(self@ =~= Set::<Priority>::empty());
            } else {
                lemma_bits(self.0, 0, (7 - z) as u8, 0);
            }
        }
        Priority::try_from_u8((n as u8).wrapping_sub(1))
    }

    /// Tells whether the set has no member.
    pub fn is_empty(&self) -> (r: bool)
        ensures
            r == (self@ == Set::<Priority>::empty()),
    {
        proof {
            if self.0 == 0 {
                assert forall|q: Priority| !self@.contains(q) by {
                    lemma_bits(0, 0, q.code(), 0);
                }
                assert(self@ =~= Set::<Priority>::empty());
            } else if self@ == Set::<Priority>::empty() {
                let e = PrioritySet(0);
                assert forall|q: Priority| !e@.contains(q) by {
                    lemma_bits(0, 0, q.code(), 0);
                }
                assert(e@ =~= self@);
                lemma_set_ext(e, *self);
            }
        }
        self.0 == 0
    }

    /// Returns an enumeration of the members, the most urgent first.
    pub fn into_iter(self) -> (r: PrioritySetIterator)
        ensures
            r@ == self@,
    {
        PrioritySetIterator { residual: self }
    }
}

impl Default for PrioritySet {
    fn default() -> (r: Self)
        ensures
            r@ == Set::<Priority>::empty(),
    {
        PrioritySet::none()
    }
}

impl NotSpecImpl for PrioritySet {
    open spec fn obeys_not_spec() -> bool {
        true
    }

    open spec fn not_req(self) -> bool {
        true
    }

    closed spec fn not_spec(self) -> Self::Output {
        PrioritySet(!self.0)
    }
}

impl core::ops::Not for PrioritySet {
    type Output = Self;

    fn not(self) -> (r: Self)
        ensures
            r@ == self@.complement(),
    {
        self.complement()
    }
}

impl BitAndSpecImpl<PrioritySet> for PrioritySet {
    open spec fn obeys_bitand_spec() -> bool {
        true
    }

    open spec fn bitand_req(self, rhs: PrioritySet) -> bool {
        true
    }

    closed spec fn bitand_spec(self, rhs: PrioritySet) -> Self::Output {
        PrioritySet(self.0 & rhs.0)
    }
}

impl core::ops::BitAnd<PrioritySet> for PrioritySet {
    type Output = Self;

    fn bitand(self, rhs: PrioritySet) -> (r: Self)
        ensures
            r@ == self@.intersect(rhs@),
    {
        self.intersect(rhs)
    }
}

impl BitOrSpecImpl<PrioritySet> for PrioritySet {
    open spec fn obeys_bitor_spec() -> bool {
        true
    }

    open spec fn bitor_req(self, rhs: PrioritySet) -> bool {
        true
    }

    closed spec fn bitor_spec(self, rhs: PrioritySet) -> Self::Output {
        PrioritySet(self.0 | rhs.0)
    }
}

impl core::ops::BitOr<PrioritySet> for PrioritySet {
    type Output = Self;

    fn bitor(self, rhs: PrioritySet) -> (r: Self)
        ensures
            r@ == self@.union(rhs@),
    {
        self.unite(rhs)
    }
}

impl core::ops::BitAndAssign<PrioritySet> for PrioritySet {
    fn bitand_assign(&mut self, rhs: PrioritySet)
        ensures
            final(self)@ == old(self)@.intersect(rhs@),
    {
        *self = self.intersect(rhs);
    }
}

impl core::ops::BitOrAssign<PrioritySet> for PrioritySet {
    fn bitor_assign(&mut self, rhs: PrioritySet)
        ensures
            final(self)@ == old(self)@.union(rhs@),
    {
        *self = self.unite(rhs);
    }
}

/// Enumerates the members of a [`PrioritySet`] in the order of their codes.
#[derive(Debug)]
pub struct PrioritySetIterator {
    residual: PrioritySet,
}

impl View for PrioritySetIterator {
    type V = Set<Priority>;

    /// The members that are still to come.
    closed spec fn view(&self) -> Set<Priority> {
        self.residual@
    }
}

impl PrioritySetIterator {
    /// Returns the most urgent member that was not returned yet.
    pub fn next(&mut self) -> (r: Option<Priority>)
        ensures
            PrioritySet::is_first(old(self)@, r),
            final(self)@ == (match r {
                Some(p) => old(self)@.remove(p),
                None => old(self)@,
            }),
    {
        let first = self.residual.first();
        if let Some(priority) = first {
            self.residual.remove(priority);
        }
        first
    }
}

/// The codes of the priorities: the more urgent, the smaller, and each code from zero to seven is that
/// of one priority.
pub proof fn law_priority_codes(p: Priority, q: Priority, code: int)
    ensures
        p.code() == (match p {
            Priority::Exceptional => 0int,
            Priority::Immediate => 1,
            Priority::Fast => 2,
            Priority::High => 3,
            Priority::Nominal => 4,
            Priority::Low => 5,
            Priority::Slow => 6,
            Priority::Optional => 7,
        }),
        p.code() == q.code() <==> p == q,
        Priority::MIN.code() <= p.code() <= Priority::MAX.code(),
        0 <= code < 8 ==> Priority::of_code(code).code() == code,
        Priority::of_code(p.code() as int) == p,
{
}

/// The first priority of a set is its most urgent member, and the last one its least urgent member.
pub proof fn law_first_and_last(s: Set<Priority>, p: Priority, q: Priority)
    requires
        s.contains(q),
    ensures
        PrioritySet::is_first(s, Some(p)) ==> s.contains(p) && p.code() <= q.code(),
        PrioritySet::is_last(s, Some(p)) ==> s.contains(p) && q.code() <= p.code(),
        !PrioritySet::is_first(s, None),
        !PrioritySet::is_last(s, None),
{
}

/// The bits of a set: the bit with the number of its code tells whether a priority is a member.
pub proof fn law_bits_of_set(bits: u8, p: Priority)
    ensures
        PrioritySet::of_bits(bits).contains(p) <==> bits & (1u8 << p.code()) != 0,
{
    let i = p.code();
    assert(i < 8 ==> ((bits >> i) & 1u8 == 1u8 <==> bits & (1u8 << i) != 0)) by (bit_vector);
}

/// A number up to seven becomes the priority that has it as its code, and the priority becomes the same
/// number again. A larger number becomes none.
pub proof fn law_priorities_and_numbers(byte: u8)
    ensures
        match <Priority as TryFromSpec<u8>>::try_from_spec(byte) {
            Ok(p) => byte <= 7 && p.code() == byte && <u8 as FromSpec<Priority>>::from_spec(p) == byte
                && <usize as FromSpec<Priority>>::from_spec(p) == byte,
            Err(_) => byte > 7,
        },
{
}

} // verus!

//! Transmit mailboxes of the periphery.

use vstd::prelude::*;
use vstd::std_specs::convert::FromSpecImpl;
use vstd::std_specs::ops::BitAndSpecImpl;
use vstd::std_specs::ops::BitOrSpecImpl;
use vstd::std_specs::ops::NotSpecImpl;

use crate::priority::{bit, lemma_bits, lemma_code_bijective, Priority};

verus! {

/// Number of transmit mailboxes.
pub const TX_FIFO_MAX: u8 = 3;

/// Number of a transmit mailbox.
#[derive(Debug, Clone, Copy, PartialEq, Eq, Structural)]
pub struct TxMailboxIdx(u8);

impl TxMailboxIdx {
    /// The largest number.
    pub const MAX_VALUE: u8 = 2;

    /// The number of the mailbox.
    pub closed spec fn value(self) -> u8 {
        self.0
    }

    /// The mailbox of a number.
    pub closed spec fn of(value: u8) -> Self {
        TxMailboxIdx(value)
    }

    #[verifier::type_invariant]
    spec fn inv(self) -> bool {
        self.0 <= 2
    }

    /// The number determines the mailbox.
    pub broadcast proof fn lemma_value(self)
        ensures
            #[trigger] Self::of(self.value()) == self,
    {
    }

    /// The mailbox keeps the number.
    pub broadcast proof fn lemma_of(value: u8)
        ensures
            (#[trigger] Self::of(value)).value() == value,
    {
    }

    /// Returns the mailbox of a number, if there is one.
    pub fn new(value: u8) -> (r: Option<Self>)
        ensures
            r == (if value <= 2 { Some(Self::of(value)) } else { None }),
            r matches Some(idx) ==> idx.value() == value,
    {
        if value <= Self::MAX_VALUE {
            Some(Self(value))
        } else {
            None
        }
    }

    /// Returns the number of the mailbox.
    pub fn into_u8(self) -> (r: u8)
        ensures
            r == self.value(),
            r <= 2,
    {
        proof {
            use_type_invariant(&self);
        }
        self.0
    }
}

impl From<TxMailboxIdx> for u8 {
    fn from(idx: TxMailboxIdx) -> u8 {
        idx.into_u8()
    }
}

impl FromSpecImpl<TxMailboxIdx> for u8 {
    open spec fn obeys_from_spec() -> bool {
        true
    }

    open spec fn from_spec(idx: TxMailboxIdx) -> u8 {
        idx.value()
    }
}

impl From<TxMailboxIdx> for usize {
    fn from(idx: TxMailboxIdx) -> usize {
        idx.into_u8() as usize
    }
}

impl FromSpecImpl<TxMailboxIdx> for usize {
    open spec fn obeys_from_spec() -> bool {
        true
    }

    open spec fn from_spec(idx: TxMailboxIdx) -> usize {
        idx.value() as usize
    }
}

/// A set of transmit mailboxes.
#[derive(Debug, Clone, Copy, PartialEq, Eq, Structural)]
pub struct TxMailboxSet(u8);

impl View for TxMailboxSet {
    type V = Set<int>;

    /// The numbers of the mailboxes.
    closed spec fn view(&self) -> Set<int> {
        Set::new(|i: int| 0 <= i < 3 && bit(self.0, i as u8))
    }
}

/// All mailboxes.
pub open spec fn all_mailboxes() -> Set<int> {
    Set::new(|i: int| 0 <= i < 3)
}

/// Bits of a byte, as far as they belong to mailboxes.
pub open spec fn mailbox_bits(bits: u8) -> Set<int> {
    Set::new(|i: int| 0 <= i < 3 && bit(bits, i as u8))
}

/// The three bits of mailboxes.
proof fn lemma_mask(a: u8, i: u8)
    by (bit_vector)
    requires
        i < 8,
    ensures
        bit(a & 0x7u8, i) == (bit(a, i) && i < 3),
        a & 0x7u8 < 8,
        bit(0x7u8, i) == (i < 3),
        a < 8 && bit(a, i) ==> i < 3,
        a < 8 && i < 3 ==> (a | (1u8 << i)) < 8,
{
}

/// The three bits determine the byte, and operators stay within them.
proof fn lemma_small(a: u8, b: u8)
    by (bit_vector)
    requires
        a < 8,
        b < 8,
    ensures
        a & b < 8,
        a | b < 8,
        a != 0 ==> bit(a, 0) || bit(a, 1) || bit(a, 2),
{
}

impl TxMailboxSet {
    const MASK: u8 = 0x7;

    #[verifier::type_invariant]
    spec fn inv(self) -> bool {
        self.0 < 8
    }

    /// Returns the empty set.
    pub fn none() -> (r: Self)
        ensures
            r@ == Set::<int>::empty(),
    {
        let r = Self(0);
        proof {
            assert forall|i: int| !r@.contains(i) by {
                if 0 <= i < 3 {
                    lemma_bits(0, 0, i as u8, 0);
                }
            }
            assert(r@ =~= Set::<int>::empty());
        }
        r
    }

    /// Returns the set of all mailboxes.
    pub fn all() -> (r: Self)
        ensures
            r@ == all_mailboxes(),
    {
        let r = Self(Self::MASK);
        proof {
            assert forall|i: int| r@.contains(i) == (0 <= i < 3) by {
                if 0 <= i < 3 {
                    lemma_mask(0, i as u8);
                }
            }
            assert(r@ =~= all_mailboxes());
        }
        r
    }

    /// Returns the set of a single mailbox.
    pub fn new_eq(key: TxMailboxIdx) -> (r: Self)
        ensures
            r@ == Set::<int>::empty().insert(key.value() as int),
    {
        let mut set = Self::none();
        set.insert(key);
        set
    }

    /// Returns the set given by the three least significant bits.
    pub fn from_bits_truncating(bits: u8) -> (r: Self)
        ensures
            r@ == mailbox_bits(bits),
    {
        proof {
            lemma_mask(bits, 0);
        }
        let r = Self(bits & Self::MASK);
        proof {
            assert forall|i: int| r@.contains(i) == mailbox_bits(bits).contains(i) by {
                if 0 <= i < 3 {
                    lemma_mask(bits, i as u8);
                }
            }
            assert(r@ =~= mailbox_bits(bits));
        }
        r
    }

    /// Returns the set as bits.
    pub fn into_bits(self) -> (r: u8)
        ensures
            r < 8,
            self@ == mailbox_bits(r),
    {
        proof {
            use_type_invariant(&self);
        }
        self.0
    }

    /// Tells whether there is no member.
    pub fn is_empty(&self) -> (r: bool)
        ensures
            r == (self@ == Set::<int>::empty()),
    {
        proof {
            use_type_invariant(self);
            lemma_small(self.0, self.0);
            if self.0 == 0 {
                assert forall|i: int| !self@.contains(i) by {
                    if 0 <= i < 3 {
                        lemma_bits(0, 0, i as u8, 0);
                    }
                }
                assert(self@ =~= Set::<int>::empty());
            } else {
                assert(self@.contains(0) || self@.contains(1) || self@.contains(2));
            }
        }
        self.0 == 0
    }

    /// Tells whether a mailbox is a member.
    pub fn contains(&self, key: TxMailboxIdx) -> (r: bool)
        ensures
            r == self@.contains(key.value() as int),
    {
        let i: u8 = key.into_u8();
        proof {
            lemma_bits(self.0, 0, i, 0);
        }
        (self.0 >> i) & 0x1 != 0
    }

    /// The member with the smallest number.
    pub open spec fn is_first(s: Set<int>, r: Option<TxMailboxIdx>) -> bool {
        match r {
            Some(idx) => s.contains(idx.value() as int) && forall|i: int| #[trigger]
                s.contains(i) ==> idx.value() <= i,
            None => s == Set::<int>::empty(),
        }
    }

    /// Returns the member with the smallest number.
    pub fn first(&self) -> (r: Option<TxMailboxIdx>)
        ensures
            Self::is_first(self@, r),
    {
        broadcast use vstd::std_specs::bits::axiom_u8_trailing_zeros;
        let n: u32 = self.0.trailing_zeros();
        proof {
            use_type_invariant(self);
            lemma_small(self.0, self.0);
            assert forall|i: int| #[trigger] self@.contains(i) implies n <= i by {
                if i < n {
                    let j = i as u8;
                    assert((self.0 >> j) & 1u8 == 0u8);
                }
            }
            if self.0 == 0 {
                assert forall|i: int| !self@.contains(i) by {
                    if 0 <= i < 3 {
                        lemma_bits(0, 0, i as u8, 0);
                    }
                }
                assert(self@ =~= Set::<int>::empty());
            } else {
                assert(self@.contains(0) || self@.contains(1) || self@.contains(2));
                lemma_bits(self.0, 0, n as u8, 0);
            }
        }
        TxMailboxIdx::new(n as u8)
    }

    /// Adds a member.
    pub fn insert(&mut self, key: TxMailboxIdx)
        ensures
            final(self)@ == old(self)@.insert(key.value() as int),
    {
        let k: u8 = key.into_u8();
        let ghost before = *self;
        proof {
            use_type_invariant(&*self);
            lemma_mask(self.0, k);
        }
        *self = Self(self.0 | (1 << k));
        proof {
            assert forall|i: int| self@.contains(i) == before@.insert(k as int).contains(i) by {
                if 0 <= i < 3 {
                    lemma_bits(before.0, 1u8 << k, i as u8, k);
                }
            }
            assert(self@ =~= before@.insert(k as int));
        }
    }

    /// Takes a member out.
    pub fn remove(&mut self, key: TxMailboxIdx)
        ensures
            final(self)@ == old(self)@.remove(key.value() as int),
    {
        let k: u8 = key.into_u8();
        let ghost before = *self;
        let rest: u8 = !(1 << k);
        proof {
            use_type_invariant(&*self);
            let a = self.0;
            assert(a < 8 ==> a & rest < 8) by (bit_vector);
        }
        *self = Self(self.0 & rest);
        proof {
            assert forall|i: int| self@.contains(i) == before@.remove(k as int).contains(i) by {
                if 0 <= i < 3 {
                    lemma_bits(before.0, rest, i as u8, k);
                    lemma_bits(1u8 << k, rest, i as u8, k);
                }
            }
            assert(self@ =~= before@.remove(k as int));
        }
    }

    /// Returns the mailboxes that are not members.
    pub fn complement(self) -> (r: Self)
        ensures
            r@ == all_mailboxes().difference(self@),
    {
        let r = Self::from_bits_truncating(!self.0);
        proof {
            assert forall|i: int| r@.contains(i) == all_mailboxes().difference(self@).contains(i) by {
                if 0 <= i < 3 {
                    lemma_bits(self.0, 0, i as u8, 0);
                }
            }
            assert(r@ =~= all_mailboxes().difference(self@));
        }
        r
    }

    /// The byte that encodes the set.
    pub closed spec fn bits(self) -> u8 {
        self.0
    }

    /// Returns the mailboxes that are in both sets.
    pub fn intersect(self, rhs: Self) -> (r: Self)
        ensures
            r@ == self@.intersect(rhs@),
            r.bits() == self.bits() & rhs.bits(),
    {
        proof {
            use_type_invariant(&self);
            use_type_invariant(&rhs);
            lemma_small(self.0, rhs.0);
        }
        let r = Self(self.0 & rhs.0);
        proof {
            assert forall|i: int| r@.contains(i) == (self@.contains(i) && rhs@.contains(i)) by {
                if 0 <= i < 3 {
                    lemma_bits(self.0, rhs.0, i as u8, 0);
                }
            }
            assert(r@ =~= self@.intersect(rhs@));
        }
        r
    }

    /// Returns the mailboxes that are in one of the sets.
    pub fn unite(self, rhs: Self) -> (r: Self)
        ensures
            r@ == self@.union(rhs@),
            r.bits() == self.bits() | rhs.bits(),
    {
        proof {
            use_type_invariant(&self);
            use_type_invariant(&rhs);
            lemma_small(self.0, rhs.0);
        }
        let r = Self(self.0 | rhs.0);
        proof {
            assert forall|i: int| r@.contains(i) == (self@.contains(i) || rhs@.contains(i)) by {
                if 0 <= i < 3 {
                    lemma_bits(self.0, rhs.0, i as u8, 0);
                }
            }
            assert(r@ =~= self@.union(rhs@));
        }
        r
    }

    /// Returns the members one by one, in the order of their numbers.
    pub fn into_iter(self) -> (r: TxMailboxSetIter)
        ensures
            r@ == self@,
    {
        TxMailboxSetIter(self)
    }
}

impl Default for TxMailboxSet {
    fn default() -> (r: Self)
        ensures
            r@ == Set::<int>::empty(),
    {
        Self::none()
    }
}

/// The complement is computed by inverting the bits.
proof fn lemma_complement(s: TxMailboxSet, r: TxMailboxSet)
    requires
        s.0 < 8,
        r.0 < 8,
        r@ == all_mailboxes().difference(s@),
    ensures
        r.0 == 7 - s.0,
{
    let (a, b) = (s.0, r.0);
    assert(r@.contains(0) == !s@.contains(0));
    assert(r@.contains(1) == !s@.contains(1));
    assert(r@.contains(2) == !s@.contains(2));
    assert(bit(b, 0u8) == !bit(a, 0u8));
    assert(bit(b, 1u8) == !bit(a, 1u8));
    assert(bit(b, 2u8) == !bit(a, 2u8));
    assert(b == 7 - a) by (bit_vector)
        requires
            a < 8,
            b < 8,
            bit(b, 0u8) == !bit(a, 0u8),
            bit(b, 1u8) == !bit(a, 1u8),
            bit(b, 2u8) == !bit(a, 2u8),
    ;
}

impl NotSpecImpl for TxMailboxSet {
    open spec fn obeys_not_spec() -> bool {
        true
    }

    open spec fn not_req(self) -> bool {
        true
    }

    closed spec fn not_spec(self) -> Self::Output {
        TxMailboxSet((7 - self.0) as u8)
    }
}

impl core::ops::Not for TxMailboxSet {
    type Output = TxMailboxSet;

    fn not(self) -> (r: Self)
        ensures
            r@ == all_mailboxes().difference(self@),
    {
        let r = self.complement();
        proof {
            use_type_invariant(&self);
            use_type_invariant(&r);
            lemma_complement(self, r);
        }
        r
    }
}

impl BitAndSpecImpl for TxMailboxSet {
    open spec fn obeys_bitand_spec() -> bool {
        true
    }

    open spec fn bitand_req(self, rhs: TxMailboxSet) -> bool {
        true
    }

    closed spec fn bitand_spec(self, rhs: TxMailboxSet) -> Self::Output {
        TxMailboxSet(self.0 & rhs.0)
    }
}

impl core::ops::BitAnd for TxMailboxSet {
    type Output = TxMailboxSet;

    fn bitand(self, rhs: Self) -> (r: Self)
        ensures
            r@ == self@.intersect(rhs@),
    {
        self.intersect(rhs)
    }
}

impl BitOrSpecImpl for TxMailboxSet {
    open spec fn obeys_bitor_spec() -> bool {
        true
    }

    open spec fn bitor_req(self, rhs: TxMailboxSet) -> bool {
        true
    }

    closed spec fn bitor_spec(self, rhs: TxMailboxSet) -> Self::Output {
        TxMailboxSet(self.0 | rhs.0)
    }
}

impl core::ops::BitOr for TxMailboxSet {
    type Output = TxMailboxSet;

    fn bitor(self, rhs: Self) -> (r: Self)
        ensures
            r@ == self@.union(rhs@),
    {
        self.unite(rhs)
    }
}

/// The members of a set of mailboxes that are still to be visited.
pub struct TxMailboxSetIter(TxMailboxSet);

impl View for TxMailboxSetIter {
    type V = Set<int>;

    closed spec fn view(&self) -> Set<int> {
        self.0@
    }
}

impl TxMailboxSetIter {
    /// Returns the next member.
    pub fn next(&mut self) -> (r: Option<TxMailboxIdx>)
        ensures
            TxMailboxSet::is_first(old(self)@, r),
            final(self)@ == (match r {
                Some(idx) => old(self)@.remove(idx.value() as int),
                None => old(self)@,
            }),
    {
        let key = self.0.first()?;
        self.0.remove(key);
        Some(key)
    }
}

/// Which mailbox holds the frame of which priority: each mailbox has one frame at most, and each
/// priority one mailbox.
#[derive(Debug, Clone)]
pub struct MailboxPriorityMap {
    forward: [Option<Priority>; 3],
    backward: [Option<TxMailboxIdx>; 8],
}

/// A mailbox or a priority is already in use.
#[derive(Debug, Clone, Copy, PartialEq, Eq, Structural)]
pub struct Occupied;

impl View for MailboxPriorityMap {
    type V = Map<int, Priority>;

    /// The priorities by the numbers of the mailboxes.
    closed spec fn view(&self) -> Map<int, Priority> {
        Map::new(
            |i: int| 0 <= i < 3 && self.forward@[i] is Some,
            |i: int| self.forward@[i]->0,
        )
    }
}

impl MailboxPriorityMap {
    /// Both directions tell the same.
    pub closed spec fn wf(&self) -> bool {
        &&& forall|i: int, p: Priority|
            0 <= i < 3 ==> (#[trigger] self.forward@[i] == Some(p) <==> #[trigger] self.backward@[p.code() as int]
                == Some(TxMailboxIdx::of(i as u8)))
        &&& forall|p: Priority|
            (#[trigger] self.backward@[p.code() as int]) matches Some(idx) ==> idx.value() < 3
    }

    /// A priority has a mailbox.
    pub open spec fn has_priority(&self, priority: Priority) -> bool {
        exists|i: int| #[trigger] self@.contains_key(i) && self@[i] == priority
    }

    /// Each priority has one mailbox at most, and there are three mailboxes.
    pub proof fn lemma_injective(&self)
        requires
            self.wf(),
        ensures
            forall|i: int| #[trigger] self@.contains_key(i) ==> 0 <= i < 3,
            forall|i: int, j: int|
                #![trigger self@[i], self@[j]]
                self@.contains_key(i) && self@.contains_key(j) && self@[i] == self@[j] ==> i == j,
    {
        broadcast use TxMailboxIdx::lemma_of;
        assert forall|i: int, j: int|
            #![trigger self@[i], self@[j]]
            self@.contains_key(i) && self@.contains_key(j) && self@[i] == self@[j] implies i == j by {
            let p = self@[i];
            assert(self.forward@[i] == Some(p));
            assert(self.forward@[j] == Some(p));
            assert(self.backward@[p.code() as int] == Some(TxMailboxIdx::of(i as u8)));
            assert(self.backward@[p.code() as int] == Some(TxMailboxIdx::of(j as u8)));
            assert(TxMailboxIdx::of(i as u8).value() == i);
            assert(TxMailboxIdx::of(j as u8).value() == j);
        }
    }

    /// What the backward direction tells.
    proof fn lemma_backward(&self, p: Priority)
        requires
            self.wf(),
        ensures
            match self.backward@[p.code() as int] {
                Some(idx) => self@.contains_key(idx.value() as int) && self@[idx.value() as int] == p
                    && idx.value() < 3,
                None => !self.has_priority(p),
            },
    {
        broadcast use {TxMailboxIdx::lemma_of, TxMailboxIdx::lemma_value};
        match self.backward@[p.code() as int] {
            Some(idx) => {
                let i = idx.value() as int;
                assert(TxMailboxIdx::of(idx.value()) == idx);
                assert(self.backward@[p.code() as int] == Some(TxMailboxIdx::of(i as u8)));
                assert(self.forward@[i] == Some(p));
            },
            None => {
                if self.has_priority(p) {
                    let i = choose|i: int| #[trigger] self@.contains_key(i) && self@[i] == p;
                    assert(self.forward@[i] == Some(p));
                    assert(self.backward@[p.code() as int] == Some(TxMailboxIdx::of(i as u8)));
                }
            },
        }
    }

    /// Returns the map in which nothing is in use.
    pub fn new() -> (r: Self)
        ensures
            r.wf(),
            r@ == Map::<int, Priority>::empty(),
    {
        let r = Self {
            forward: [None, None, None],
            backward: [None, None, None, None, None, None, None, None],
        };
        assert(r@ =~= Map::<int, Priority>::empty());
        r
    }

    /// Gives a mailbox to a priority, if neither is in use.
    pub fn insert(&mut self, mailbox: TxMailboxIdx, priority: Priority) -> (r: Result<(), Occupied>)
        requires
            old(self).wf(),
        ensures
            final(self).wf(),
            r is Err <==> old(self)@.contains_key(mailbox.value() as int) || old(self).has_priority(priority),
            final(self)@ == (if r is Ok {
                old(self)@.insert(mailbox.value() as int, priority)
            } else {
                old(self)@
            }),
    {
        broadcast use {TxMailboxIdx::lemma_of, TxMailboxIdx::lemma_value};
        let i: usize = mailbox.into_u8() as usize;
        let c: usize = priority.into_u8() as usize;
        let ghost before = *self;
        proof {
            self.lemma_backward(priority);
        }
        if self.forward[i].is_some() || self.backward[c].is_some() {
            return Err(Occupied);
        }
        self.forward[i] = Some(priority);
        self.backward[c] = Some(mailbox);
        proof {
            assert(TxMailboxIdx::of(i as u8) == mailbox);
            assert forall|j: int, p: Priority| 0 <= j < 3 implies (#[trigger] self.forward@[j] == Some(p)
                <==> #[trigger] self.backward@[p.code() as int] == Some(TxMailboxIdx::of(j as u8))) by {
                lemma_code_bijective(p, priority);
                assert(TxMailboxIdx::of(j as u8).value() == j);
                assert(before.forward@[j] == Some(p) <==> before.backward@[p.code() as int] == Some(
                    TxMailboxIdx::of(j as u8),
                ));
            }
            assert forall|p: Priority|
                (#[trigger] self.backward@[p.code() as int]) is Some implies self.backward@[p.code() as int]->0.value() < 3 by {
                lemma_code_bijective(p, priority);
                assert(before.backward@[p.code() as int] matches Some(idx) ==> idx.value() < 3);
            }
            assert(self@ =~= before@.insert(mailbox.value() as int, priority));
        }
        Ok(())
    }

    /// The map after a pair was taken out of both directions.
    proof fn lemma_removed(&self, before: &Self, i: int, priority: Priority)
        requires
            before.wf(),
            0 <= i < 3,
            before.forward@[i] == Some(priority),
            self.forward@ == before.forward@.update(i, None),
            self.backward@ == before.backward@.update(priority.code() as int, None),
        ensures
            self.wf(),
            self@ == before@.remove(i),
    {
        broadcast use TxMailboxIdx::lemma_of;
        assert(before.backward@[priority.code() as int] == Some(TxMailboxIdx::of(i as u8)));
        assert forall|j: int, p: Priority| 0 <= j < 3 implies (#[trigger] self.forward@[j] == Some(p)
            <==> #[trigger] self.backward@[p.code() as int] == Some(TxMailboxIdx::of(j as u8))) by {
            lemma_code_bijective(p, priority);
            assert(TxMailboxIdx::of(j as u8).value() == j);
            assert(TxMailboxIdx::of(i as u8).value() == i);
            assert(before.forward@[j] == Some(p) <==> before.backward@[p.code() as int] == Some(
                TxMailboxIdx::of(j as u8),
            ));
        }
        assert forall|p: Priority|
            (#[trigger] self.backward@[p.code() as int]) is Some implies self.backward@[p.code() as int]->0.value() < 3 by {
            lemma_code_bijective(p, priority);
            assert(before.backward@[p.code() as int] matches Some(idx) ==> idx.value() < 3);
        }
        assert(self@ =~= before@.remove(i));
    }

    /// Takes a mailbox out of use, and returns its priority.
    pub fn remove_by_mailbox(&mut self, mailbox: TxMailboxIdx) -> (r: Option<Priority>)
        requires
            old(self).wf(),
        ensures
            final(self).wf(),
            r == (if old(self)@.contains_key(mailbox.value() as int) {
                Some(old(self)@[mailbox.value() as int])
            } else {
                None
            }),
            final(self)@ == old(self)@.remove(mailbox.value() as int),
    {
        let i: usize = mailbox.into_u8() as usize;
        let ghost before = *self;
        let priority: Priority = match self.forward[i] {
            Some(priority) => priority,
            None => {
                assert(self@ =~= self@.remove(i as int));
                return None;
            },
        };
        self.forward[i] = None;
        self.backward[priority.into_u8() as usize] = None;
        proof {
            self.lemma_removed(&before, i as int, priority);
        }
        Some(priority)
    }

    /// Takes the mailbox of a priority out of use, and returns it.
    pub fn remove_by_priority(&mut self, priority: Priority) -> (r: Option<TxMailboxIdx>)
        requires
            old(self).wf(),
        ensures
            final(self).wf(),
            r is Some <==> old(self).has_priority(priority),
            match r {
                Some(idx) => old(self)@.contains_key(idx.value() as int) && old(self)@[idx.value() as int]
                    == priority && final(self)@ == old(self)@.remove(idx.value() as int),
                None => final(self)@ == old(self)@,
            },
    {
        let ghost before = *self;
        proof {
            self.lemma_backward(priority);
        }
        let mailbox: TxMailboxIdx = match self.backward[priority.into_u8() as usize] {
            Some(mailbox) => mailbox,
            None => {
                return None;
            },
        };
        let i: usize = mailbox.into_u8() as usize;
        self.backward[priority.into_u8() as usize] = None;
        self.forward[i] = None;
        proof {
            self.lemma_removed(&before, i as int, priority);
        }
        Some(mailbox)
    }

    /// Returns the priority of a mailbox.
    pub fn get_by_mailbox(&self, mailbox: TxMailboxIdx) -> (r: Option<Priority>)
        ensures
            r == (if self@.contains_key(mailbox.value() as int) {
                Some(self@[mailbox.value() as int])
            } else {
                None
            }),
    {
        self.forward[mailbox.into_u8() as usize]
    }

    /// Returns the mailbox of a priority.
    pub fn get_by_priority(&self, priority: Priority) -> (r: Option<TxMailboxIdx>)
        requires
            self.wf(),
        ensures
            r is Some <==> self.has_priority(priority),
            r matches Some(idx) ==> self@.contains_key(idx.value() as int) && self@[idx.value() as int]
                == priority,
    {
        proof {
            self.lemma_backward(priority);
        }
        self.backward[priority.into_u8() as usize]
    }

    /// Tells whether a mailbox is in use.
    pub fn contains_mailbox(&self, mailbox: TxMailboxIdx) -> (r: bool)
        ensures
            r == self@.contains_key(mailbox.value() as int),
    {
        self.get_by_mailbox(mailbox).is_some()
    }

    /// Tells whether a priority has a mailbox.
    pub fn contains_priority(&self, priority: Priority) -> (r: bool)
        requires
            self.wf(),
        ensures
            r == self.has_priority(priority),
    {
        self.get_by_priority(priority).is_some()
    }
}

impl Default for MailboxPriorityMap {
    fn default() -> (r: Self)
        ensures
            r.wf(),
            r@ == Map::<int, Priority>::empty(),
    {
        Self::new()
    }
}

/// The bits of a set of mailboxes, and the set of all three.
pub proof fn law_bits_of_mailboxes(bits: u8, i: int)
    requires
        0 <= i < 3,
    ensures
        mailbox_bits(bits).contains(i) <==> bits & (1u8 << i as u8) != 0,
        all_mailboxes().contains(i),
        !mailbox_bits(bits).contains(3),
        !all_mailboxes().contains(3),
        !all_mailboxes().contains(-1),
{
    let k = i as u8;
    assert(k < 8 ==> ((bits >> k) & 1u8 == 1u8 <==> bits & (1u8 << k) != 0)) by (bit_vector);
}

} // verus!

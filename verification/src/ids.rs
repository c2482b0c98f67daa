//! Identifiers of nodes, subjects, services and transfers.

use vstd::prelude::*;
use vstd::std_specs::convert::FromSpec;
use vstd::std_specs::convert::FromSpecImpl;
use vstd::std_specs::convert::TryFromSpec;
use vstd::std_specs::convert::TryFromSpecImpl;

use crate::priority::InvalidValue;

verus! {

/// Identifier of a node.
#[derive(Debug, Clone, Copy, PartialEq, Eq, PartialOrd, Ord, Structural)]
pub struct NodeId(u8);

impl NodeId {
    const MAX_VALUE: u8 = 0x7f;

    /// The number that the identifier stands for.
    pub closed spec fn value(self) -> u8 {
        self.0
    }

    /// The identifier of a number.
    pub closed spec fn of(value: u8) -> Self {
        NodeId(value)
    }

    /// The numbers that are identifiers.
    pub open spec fn is_valid(value: int) -> bool {
        0 <= value <= 0x7f
    }

    #[verifier::type_invariant]
    spec fn inv(self) -> bool {
        Self::is_valid(self.0 as int)
    }

    /// The number determines the identifier.
    pub broadcast proof fn lemma_value(self)
        ensures
            #[trigger] Self::of(self.value()) == self,
    {
    }

    /// The identifier keeps the number.
    pub broadcast proof fn lemma_of(value: u8)
        ensures
            (#[trigger] Self::of(value)).value() == value,
    {
    }

    /// Returns the largest identifier.
    pub fn max() -> (r: NodeId)
        ensures
            r == NodeId::of(0x7f),
    {
        NodeId(Self::MAX_VALUE)
    }

    /// Returns the identifier of a number, if there is one.
    pub fn new(value: u8) -> (r: Option<Self>)
        ensures
            r == (if Self::is_valid(value as int) { Some(Self::of(value)) } else { None }),
    {
        if value <= Self::MAX_VALUE {
            Some(NodeId(value))
        } else {
            None
        }
    }

    /// Returns the identifier given by the least significant bits of a number.
    pub fn from_u8_truncating(value: u8) -> (r: Self)
        ensures
            r == Self::of((value % 0x80) as u8),
            r.value() == value % 0x80,
    {
        assert(value & 0x7f == value % 0x80) by (bit_vector);
        NodeId(value & Self::MAX_VALUE)
    }

    /// Returns the number.
    pub fn into_u8(self) -> (r: u8)
        ensures
            r == self.value(),
            Self::is_valid(r as int),
    {
        proof {
            use_type_invariant(&self);
        }
        self.0
    }
}

impl From<NodeId> for u8 {
    fn from(value: NodeId) -> Self {
        value.into_u8()
    }
}

impl FromSpecImpl<NodeId> for u8 {
    open spec fn obeys_from_spec() -> bool {
        true
    }

    open spec fn from_spec(value: NodeId) -> u8 {
        value.value()
    }
}

impl TryFrom<u8> for NodeId {
    type Error = InvalidValue;

    fn try_from(value: u8) -> Result<Self, InvalidValue> {
        match Self::new(value) {
            Some(id) => Ok(id),
            None => Err(InvalidValue),
        }
    }
}

impl TryFromSpecImpl<u8> for NodeId {
    open spec fn obeys_try_from_spec() -> bool {
        true
    }

    open spec fn try_from_spec(value: u8) -> Result<Self, InvalidValue> {
        if Self::is_valid(value as int) {
            Ok(Self::of(value))
        } else {
            Err(InvalidValue)
        }
    }
}

impl From<NodeId> for usize {
    fn from(value: NodeId) -> Self {
        value.into_u8() as usize
    }
}

impl FromSpecImpl<NodeId> for usize {
    open spec fn obeys_from_spec() -> bool {
        true
    }

    open spec fn from_spec(value: NodeId) -> usize {
        value.value() as usize
    }
}

/// Identifier of a subject.
#[derive(Debug, Clone, Copy, PartialEq, Eq, PartialOrd, Ord, Structural)]
pub struct SubjectId(u16);

impl SubjectId {
    const MAX_VALUE: u16 = 0x1fff;

    /// The number that the identifier stands for.
    pub closed spec fn value(self) -> u16 {
        self.0
    }

    /// The identifier of a number.
    pub closed spec fn of(value: u16) -> Self {
        SubjectId(value)
    }

    /// The numbers that are identifiers.
    pub open spec fn is_valid(value: int) -> bool {
        0 <= value <= 0x1fff
    }

    #[verifier::type_invariant]
    spec fn inv(self) -> bool {
        Self::is_valid(self.0 as int)
    }

    /// The number determines the identifier.
    pub broadcast proof fn lemma_value(self)
        ensures
            #[trigger] Self::of(self.value()) == self,
    {
    }

    /// The identifier keeps the number.
    pub broadcast proof fn lemma_of(value: u16)
        ensures
            (#[trigger] Self::of(value)).value() == value,
    {
    }

    /// Returns the largest identifier.
    pub fn max() -> (r: SubjectId)
        ensures
            r == SubjectId::of(0x1fff),
    {
        SubjectId(Self::MAX_VALUE)
    }

    /// Returns the identifier of a number, if there is one.
    pub fn new(value: u16) -> (r: Option<Self>)
        ensures
            r == (if Self::is_valid(value as int) { Some(Self::of(value)) } else { None }),
    {
        if value <= Self::MAX_VALUE {
            Some(SubjectId(value))
        } else {
            None
        }
    }

    /// Returns the identifier given by the least significant bits of a number.
    pub fn from_u16_truncating(value: u16) -> (r: Self)
        ensures
            r == Self::of((value % 0x2000) as u16),
            r.value() == value % 0x2000,
    {
        assert(value & 0x1fff == value % 0x2000) by (bit_vector);
        SubjectId(value & Self::MAX_VALUE)
    }

    /// Returns the number.
    pub fn into_u16(self) -> (r: u16)
        ensures
            r == self.value(),
            Self::is_valid(r as int),
    {
        proof {
            use_type_invariant(&self);
        }
        self.0
    }
}

impl From<SubjectId> for u16 {
    fn from(value: SubjectId) -> Self {
        value.into_u16()
    }
}

impl FromSpecImpl<SubjectId> for u16 {
    open spec fn obeys_from_spec() -> bool {
        true
    }

    open spec fn from_spec(value: SubjectId) -> u16 {
        value.value()
    }
}

impl TryFrom<u16> for SubjectId {
    type Error = InvalidValue;

    fn try_from(value: u16) -> Result<Self, InvalidValue> {
        match Self::new(value) {
            Some(id) => Ok(id),
            None => Err(InvalidValue),
        }
    }
}

impl TryFromSpecImpl<u16> for SubjectId {
    open spec fn obeys_try_from_spec() -> bool {
        true
    }

    open spec fn try_from_spec(value: u16) -> Result<Self, InvalidValue> {
        if Self::is_valid(value as int) {
            Ok(Self::of(value))
        } else {
            Err(InvalidValue)
        }
    }
}

/// Identifier of a service.
#[derive(Debug, Clone, Copy, PartialEq, Eq, PartialOrd, Ord, Structural)]
pub struct ServiceId(u16);

impl ServiceId {
    const MAX_VALUE: u16 = 0x1ff;

    /// The number that the identifier stands for.
    pub closed spec fn value(self) -> u16 {
        self.0
    }

    /// The identifier of a number.
    pub closed spec fn of(value: u16) -> Self {
        ServiceId(value)
    }

    /// The numbers that are identifiers.
    pub open spec fn is_valid(value: int) -> bool {
        0 <= value <= 0x1ff
    }

    #[verifier::type_invariant]
    spec fn inv(self) -> bool {
        Self::is_valid(self.0 as int)
    }

    /// The number determines the identifier.
    pub broadcast proof fn lemma_value(self)
        ensures
            #[trigger] Self::of(self.value()) == self,
    {
    }

    /// The identifier keeps the number.
    pub broadcast proof fn lemma_of(value: u16)
        ensures
            (#[trigger] Self::of(value)).value() == value,
    {
    }

    /// Returns the largest identifier.
    pub fn max() -> (r: ServiceId)
        ensures
            r == ServiceId::of(0x1ff),
    {
        ServiceId(Self::MAX_VALUE)
    }

    /// Returns the identifier of a number, if there is one.
    pub fn new(value: u16) -> (r: Option<Self>)
        ensures
            r == (if Self::is_valid(value as int) { Some(Self::of(value)) } else { None }),
    {
        if value <= Self::MAX_VALUE {
            Some(ServiceId(value))
        } else {
            None
        }
    }

    /// Returns the identifier given by the least significant bits of a number.
    pub fn from_u16_truncating(value: u16) -> (r: Self)
        ensures
            r == Self::of((value % 0x200) as u16),
            r.value() == value % 0x200,
    {
        assert(value & 0x1ff == value % 0x200) by (bit_vector);
        ServiceId(value & Self::MAX_VALUE)
    }

    /// Returns the number.
    pub fn into_u16(self) -> (r: u16)
        ensures
            r == self.value(),
            Self::is_valid(r as int),
    {
        proof {
            use_type_invariant(&self);
        }
        self.0
    }
}

impl From<ServiceId> for u16 {
    fn from(value: ServiceId) -> Self {
        value.into_u16()
    }
}

impl FromSpecImpl<ServiceId> for u16 {
    open spec fn obeys_from_spec() -> bool {
        true
    }

    open spec fn from_spec(value: ServiceId) -> u16 {
        value.value()
    }
}

impl TryFrom<u16> for ServiceId {
    type Error = InvalidValue;

    fn try_from(value: u16) -> Result<Self, InvalidValue> {
        match Self::new(value) {
            Some(id) => Ok(id),
            None => Err(InvalidValue),
        }
    }
}

impl TryFromSpecImpl<u16> for ServiceId {
    open spec fn obeys_try_from_spec() -> bool {
        true
    }

    open spec fn try_from_spec(value: u16) -> Result<Self, InvalidValue> {
        if Self::is_valid(value as int) {
            Ok(Self::of(value))
        } else {
            Err(InvalidValue)
        }
    }
}

/// Identifier of a transfer within its session.
#[derive(Debug, Clone, Copy, PartialEq, Eq, Structural)]
pub struct TransferId(u8);

impl TransferId {
    const MAX_VALUE: u8 = 0x1f;

    /// The number that the identifier stands for.
    pub closed spec fn value(self) -> u8 {
        self.0
    }

    /// The identifier of a number.
    pub closed spec fn of(value: u8) -> Self {
        TransferId(value)
    }

    /// The numbers that are identifiers.
    pub open spec fn is_valid(value: int) -> bool {
        0 <= value <= 0x1f
    }

    #[verifier::type_invariant]
    spec fn inv(self) -> bool {
        Self::is_valid(self.0 as int)
    }

    /// The number determines the identifier.
    pub broadcast proof fn lemma_value(self)
        ensures
            #[trigger] Self::of(self.value()) == self,
    {
    }

    /// The identifier keeps the number.
    pub broadcast proof fn lemma_of(value: u8)
        ensures
            (#[trigger] Self::of(value)).value() == value,
    {
    }

    /// Returns the largest identifier.
    pub fn max() -> (r: TransferId)
        ensures
            r == TransferId::of(0x1f),
    {
        TransferId(Self::MAX_VALUE)
    }

    /// Returns the identifier of a number, if there is one.
    pub fn new(value: u8) -> (r: Option<Self>)
        ensures
            r == (if Self::is_valid(value as int) { Some(Self::of(value)) } else { None }),
    {
        if value <= Self::MAX_VALUE {
            Some(TransferId(value))
        } else {
            None
        }
    }

    /// Returns the identifier given by the least significant bits of a number.
    pub fn from_u8_truncating(value: u8) -> (r: Self)
        ensures
            r == Self::of((value % 0x20) as u8),
            r.value() == value % 0x20,
    {
        assert(value & 0x1f == value % 0x20) by (bit_vector);
        TransferId(value & Self::MAX_VALUE)
    }

    /// Returns the number.
    pub fn into_u8(self) -> (r: u8)
        ensures
            r == self.value(),
            Self::is_valid(r as int),
    {
        proof {
            use_type_invariant(&self);
        }
        self.0
    }

    /// Returns the identifier of the first transfer of a session.
    pub fn session_start() -> (r: TransferId)
        ensures
            r == TransferId::of(0),
    {
        TransferId(0)
    }

    /// The identifier that follows this one, cyclically.
    pub open spec fn following(self) -> Self {
        Self::of(((self.value() + 1) % 32) as u8)
    }

    /// Returns the identifier that follows this one, cyclically.
    pub fn next(self) -> (r: Self)
        ensures
            r == self.following(),
    {
        proof {
            use_type_invariant(&self);
        }
        Self::from_u8_truncating(self.0 + 1)
    }
}

impl From<TransferId> for u8 {
    fn from(value: TransferId) -> Self {
        value.into_u8()
    }
}

impl FromSpecImpl<TransferId> for u8 {
    open spec fn obeys_from_spec() -> bool {
        true
    }

    open spec fn from_spec(value: TransferId) -> u8 {
        value.value()
    }
}

impl TryFrom<u8> for TransferId {
    type Error = InvalidValue;

    fn try_from(value: u8) -> Result<Self, InvalidValue> {
        match Self::new(value) {
            Some(id) => Ok(id),
            None => Err(InvalidValue),
        }
    }
}

impl TryFromSpecImpl<u8> for TransferId {
    open spec fn obeys_try_from_spec() -> bool {
        true
    }

    open spec fn try_from_spec(value: u8) -> Result<Self, InvalidValue> {
        if Self::is_valid(value as int) {
            Ok(Self::of(value))
        } else {
            Err(InvalidValue)
        }
    }
}

impl Default for TransferId {
    fn default() -> (r: Self)
        ensures
            r == TransferId::of(0),
    {
        Self::session_start()
    }
}

/// The identifier that is `n` steps after `id`.
pub open spec fn transfer_id_after(id: TransferId, n: nat) -> TransferId
    decreases n,
{
    if n == 0 {
        id
    } else {
        transfer_id_after(id, (n - 1) as nat).following()
    }
}

/// Transfer identifiers are cyclic: `n` steps add `n` modulo 32.
pub proof fn law_transfer_ids_go_round(id: TransferId, n: nat)
    requires
        TransferId::is_valid(id.value() as int),
    ensures
        transfer_id_after(id, n).value() == (id.value() + n) % 32,
        n % 32 == 0 ==> transfer_id_after(id, n) == id,
    decreases n,
{
    if n > 0 {
        law_transfer_ids_go_round(id, (n - 1) as nat);
        let previous = transfer_id_after(id, (n - 1) as nat);
        TransferId::lemma_of(((previous.value() + 1) % 32) as u8);
        assert(((id.value() + n - 1) % 32 + 1) % 32 == (id.value() + n) % 32) by (nonlinear_arith);
    }
    TransferId::lemma_value(transfer_id_after(id, n));
    TransferId::lemma_value(id);
}

/// The ranges of the identifiers.
pub proof fn law_id_ranges(value: int)
    ensures
        NodeId::is_valid(value) <==> 0 <= value < 128,
        SubjectId::is_valid(value) <==> 0 <= value < 8192,
        ServiceId::is_valid(value) <==> 0 <= value < 512,
        TransferId::is_valid(value) <==> 0 <= value < 32,
{
}

/// A number becomes an identifier exactly if it is in the range, and the identifier becomes the same
/// number again.
pub proof fn law_ids_and_numbers(byte: u8, word: u16)
    ensures
        match <NodeId as TryFromSpec<u8>>::try_from_spec(byte) {
            Ok(id) => byte < 128 && <u8 as FromSpec<NodeId>>::from_spec(id) == byte && <usize as FromSpec<
                NodeId,
            >>::from_spec(id) == byte,
            Err(_) => byte >= 128,
        },
        match <SubjectId as TryFromSpec<u16>>::try_from_spec(word) {
            Ok(id) => word < 8192 && <u16 as FromSpec<SubjectId>>::from_spec(id) == word,
            Err(_) => word >= 8192,
        },
        match <ServiceId as TryFromSpec<u16>>::try_from_spec(word) {
            Ok(id) => word < 512 && <u16 as FromSpec<ServiceId>>::from_spec(id) == word,
            Err(_) => word >= 512,
        },
        match <TransferId as TryFromSpec<u8>>::try_from_spec(byte) {
            Ok(id) => byte < 32 && <u8 as FromSpec<TransferId>>::from_spec(id) == byte,
            Err(_) => byte >= 32,
        },
{
    if byte < 128 {
        NodeId::lemma_of(byte);
    }
    if word < 8192 {
        SubjectId::lemma_of(word);
    }
    if word < 512 {
        ServiceId::lemma_of(word);
    }
    if byte < 32 {
        TransferId::lemma_of(byte);
    }
}

} // verus!

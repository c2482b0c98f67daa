//! CAN identifiers and patterns of acceptance filters.

use vstd::prelude::*;
use vstd::std_specs::convert::FromSpecImpl;

use crate::ids::{NodeId, ServiceId, SubjectId};
use crate::priority::Priority;

verus! {

const CAN_ID_MASK: u32 = 0x1fff_ffff;

const NODE_ID_MASK: u32 = 0x7f;

const SUBJECT_ID_MASK: u32 = 0x1fff;

const SERVICE_ID_MASK: u32 = 0x1ff;

const PRIORITY_MASK: u32 = 0x7;

const PRIORITY_OFFSET: u32 = 26;

const SOURCE_OFFSET: u32 = 0;

const MSG_SUBJECT_OFFSET: u32 = 8;

const SRV_DESTINATION_OFFSET: u32 = 7;

const SRV_SERVICE_OFFSET: u32 = 14;

const MSG_ANONYMOUS_FLAG: u32 = 0x100_0000;

const SRV_REQUEST_FLAG: u32 = 0x100_0000;

/// The service flag and the reserved bits 23 and 7.
const MSG_CHECK_MASK: u32 = 0x280_0080;

const MSG_CHECK_VALUE: u32 = 0;

/// The reserved bits 22 and 21: sent as ones, ignored when received.
const MSG_IGNORE_MASK: u32 = 0x60_0000;

/// The service flag and the reserved bit 23.
const SRV_CHECK_MASK: u32 = 0x280_0000;

/// The service flag.
const SRV_CHECK_VALUE: u32 = 0x200_0000;

/// No bit of a service identifier is ignored.
const SRV_IGNORE_MASK: u32 = 0;

/// The bits of a CAN identifier that tell whether it is one of a message of a subject.
pub const MSG_FILTER_MASK: u32 = 0x29f_ff80;

/// The bits of a CAN identifier that tell whether it is one of a service transfer to a node.
pub const SRV_FILTER_MASK: u32 = 0x280_3f80;

/// What the identifier of a message tells.
pub struct MessageFields {
    /// The priority of the message.
    pub priority: Priority,
    /// The message has no source.
    pub anonymous: bool,
    /// The subject of the message.
    pub subject: SubjectId,
    /// The sender, or a pseudo-random number for an anonymous message.
    pub source: NodeId,
}

/// What the identifier of a service transfer tells.
pub struct ServiceFields {
    /// The priority of the transfer.
    pub priority: Priority,
    /// A request, and not a response.
    pub request: bool,
    /// The service.
    pub service: ServiceId,
    /// The receiver.
    pub destination: NodeId,
    /// The sender.
    pub source: NodeId,
}

/// Bits 25, 23 and 7 of a message identifier are zero.
pub open spec fn is_message_id(id: u32) -> bool {
    id / 0x200_0000 % 2 == 0 && id / 0x80_0000 % 2 == 0 && id / 0x80 % 2 == 0
}

/// Bit 25 of a service identifier is one, bit 23 is zero.
pub open spec fn is_service_id(id: u32) -> bool {
    id / 0x200_0000 % 2 == 1 && id / 0x80_0000 % 2 == 0
}

/// The fields of a message identifier, each cut out of the number.
pub open spec fn message_fields(id: u32) -> MessageFields {
    MessageFields {
        priority: Priority::of_code((id / 0x400_0000) as int),
        anonymous: id / 0x100_0000 % 2 == 1,
        subject: SubjectId::of((id / 0x100 % 0x2000) as u16),
        source: NodeId::of((id % 0x80) as u8),
    }
}

/// The fields of a service identifier, each cut out of the number.
pub open spec fn service_fields(id: u32) -> ServiceFields {
    ServiceFields {
        priority: Priority::of_code((id / 0x400_0000) as int),
        request: id / 0x100_0000 % 2 == 1,
        service: ServiceId::of((id / 0x4000 % 0x200) as u16),
        destination: NodeId::of((id / 0x80 % 0x80) as u8),
        source: NodeId::of((id % 0x80) as u8),
    }
}

/// The identifier of a message: the fields at their places, and ones in bits 22 and 21.
pub open spec fn message_id(fields: MessageFields) -> int {
    fields.priority.code() * 0x400_0000 + (if fields.anonymous {
        0x100_0000int
    } else {
        0
    }) + 0x60_0000 + fields.subject.value() * 0x100 + fields.source.value()
}

/// The identifier of a service transfer: the fields at their places.
pub open spec fn service_id(fields: ServiceFields) -> int {
    fields.priority.code() * 0x400_0000 + 0x200_0000 + (if fields.request {
        0x100_0000int
    } else {
        0
    }) + fields.service.value() * 0x4000 + fields.destination.value() * 0x80 + fields.source.value()
}

/// The parts of a message identifier that a setter leaves alone.
spec fn same_message_rest(x: u32, y: u32, field: u32) -> bool {
    &&& field != 0 ==> y / 0x400_0000 == x / 0x400_0000
    &&& y / 0x200_0000 % 2 == x / 0x200_0000 % 2
    &&& field != 1 ==> y / 0x100_0000 % 2 == x / 0x100_0000 % 2
    &&& y / 0x80_0000 % 2 == x / 0x80_0000 % 2
    &&& y / 0x20_0000 % 4 == x / 0x20_0000 % 4
    &&& field != 2 ==> y / 0x100 % 0x2000 == x / 0x100 % 0x2000
    &&& y / 0x80 % 2 == x / 0x80 % 2
    &&& field != 3 ==> y % 0x80 == x % 0x80
}

/// The parts of a service identifier that a setter leaves alone.
spec fn same_service_rest(x: u32, y: u32, field: u32) -> bool {
    &&& field != 0 ==> y / 0x400_0000 == x / 0x400_0000
    &&& y / 0x200_0000 % 2 == x / 0x200_0000 % 2
    &&& field != 1 ==> y / 0x100_0000 % 2 == x / 0x100_0000 % 2
    &&& y / 0x80_0000 % 2 == x / 0x80_0000 % 2
    &&& field != 2 ==> y / 0x4000 % 0x200 == x / 0x4000 % 0x200
    &&& field != 3 ==> y / 0x80 % 0x80 == x / 0x80 % 0x80
    &&& field != 4 ==> y % 0x80 == x % 0x80
}

proof fn lemma_set_priority(x: u32, v: u32, y: u32)
    by (bit_vector)
    requires
        v < 8,
        x < 0x2000_0000,
        y == (x & !(PRIORITY_MASK << PRIORITY_OFFSET)) | (v << PRIORITY_OFFSET),
    ensures
        y < 0x2000_0000,
        y / 0x400_0000 == v,
        same_message_rest(x, y, 0),
        same_service_rest(x, y, 0),
{
}

proof fn lemma_set_flag(x: u32, y: u32, z: u32)
    by (bit_vector)
    requires
        x < 0x2000_0000,
        y == x | 0x100_0000u32,
        z == x & !0x100_0000u32,
    ensures
        y < 0x2000_0000,
        y / 0x100_0000 % 2 == 1,
        same_message_rest(x, y, 1),
        same_service_rest(x, y, 1),
        z < 0x2000_0000,
        z / 0x100_0000 % 2 == 0,
        same_message_rest(x, z, 1),
        same_service_rest(x, z, 1),
{
}

proof fn lemma_set_subject(x: u32, v: u32, y: u32)
    by (bit_vector)
    requires
        v < 0x2000,
        x < 0x2000_0000,
        y == (x & !(SUBJECT_ID_MASK << MSG_SUBJECT_OFFSET)) | (v << MSG_SUBJECT_OFFSET),
    ensures
        y < 0x2000_0000,
        y / 0x100 % 0x2000 == v,
        same_message_rest(x, y, 2),
{
}

proof fn lemma_set_source(x: u32, v: u32, y: u32)
    by (bit_vector)
    requires
        v < 0x80,
        x < 0x2000_0000,
        y == (x & !(NODE_ID_MASK << SOURCE_OFFSET)) | (v << SOURCE_OFFSET),
    ensures
        y < 0x2000_0000,
        y % 0x80 == v,
        same_message_rest(x, y, 3),
        same_service_rest(x, y, 4),
{
}

proof fn lemma_set_service(x: u32, v: u32, y: u32)
    by (bit_vector)
    requires
        v < 0x200,
        x < 0x2000_0000,
        y == (x & !(SERVICE_ID_MASK << SRV_SERVICE_OFFSET)) | (v << SRV_SERVICE_OFFSET),
    ensures
        y < 0x2000_0000,
        y / 0x4000 % 0x200 == v,
        same_service_rest(x, y, 2),
{
}

proof fn lemma_set_destination(x: u32, v: u32, y: u32)
    by (bit_vector)
    requires
        v < 0x80,
        x < 0x2000_0000,
        y == (x & !(NODE_ID_MASK << SRV_DESTINATION_OFFSET)) | (v << SRV_DESTINATION_OFFSET),
    ensures
        y < 0x2000_0000,
        y / 0x80 % 0x80 == v,
        same_service_rest(x, y, 3),
{
}

/// Each field is cut out by a shift and a mask.
proof fn lemma_get(x: u32)
    by (bit_vector)
    ensures
        ((x >> PRIORITY_OFFSET) & PRIORITY_MASK) == x / 0x400_0000 % 8,
        (x & 0x100_0000u32 != 0) == (x / 0x100_0000 % 2 == 1),
        ((x >> MSG_SUBJECT_OFFSET) & SUBJECT_ID_MASK) == x / 0x100 % 0x2000,
        ((x >> SRV_SERVICE_OFFSET) & SERVICE_ID_MASK) == x / 0x4000 % 0x200,
        ((x >> SRV_DESTINATION_OFFSET) & NODE_ID_MASK) == x / 0x80 % 0x80,
        ((x >> SOURCE_OFFSET) & NODE_ID_MASK) == x % 0x80,
{
}

/// What the masks for the reserved bits test, and what they set.
proof fn lemma_check(x: u32, y: u32)
    by (bit_vector)
    requires
        y == (x & CAN_ID_MASK) | MSG_IGNORE_MASK,
    ensures
        (x & MSG_CHECK_MASK == MSG_CHECK_VALUE) == is_message_id(x),
        (x & SRV_CHECK_MASK == SRV_CHECK_VALUE) == is_service_id(x),
        y < 0x2000_0000,
        y / 0x20_0000 % 4 == 3,
        is_message_id(y) == is_message_id(x),
        y / 0x400_0000 == x / 0x400_0000 % 8,
        y / 0x100_0000 % 2 == x / 0x100_0000 % 2,
        y / 0x100 % 0x2000 == x / 0x100 % 0x2000,
        y % 0x80 == x % 0x80,
        x & CAN_ID_MASK | SRV_IGNORE_MASK == x % 0x2000_0000,
{
}

/// A number without its upper bits is still the same identifier of a service transfer.
proof fn lemma_cut(x: u32, y: u32)
    by (bit_vector)
    requires
        y == x % 0x2000_0000,
    ensures
        is_service_id(y) == is_service_id(x),
        y / 0x400_0000 == x / 0x400_0000 % 8,
        y / 0x100_0000 % 2 == x / 0x100_0000 % 2,
        y / 0x4000 % 0x200 == x / 0x4000 % 0x200,
        y / 0x80 % 0x80 == x / 0x80 % 0x80,
        y % 0x80 == x % 0x80,
{
}

/// A number is the sum of its fields.
proof fn lemma_sum(x: u32)
    requires
        x < 0x2000_0000,
    ensures
        is_message_id(x) && x / 0x20_0000 % 4 == 3 ==> x == x / 0x400_0000 * 0x400_0000 + x / 0x100_0000 % 2
            * 0x100_0000 + 0x60_0000 + x / 0x100 % 0x2000 * 0x100 + x % 0x80,
        is_service_id(x) ==> x == x / 0x400_0000 * 0x400_0000 + 0x200_0000 + x / 0x100_0000 % 2 * 0x100_0000 + x
            / 0x4000 % 0x200 * 0x4000 + x / 0x80 % 0x80 * 0x80 + x % 0x80,
{
    lemma_split(x as int, 0x80, 0x80);
    lemma_split(x as int, 0x80, 2);
    lemma_split(x as int, 0x4000, 0x200);
    lemma_split(x as int, 0x100, 0x2000);
    lemma_split(x as int, 0x20_0000, 4);
    lemma_split(x as int, 0x80_0000, 2);
    lemma_split(x as int, 0x100_0000, 2);
    lemma_split(x as int, 0x200_0000, 2);
}

/// A number divided by `a` is put together from its last digit to base `b` and the rest.
proof fn lemma_split(x: int, a: int, b: int)
    requires
        0 <= x,
        0 < a,
        0 < b,
    ensures
        x / a == x / (a * b) * b + x / a % b,
{
    vstd::arithmetic::div_mod::lemma_div_denominator(x, a, b);
    vstd::arithmetic::div_mod::lemma_fundamental_div_mod(x / a, b);
    vstd::arithmetic::mul::lemma_mul_is_commutative(b, x / (a * b));
}

/// The identifier of a message.
#[derive(Clone, Copy, PartialEq, Eq, PartialOrd, Ord)]
pub struct MessageCanId(u32);

impl View for MessageCanId {
    type V = MessageFields;

    closed spec fn view(&self) -> MessageFields {
        message_fields(self.0)
    }
}

impl MessageCanId {
    /// The number of the identifier.
    pub closed spec fn number(self) -> u32 {
        self.0
    }

    #[verifier::type_invariant]
    spec fn inv(self) -> bool {
        self.0 < 0x2000_0000 && is_message_id(self.0) && self.0 / 0x20_0000 % 4 == 3
    }

    /// Returns the identifier with all fields zero.
    pub fn new() -> (r: Self)
        ensures
            r@ == (MessageFields {
                priority: Priority::Exceptional,
                anonymous: false,
                subject: SubjectId::of(0),
                source: NodeId::of(0),
            }),
    {
        assert(MSG_CHECK_VALUE | MSG_IGNORE_MASK == 0x60_0000u32) by (bit_vector);
        Self(MSG_CHECK_VALUE | MSG_IGNORE_MASK)
    }

    /// Returns the identifier given by the 29 least significant bits of a number, if it is one
    /// of a message. Bits 22 and 21 are ignored.
    pub fn from_can_id(can_id: u32) -> (r: Option<Self>)
        ensures
            r is Some <==> is_message_id(can_id),
            r matches Some(id) ==> id@ == message_fields(can_id),
    {
        proof {
            lemma_check(can_id, (can_id & CAN_ID_MASK) | MSG_IGNORE_MASK);
        }
        if can_id & MSG_CHECK_MASK == MSG_CHECK_VALUE {
            Some(Self((can_id & CAN_ID_MASK) | MSG_IGNORE_MASK))
        } else {
            None
        }
    }

    /// Returns the priority.
    pub fn priority(self) -> (r: Priority)
        ensures
            r == self@.priority,
    {
        proof {
            lemma_get(self.0);
        }
        Priority::from_u8_truncating(((self.0 >> PRIORITY_OFFSET) & PRIORITY_MASK) as u8)
    }

    /// Replaces the priority.
    pub fn set_priority(&mut self, value: Priority)
        ensures
            final(self)@ == (MessageFields { priority: value, ..old(self)@ }),
    {
        proof {
            use_type_invariant(&*self);
        }
        let v: u32 = value.into_u8() as u32;
        let id: u32 = (self.0 & !(PRIORITY_MASK << PRIORITY_OFFSET)) | (v << PRIORITY_OFFSET);
        proof {
            lemma_set_priority(self.0, v, id);
        }
        *self = Self(id);
    }

    /// Tells whether the message has no source.
    pub fn anonymous(self) -> (r: bool)
        ensures
            r == self@.anonymous,
    {
        proof {
            lemma_get(self.0);
        }
        self.0 & MSG_ANONYMOUS_FLAG != 0
    }

    /// Replaces the flag of anonymous messages.
    pub fn set_anonymous(&mut self, value: bool)
        ensures
            final(self)@ == (MessageFields { anonymous: value, ..old(self)@ }),
    {
        proof {
            use_type_invariant(&*self);
            lemma_set_flag(self.0, self.0 | MSG_ANONYMOUS_FLAG, self.0 & !MSG_ANONYMOUS_FLAG);
        }
        if value {
            *self = Self(self.0 | MSG_ANONYMOUS_FLAG);
        } else {
            *self = Self(self.0 & !MSG_ANONYMOUS_FLAG);
        }
    }

    /// Returns the subject.
    pub fn subject(self) -> (r: SubjectId)
        ensures
            r == self@.subject,
    {
        proof {
            lemma_get(self.0);
        }
        SubjectId::from_u16_truncating(((self.0 >> MSG_SUBJECT_OFFSET) & SUBJECT_ID_MASK) as u16)
    }

    /// Replaces the subject.
    pub fn set_subject(&mut self, value: SubjectId)
        ensures
            final(self)@ == (MessageFields { subject: value, ..old(self)@ }),
    {
        broadcast use SubjectId::lemma_value;
        proof {
            use_type_invariant(&*self);
        }
        let v: u32 = value.into_u16() as u32;
        let id: u32 = (self.0 & !(SUBJECT_ID_MASK << MSG_SUBJECT_OFFSET)) | (v << MSG_SUBJECT_OFFSET);
        proof {
            lemma_set_subject(self.0, v, id);
            assert(SubjectId::of(value.value()) == value);
        }
        *self = Self(id);
    }

    /// Returns the source.
    pub fn source(self) -> (r: NodeId)
        ensures
            r == self@.source,
    {
        proof {
            lemma_get(self.0);
        }
        NodeId::from_u8_truncating(((self.0 >> SOURCE_OFFSET) & NODE_ID_MASK) as u8)
    }

    /// Replaces the source.
    pub fn set_source(&mut self, value: NodeId)
        ensures
            final(self)@ == (MessageFields { source: value, ..old(self)@ }),
    {
        broadcast use NodeId::lemma_value;
        proof {
            use_type_invariant(&*self);
        }
        let v: u32 = value.into_u8() as u32;
        let id: u32 = (self.0 & !(NODE_ID_MASK << SOURCE_OFFSET)) | (v << SOURCE_OFFSET);
        proof {
            lemma_set_source(self.0, v, id);
            assert(NodeId::of(value.value()) == value);
        }
        *self = Self(id);
    }

    /// Returns the number.
    pub fn into_u32(self) -> (r: u32)
        ensures
            r == self.number(),
            r == message_id(self@),
            r < 0x2000_0000,
    {
        broadcast use {SubjectId::lemma_of, NodeId::lemma_of};
        proof {
            use_type_invariant(&self);
            lemma_sum(self.0);
        }
        self.0
    }
}

impl Default for MessageCanId {
    fn default() -> (r: Self)
        ensures
            r@ == (MessageFields {
                priority: Priority::Exceptional,
                anonymous: false,
                subject: SubjectId::of(0),
                source: NodeId::of(0),
            }),
    {
        Self::new()
    }
}

impl From<MessageCanId> for u32 {
    fn from(value: MessageCanId) -> (r: Self)
        ensures
            r == message_id(value@),
    {
        value.into_u32()
    }
}

impl FromSpecImpl<MessageCanId> for u32 {
    open spec fn obeys_from_spec() -> bool {
        true
    }

    open spec fn from_spec(value: MessageCanId) -> u32 {
        value.number()
    }
}

/// The identifier of a service transfer.
#[derive(Clone, Copy, PartialEq, Eq, PartialOrd, Ord)]
pub struct ServiceCanId(u32);

impl View for ServiceCanId {
    type V = ServiceFields;

    closed spec fn view(&self) -> ServiceFields {
        service_fields(self.0)
    }
}

impl ServiceCanId {
    /// The number of the identifier.
    pub closed spec fn number(self) -> u32 {
        self.0
    }

    #[verifier::type_invariant]
    spec fn inv(self) -> bool {
        self.0 < 0x2000_0000 && is_service_id(self.0)
    }

    /// Returns the identifier with all fields zero.
    pub fn new() -> (r: Self)
        ensures
            r@ == (ServiceFields {
                priority: Priority::Exceptional,
                request: false,
                service: ServiceId::of(0),
                destination: NodeId::of(0),
                source: NodeId::of(0),
            }),
    {
        assert(SRV_CHECK_VALUE | SRV_IGNORE_MASK == 0x200_0000u32) by (bit_vector);
        Self(SRV_CHECK_VALUE | SRV_IGNORE_MASK)
    }

    /// Returns the identifier given by the 29 least significant bits of a number, if it is one
    /// of a service transfer.
    pub fn from_can_id(can_id: u32) -> (r: Option<Self>)
        ensures
            r is Some <==> is_service_id(can_id),
            r matches Some(id) ==> id@ == service_fields(can_id),
    {
        proof {
            lemma_check(can_id, (can_id & CAN_ID_MASK) | MSG_IGNORE_MASK);
            lemma_cut(can_id, can_id % 0x2000_0000);
        }
        if can_id & SRV_CHECK_MASK == SRV_CHECK_VALUE {
            Some(Self((can_id & CAN_ID_MASK) | SRV_IGNORE_MASK))
        } else {
            None
        }
    }

    /// Returns the priority.
    pub fn priority(self) -> (r: Priority)
        ensures
            r == self@.priority,
    {
        proof {
            lemma_get(self.0);
        }
        Priority::from_u8_truncating(((self.0 >> PRIORITY_OFFSET) & PRIORITY_MASK) as u8)
    }

    /// Replaces the priority.
    pub fn set_priority(&mut self, value: Priority)
        ensures
            final(self)@ == (ServiceFields { priority: value, ..old(self)@ }),
    {
        proof {
            use_type_invariant(&*self);
        }
        let v: u32 = value.into_u8() as u32;
        let id: u32 = (self.0 & !(PRIORITY_MASK << PRIORITY_OFFSET)) | (v << PRIORITY_OFFSET);
        proof {
            lemma_set_priority(self.0, v, id);
        }
        *self = Self(id);
    }

    /// Tells whether the transfer is a request.
    pub fn request(self) -> (r: bool)
        ensures
            r == self@.request,
    {
        proof {
            lemma_get(self.0);
        }
        self.0 & SRV_REQUEST_FLAG != 0
    }

    /// Replaces the flag of requests.
    pub fn set_request(&mut self, value: bool)
        ensures
            final(self)@ == (ServiceFields { request: value, ..old(self)@ }),
    {
        proof {
            use_type_invariant(&*self);
            lemma_set_flag(self.0, self.0 | SRV_REQUEST_FLAG, self.0 & !SRV_REQUEST_FLAG);
        }
        if value {
            *self = Self(self.0 | SRV_REQUEST_FLAG);
        } else {
            *self = Self(self.0 & !SRV_REQUEST_FLAG);
        }
    }

    /// Returns the service.
    pub fn service(self) -> (r: ServiceId)
        ensures
            r == self@.service,
    {
        proof {
            lemma_get(self.0);
        }
        ServiceId::from_u16_truncating(((self.0 >> SRV_SERVICE_OFFSET) & SERVICE_ID_MASK) as u16)
    }

    /// Replaces the service.
    pub fn set_service(&mut self, value: ServiceId)
        ensures
            final(self)@ == (ServiceFields { service: value, ..old(self)@ }),
    {
        broadcast use ServiceId::lemma_value;
        proof {
            use_type_invariant(&*self);
        }
        let v: u32 = value.into_u16() as u32;
        let id: u32 = (self.0 & !(SERVICE_ID_MASK << SRV_SERVICE_OFFSET)) | (v << SRV_SERVICE_OFFSET);
        proof {
            lemma_set_service(self.0, v, id);
            assert(ServiceId::of(value.value()) == value);
        }
        *self = Self(id);
    }

    /// Returns the destination.
    pub fn destination(self) -> (r: NodeId)
        ensures
            r == self@.destination,
    {
        proof {
            lemma_get(self.0);
        }
        NodeId::from_u8_truncating(((self.0 >> SRV_DESTINATION_OFFSET) & NODE_ID_MASK) as u8)
    }

    /// Replaces the destination.
    pub fn set_destination(&mut self, value: NodeId)
        ensures
            final(self)@ == (ServiceFields { destination: value, ..old(self)@ }),
    {
        broadcast use NodeId::lemma_value;
        proof {
            use_type_invariant(&*self);
        }
        let v: u32 = value.into_u8() as u32;
        let id: u32 = (self.0 & !(NODE_ID_MASK << SRV_DESTINATION_OFFSET)) | (v << SRV_DESTINATION_OFFSET);
        proof {
            lemma_set_destination(self.0, v, id);
            assert(NodeId::of(value.value()) == value);
        }
        *self = Self(id);
    }

    /// Returns the source.
    pub fn source(self) -> (r: NodeId)
        ensures
            r == self@.source,
    {
        proof {
            lemma_get(self.0);
        }
        NodeId::from_u8_truncating(((self.0 >> SOURCE_OFFSET) & NODE_ID_MASK) as u8)
    }

    /// Replaces the source.
    pub fn set_source(&mut self, value: NodeId)
        ensures
            final(self)@ == (ServiceFields { source: value, ..old(self)@ }),
    {
        broadcast use NodeId::lemma_value;
        proof {
            use_type_invariant(&*self);
        }
        let v: u32 = value.into_u8() as u32;
        let id: u32 = (self.0 & !(NODE_ID_MASK << SOURCE_OFFSET)) | (v << SOURCE_OFFSET);
        proof {
            lemma_set_source(self.0, v, id);
            assert(NodeId::of(value.value()) == value);
        }
        *self = Self(id);
    }

    /// Returns the number.
    pub fn into_u32(self) -> (r: u32)
        ensures
            r == self.number(),
            r == service_id(self@),
            r < 0x2000_0000,
    {
        broadcast use {ServiceId::lemma_of, NodeId::lemma_of};
        proof {
            use_type_invariant(&self);
            lemma_sum(self.0);
        }
        self.0
    }
}

impl Default for ServiceCanId {
    fn default() -> (r: Self)
        ensures
            r@ == (ServiceFields {
                priority: Priority::Exceptional,
                request: false,
                service: ServiceId::of(0),
                destination: NodeId::of(0),
                source: NodeId::of(0),
            }),
    {
        Self::new()
    }
}

impl From<ServiceCanId> for u32 {
    fn from(value: ServiceCanId) -> (r: Self)
        ensures
            r == service_id(value@),
    {
        value.into_u32()
    }
}

impl FromSpecImpl<ServiceCanId> for u32 {
    open spec fn obeys_from_spec() -> bool {
        true
    }

    open spec fn from_spec(value: ServiceCanId) -> u32 {
        value.number()
    }
}

/// Returns the priority that every kind of identifier holds in its most significant bits.
pub fn decode_can_id_priority(can_id: u32) -> (r: Priority)
    ensures
        r == Priority::of_code((can_id / 0x400_0000) as int),
{
    proof {
        lemma_get(can_id);
    }
    Priority::from_u8_truncating(((can_id >> PRIORITY_OFFSET) & PRIORITY_MASK) as u8)
}

/// The pattern of a filter for the messages of a subject, or of a filter that is not in use.
pub open spec fn msg_pattern(subject: Option<SubjectId>) -> u32 {
    match subject {
        Some(id) => (id.value() * 0x100) as u32,
        None => 0x1d60_007f,
    }
}

/// The pattern of a filter for the service transfers to a node, or of a filter that is not in use.
pub open spec fn srv_pattern(node: Option<NodeId>) -> u32 {
    match node {
        Some(id) => (0x200_0000 + id.value() * 0x80) as u32,
        None => 0x1d7f_ffff,
    }
}

/// The subject of a pattern.
pub open spec fn pattern_subject(pattern: u32) -> Option<SubjectId> {
    if pattern & !MSG_FILTER_MASK == 0 {
        Some(SubjectId::of((pattern / 0x100 % 0x2000) as u16))
    } else {
        None
    }
}

/// The node of a pattern.
pub open spec fn pattern_node(pattern: u32) -> Option<NodeId> {
    if pattern & !SRV_FILTER_MASK == 0 {
        Some(NodeId::of((pattern / 0x80 % 0x80) as u8))
    } else {
        None
    }
}

/// What the patterns of message filters let pass.
proof fn lemma_msg_pattern(id: u32, v: u32, p: u32)
    by (bit_vector)
    requires
        v < 0x2000,
        p == MSG_CHECK_VALUE | (v << MSG_SUBJECT_OFFSET),
    ensures
        p == v * 0x100,
        p & !MSG_FILTER_MASK == 0,
        p / 0x100 % 0x2000 == v,
        (id & MSG_FILTER_MASK == p) == (is_message_id(id) && id / 0x100 % 0x2000 == v),
        !MSG_FILTER_MASK & CAN_ID_MASK == 0x1d60_007fu32,
        0x1d60_007fu32 & !MSG_FILTER_MASK != 0,
        id & MSG_FILTER_MASK != 0x1d60_007fu32,
{
}

/// What the patterns of the service filter let pass.
proof fn lemma_srv_pattern(id: u32, v: u32, p: u32)
    by (bit_vector)
    requires
        v < 0x80,
        p == SRV_CHECK_VALUE | (v << SRV_DESTINATION_OFFSET),
    ensures
        p == 0x200_0000 + v * 0x80,
        p & !SRV_FILTER_MASK == 0,
        p / 0x80 % 0x80 == v,
        (id & SRV_FILTER_MASK == p & SRV_FILTER_MASK) == (is_service_id(id) && id / 0x80 % 0x80 == v),
        !SRV_CHECK_MASK & CAN_ID_MASK == 0x1d7f_ffffu32,
        0x1d7f_ffffu32 & !SRV_FILTER_MASK != 0,
        id & SRV_FILTER_MASK == 0x1d7f_ffffu32 & SRV_FILTER_MASK ==> !is_message_id(id) && !is_service_id(id),
        (id & MSG_FILTER_MASK) & SRV_FILTER_MASK == id & SRV_FILTER_MASK,
{
}

/// Returns the pattern of a message filter.
pub fn make_msg_filter_pattern(val: Option<SubjectId>) -> (r: u32)
    ensures
        r == msg_pattern(val),
{
    proof {
        lemma_msg_pattern(0, 0, MSG_CHECK_VALUE | (0u32 << MSG_SUBJECT_OFFSET));
    }
    if let Some(subject) = val {
        let v: u32 = subject.into_u16() as u32;
        proof {
            lemma_msg_pattern(0, v, MSG_CHECK_VALUE | (v << MSG_SUBJECT_OFFSET));
        }
        MSG_CHECK_VALUE | (v << MSG_SUBJECT_OFFSET)
    } else {
        !MSG_FILTER_MASK & CAN_ID_MASK
    }
}

/// Returns the subject of the pattern of a message filter.
pub fn decode_msg_filter_pattern(pattern: u32) -> (r: Option<SubjectId>)
    ensures
        r == pattern_subject(pattern),
{
    if pattern & !MSG_FILTER_MASK == 0 {
        proof {
            lemma_get(pattern);
        }
        Some(SubjectId::from_u16_truncating(((pattern >> MSG_SUBJECT_OFFSET) & SUBJECT_ID_MASK) as u16))
    } else {
        None
    }
}

/// Returns the pattern of the service filter.
pub fn make_srv_filter_pattern(dest: Option<NodeId>) -> (r: u32)
    ensures
        r == srv_pattern(dest),
{
    proof {
        lemma_srv_pattern(0, 0, SRV_CHECK_VALUE | (0u32 << SRV_DESTINATION_OFFSET));
    }
    if let Some(node) = dest {
        let v: u32 = node.into_u8() as u32;
        proof {
            lemma_srv_pattern(0, v, SRV_CHECK_VALUE | (v << SRV_DESTINATION_OFFSET));
        }
        SRV_CHECK_VALUE | (v << SRV_DESTINATION_OFFSET)
    } else {
        !SRV_CHECK_MASK & CAN_ID_MASK
    }
}

/// Returns the node of the pattern of the service filter.
pub fn decode_srv_filter_pattern(pattern: u32) -> (r: Option<NodeId>)
    ensures
        r == pattern_node(pattern),
{
    if pattern & !SRV_FILTER_MASK == 0 {
        proof {
            lemma_get(pattern);
        }
        Some(NodeId::from_u8_truncating(((pattern >> SRV_DESTINATION_OFFSET) & NODE_ID_MASK) as u8))
    } else {
        None
    }
}

/// What was written into a message filter is read back.
pub proof fn law_msg_pattern_round_trip(subject: Option<SubjectId>)
    requires
        subject matches Some(id) ==> SubjectId::is_valid(id.value() as int),
    ensures
        pattern_subject(msg_pattern(subject)) == subject,
{
    broadcast use SubjectId::lemma_value;
    let v: u32 = match subject {
        Some(id) => id.value() as u32,
        None => 0,
    };
    lemma_msg_pattern(0, v, MSG_CHECK_VALUE | (v << MSG_SUBJECT_OFFSET));
    if let Some(id) = subject {
        assert(SubjectId::of(id.value()) == id);
    }
}

/// What was written into the service filter is read back.
pub proof fn law_srv_pattern_round_trip(node: Option<NodeId>)
    requires
        node matches Some(id) ==> NodeId::is_valid(id.value() as int),
    ensures
        pattern_node(srv_pattern(node)) == node,
{
    broadcast use NodeId::lemma_value;
    let v: u32 = match node {
        Some(id) => id.value() as u32,
        None => 0,
    };
    lemma_srv_pattern(0, v, SRV_CHECK_VALUE | (v << SRV_DESTINATION_OFFSET));
    if let Some(id) = node {
        assert(NodeId::of(id.value()) == id);
    }
}

/// The filter of a subject lets exactly the messages of the subject pass.
pub proof fn law_msg_filter(id: u32, subject: SubjectId)
    requires
        SubjectId::is_valid(subject.value() as int),
    ensures
        id & MSG_FILTER_MASK == msg_pattern(Some(subject)) <==> is_message_id(id) && message_fields(
            id,
        ).subject == subject,
{
    broadcast use {SubjectId::lemma_value, SubjectId::lemma_of};
    let v: u32 = subject.value() as u32;
    lemma_msg_pattern(id, v, MSG_CHECK_VALUE | (v << MSG_SUBJECT_OFFSET));
    assert(SubjectId::of(subject.value()) == subject);
}

/// A message filter that is not in use lets nothing pass.
pub proof fn law_free_msg_filter(id: u32)
    ensures
        id & MSG_FILTER_MASK != msg_pattern(None),
{
    lemma_msg_pattern(id, 0, MSG_CHECK_VALUE | (0u32 << MSG_SUBJECT_OFFSET));
}

/// The service filter of a node lets exactly the service transfers to the node pass.
pub proof fn law_srv_filter(id: u32, node: NodeId)
    requires
        NodeId::is_valid(node.value() as int),
    ensures
        id & SRV_FILTER_MASK == srv_pattern(Some(node)) & SRV_FILTER_MASK <==> is_service_id(id)
            && service_fields(id).destination == node,
{
    broadcast use {NodeId::lemma_value, NodeId::lemma_of};
    let v: u32 = node.value() as u32;
    lemma_srv_pattern(id, v, SRV_CHECK_VALUE | (v << SRV_DESTINATION_OFFSET));
    assert(NodeId::of(node.value()) == node);
}

/// A service filter that is not in use lets neither messages nor service transfers pass.
pub proof fn law_free_srv_filter(id: u32)
    ensures
        id & SRV_FILTER_MASK == srv_pattern(None) & SRV_FILTER_MASK ==> !is_message_id(id)
            && !is_service_id(id),
{
    lemma_srv_pattern(id, 0, SRV_CHECK_VALUE | (0u32 << SRV_DESTINATION_OFFSET));
}

/// A global mask with the bits of the message filters does not affect the service filter.
pub proof fn law_global_mask(id: u32)
    ensures
        (id & MSG_FILTER_MASK) & SRV_FILTER_MASK == id & SRV_FILTER_MASK,
{
    lemma_srv_pattern(id, 0, SRV_CHECK_VALUE | (0u32 << SRV_DESTINATION_OFFSET));
}

/// The fields of a message survive their way through the identifier.
pub proof fn lemma_message_round_trip(fields: MessageFields)
    requires
        SubjectId::is_valid(fields.subject.value() as int),
        NodeId::is_valid(fields.source.value() as int),
    ensures
        0 <= message_id(fields) < 0x2000_0000,
        is_message_id(message_id(fields) as u32),
        message_fields(message_id(fields) as u32) == fields,
{
    broadcast use {SubjectId::lemma_value, NodeId::lemma_value};
    let x = message_id(fields);
    let a: int = if fields.anonymous {
        1
    } else {
        0
    };
    let (p, s, n) = (fields.priority.code() as int, fields.subject.value() as int, fields.source.value() as int);
    assert(x == p * 0x400_0000 + a * 0x100_0000 + 0x60_0000 + s * 0x100 + n);
    assert(x / 0x80 == p * 0x8_0000 + a * 0x2_0000 + 0xc000 + s * 2);
    assert(x / 0x100 == p * 0x4_0000 + a * 0x1_0000 + 0x6000 + s);
    assert(x / 0x80_0000 == p * 8 + a * 2);
    assert(x / 0x100_0000 == p * 4 + a);
    assert(x / 0x200_0000 == p * 2);
    assert(x / 0x400_0000 == p);
    assert(SubjectId::of(fields.subject.value()) == fields.subject);
    assert(NodeId::of(fields.source.value()) == fields.source);
}

/// The fields of a service transfer survive their way through the identifier.
pub proof fn lemma_service_round_trip(fields: ServiceFields)
    requires
        ServiceId::is_valid(fields.service.value() as int),
        NodeId::is_valid(fields.destination.value() as int),
        NodeId::is_valid(fields.source.value() as int),
    ensures
        0 <= service_id(fields) < 0x2000_0000,
        is_service_id(service_id(fields) as u32),
        service_fields(service_id(fields) as u32) == fields,
{
    broadcast use {ServiceId::lemma_value, NodeId::lemma_value};
    let x = service_id(fields);
    let a: int = if fields.request {
        1
    } else {
        0
    };
    let (p, s, d, n) = (
        fields.priority.code() as int,
        fields.service.value() as int,
        fields.destination.value() as int,
        fields.source.value() as int,
    );
    assert(x == p * 0x400_0000 + 0x200_0000 + a * 0x100_0000 + s * 0x4000 + d * 0x80 + n);
    assert(x / 0x80 == p * 0x8_0000 + 0x4_0000 + a * 0x2_0000 + s * 0x80 + d);
    assert(x / 0x4000 == p * 0x1000 + 0x800 + a * 0x400 + s);
    assert(x / 0x80_0000 == p * 8 + 4 + a * 2);
    assert(x / 0x100_0000 == p * 4 + 2 + a);
    assert(x / 0x200_0000 == p * 2 + 1);
    assert(x / 0x400_0000 == p);
    assert(ServiceId::of(fields.service.value()) == fields.service);
    assert(NodeId::of(fields.destination.value()) == fields.destination);
    assert(NodeId::of(fields.source.value()) == fields.source);
}

} // verus!

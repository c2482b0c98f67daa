//! Frame headers and the CAN identifiers that encode them.

use vstd::prelude::*;

use crate::frame::{DataSpecifier, Header};
use crate::ids::{NodeId, ServiceId, SubjectId};
use crate::priority::{law_priority_codes, Priority};
use crate::stm32::format::{
    is_message_id, is_service_id, lemma_message_round_trip, lemma_service_round_trip, message_fields,
    message_id, service_fields, service_id, MessageCanId, MessageFields, ServiceCanId, ServiceFields,
};

verus! {

/// A header cannot be sent: it has no source, or its destination does not fit to its kind.
#[derive(Debug, Clone, Copy, PartialEq, Eq, Structural)]
pub struct InvalidFrameHeader;

/// Messages have no destination, service transfers have one, and the source is known.
pub open spec fn is_sendable(header: &Header) -> bool {
    header.source is Some && (header.destination is Some <==> !(header.data_spec is Message))
}

/// The identifiers of a header are in their ranges.
pub open spec fn has_valid_ids(header: &Header) -> bool {
    &&& header.source matches Some(id) ==> NodeId::is_valid(id.value() as int)
    &&& header.destination matches Some(id) ==> NodeId::is_valid(id.value() as int)
    &&& match header.data_spec {
        DataSpecifier::Message(id) => SubjectId::is_valid(id.value() as int),
        DataSpecifier::Request(id) => ServiceId::is_valid(id.value() as int),
        DataSpecifier::Response(id) => ServiceId::is_valid(id.value() as int),
    }
}

/// The CAN identifier of a header that can be sent.
pub open spec fn header_id(header: &Header) -> int {
    match header.data_spec {
        DataSpecifier::Message(subject) => message_id(
            MessageFields { priority: header.priority, anonymous: false, subject, source: header.source->0 },
        ),
        DataSpecifier::Request(service) => service_id(
            ServiceFields {
                priority: header.priority,
                request: true,
                service,
                destination: header.destination->0,
                source: header.source->0,
            },
        ),
        DataSpecifier::Response(service) => service_id(
            ServiceFields {
                priority: header.priority,
                request: false,
                service,
                destination: header.destination->0,
                source: header.source->0,
            },
        ),
    }
}

/// The header of a message.
pub open spec fn message_header(fields: MessageFields) -> Header {
    Header {
        priority: fields.priority,
        data_spec: DataSpecifier::Message(fields.subject),
        source: if fields.anonymous {
            None
        } else {
            Some(fields.source)
        },
        destination: None,
    }
}

/// The header of a service transfer.
pub open spec fn service_header(fields: ServiceFields) -> Header {
    Header {
        priority: fields.priority,
        data_spec: if fields.request {
            DataSpecifier::Request(fields.service)
        } else {
            DataSpecifier::Response(fields.service)
        },
        source: Some(fields.source),
        destination: Some(fields.destination),
    }
}

/// The header that a CAN identifier encodes.
pub open spec fn id_header(can_id: u32) -> Option<Header> {
    if is_message_id(can_id) {
        Some(message_header(message_fields(can_id)))
    } else if is_service_id(can_id) {
        Some(service_header(service_fields(can_id)))
    } else {
        None
    }
}

/// Returns the CAN identifier of a header. Anonymous frames are not supported.
pub fn make_can_id(header: &Header) -> (r: Result<u32, InvalidFrameHeader>)
    ensures
        r is Ok <==> is_sendable(header),
        r matches Ok(id) ==> id == header_id(header) && id < 0x2000_0000,
{
    match (header.data_spec, header.destination, header.source) {
        (DataSpecifier::Message(subject), None, Some(src)) => {
            let mut can_id = MessageCanId::new();
            can_id.set_priority(header.priority);
            can_id.set_anonymous(false);
            can_id.set_subject(subject);
            can_id.set_source(src);
            Ok(can_id.into_u32())
        },
        (DataSpecifier::Request(service), Some(dst), Some(src)) => {
            let mut can_id = ServiceCanId::new();
            can_id.set_priority(header.priority);
            can_id.set_request(true);
            can_id.set_service(service);
            can_id.set_destination(dst);
            can_id.set_source(src);
            Ok(can_id.into_u32())
        },
        (DataSpecifier::Response(service), Some(dst), Some(src)) => {
            let mut can_id = ServiceCanId::new();
            can_id.set_priority(header.priority);
            can_id.set_request(false);
            can_id.set_service(service);
            can_id.set_destination(dst);
            can_id.set_source(src);
            Ok(can_id.into_u32())
        },
        _ => Err(InvalidFrameHeader),
    }
}

/// Returns the header of a message identifier.
pub fn load_msg_frame_header(can_id: u32) -> (r: Option<Header>)
    ensures
        r == (if is_message_id(can_id) { Some(message_header(message_fields(can_id))) } else { None }),
{
    let msg_id = MessageCanId::from_can_id(can_id)?;
    Some(
        Header {
            priority: msg_id.priority(),
            data_spec: DataSpecifier::Message(msg_id.subject()),
            source: if !msg_id.anonymous() {
                Some(msg_id.source())
            } else {
                None
            },
            destination: None,
        },
    )
}

/// Returns the header of a service identifier.
pub fn load_srv_frame_header(can_id: u32) -> (r: Option<Header>)
    ensures
        r == (if is_service_id(can_id) { Some(service_header(service_fields(can_id))) } else { None }),
{
    let srv_id = ServiceCanId::from_can_id(can_id)?;
    Some(
        Header {
            priority: srv_id.priority(),
            data_spec: if srv_id.request() {
                DataSpecifier::Request(srv_id.service())
            } else {
                DataSpecifier::Response(srv_id.service())
            },
            source: Some(srv_id.source()),
            destination: Some(srv_id.destination()),
        },
    )
}

/// Returns the header of an identifier of either kind.
pub fn convert_raw_header(can_id: u32) -> (r: Option<Header>)
    ensures
        r == id_header(can_id),
{
    match load_msg_frame_header(can_id) {
        Some(header) => Some(header),
        None => load_srv_frame_header(can_id),
    }
}

/// A header that is sent is the header that is received.
pub proof fn law_header_round_trip(header: Header)
    requires
        is_sendable(&header),
        has_valid_ids(&header),
    ensures
        0 <= header_id(&header) < 0x2000_0000,
        id_header(header_id(&header) as u32) == Some(header),
        header.data_spec is Message <==> is_message_id(header_id(&header) as u32),
        !(header.data_spec is Message) <==> is_service_id(header_id(&header) as u32),
{
    match header.data_spec {
        DataSpecifier::Message(subject) => {
            lemma_message_round_trip(
                MessageFields {
                    priority: header.priority,
                    anonymous: false,
                    subject,
                    source: header.source->0,
                },
            );
        },
        DataSpecifier::Request(service) => {
            lemma_service_round_trip(
                ServiceFields {
                    priority: header.priority,
                    request: true,
                    service,
                    destination: header.destination->0,
                    source: header.source->0,
                },
            );
        },
        DataSpecifier::Response(service) => {
            lemma_service_round_trip(
                ServiceFields {
                    priority: header.priority,
                    request: false,
                    service,
                    destination: header.destination->0,
                    source: header.source->0,
                },
            );
        },
    }
}

/// On the bus the smaller identifier wins: the frame of the more urgent priority.
pub proof fn law_arbitration(a: Header, b: Header)
    requires
        is_sendable(&a),
        has_valid_ids(&a),
        is_sendable(&b),
        has_valid_ids(&b),
        a.priority.code() < b.priority.code(),
    ensures
        header_id(&a) < header_id(&b),
{
}

/// Which headers can be sent: those of messages without a destination and of service transfers with
/// one, from a node with an address.
pub proof fn law_sendable_headers(header: Header)
    ensures
        is_sendable(&header) <==> header.source is Some && (match header.data_spec {
            DataSpecifier::Message(_) => header.destination is None,
            DataSpecifier::Request(_) => header.destination is Some,
            DataSpecifier::Response(_) => header.destination is Some,
        }),
{
}

/// The bits of an identifier that is sent, from the top: three of the priority, one that tells a
/// service transfer, one that tells a request, a zero, and then either two ones, 13 bits of the
/// subject, a zero and 7 bits of the source, or 9 bits of the service, 7 of the destination and 7 of
/// the source.
pub proof fn law_identifier_layout(header: Header)
    requires
        is_sendable(&header),
        has_valid_ids(&header),
    ensures
        ({
            let id = header_id(&header);
            &&& 0 <= id < 0x2000_0000
            &&& id / 0x400_0000 == header.priority.code()
            &&& id / 0x80_0000 % 2 == 0
            &&& id % 0x80 == header.source->0.value()
            &&& match header.data_spec {
                DataSpecifier::Message(subject) => {
                    &&& id / 0x200_0000 % 2 == 0
                    &&& id / 0x100_0000 % 2 == 0
                    &&& id / 0x20_0000 % 4 == 3
                    &&& id / 0x100 % 0x2000 == subject.value()
                    &&& id / 0x80 % 2 == 0
                },
                DataSpecifier::Request(service) => {
                    &&& id / 0x200_0000 % 2 == 1
                    &&& id / 0x100_0000 % 2 == 1
                    &&& id / 0x4000 % 0x200 == service.value()
                    &&& id / 0x80 % 0x80 == header.destination->0.value()
                },
                DataSpecifier::Response(service) => {
                    &&& id / 0x200_0000 % 2 == 1
                    &&& id / 0x100_0000 % 2 == 0
                    &&& id / 0x4000 % 0x200 == service.value()
                    &&& id / 0x80 % 0x80 == header.destination->0.value()
                },
            }
        }),
{
    let p = header.priority.code() as int;
    let n = header.source->0.value() as int;
    match header.data_spec {
        DataSpecifier::Message(subject) => {
            lemma_message_bits(p, subject.value() as int, n);
        },
        DataSpecifier::Request(service) => {
            lemma_service_bits(p, 1, service.value() as int, header.destination->0.value() as int, n);
        },
        DataSpecifier::Response(service) => {
            lemma_service_bits(p, 0, service.value() as int, header.destination->0.value() as int, n);
        },
    }
}

/// The bits of the identifier of a message.
proof fn lemma_message_bits(p: int, s: int, n: int)
    requires
        0 <= p < 8,
        0 <= s < 0x2000,
        0 <= n < 0x80,
    ensures
        ({
            let id = p * 0x400_0000 + 0x60_0000 + s * 0x100 + n;
            &&& 0 <= id < 0x2000_0000
            &&& id / 0x400_0000 == p
            &&& id / 0x200_0000 % 2 == 0
            &&& id / 0x100_0000 % 2 == 0
            &&& id / 0x80_0000 % 2 == 0
            &&& id / 0x20_0000 % 4 == 3
            &&& id / 0x100 % 0x2000 == s
            &&& id / 0x80 % 2 == 0
            &&& id % 0x80 == n
        }),
{
    let id = p * 0x400_0000 + 0x60_0000 + s * 0x100 + n;
    assert(id / 0x400_0000 == p);
    assert(id / 0x200_0000 == 2 * p);
    assert(id / 0x100_0000 == 4 * p);
    assert(id / 0x80_0000 == 8 * p);
    assert(id / 0x20_0000 == 32 * p + 3);
    assert(id / 0x100 == 0x4_0000 * p + 0x6000 + s);
    assert(id / 0x80 == 0x8_0000 * p + 0xc000 + 2 * s);
    assert(id % 0x80 == n);
    assert((32 * p + 3) % 4 == 3);
    assert((0x4_0000 * p + 0x6000 + s) % 0x2000 == s);
}

/// The bits of the identifier of a service transfer.
proof fn lemma_service_bits(p: int, r: int, s: int, d: int, n: int)
    requires
        0 <= p < 8,
        0 <= r < 2,
        0 <= s < 0x200,
        0 <= d < 0x80,
        0 <= n < 0x80,
    ensures
        ({
            let id = p * 0x400_0000 + 0x200_0000 + r * 0x100_0000 + s * 0x4000 + d * 0x80 + n;
            &&& 0 <= id < 0x2000_0000
            &&& id / 0x400_0000 == p
            &&& id / 0x200_0000 % 2 == 1
            &&& id / 0x100_0000 % 2 == r
            &&& id / 0x80_0000 % 2 == 0
            &&& id / 0x4000 % 0x200 == s
            &&& id / 0x80 % 0x80 == d
            &&& id % 0x80 == n
        }),
{
    let id = p * 0x400_0000 + 0x200_0000 + r * 0x100_0000 + s * 0x4000 + d * 0x80 + n;
    assert(id / 0x400_0000 == p);
    assert(id / 0x200_0000 == 2 * p + 1);
    assert(id / 0x100_0000 == 4 * p + 2 + r);
    assert(id / 0x80_0000 == 8 * p + 4 + 2 * r);
    assert(id / 0x4000 == 0x1000 * p + 0x800 + 0x400 * r + s);
    assert(id / 0x80 == 0x8_0000 * p + 0x4_0000 + 0x2_0000 * r + 0x80 * s + d);
    assert(id % 0x80 == n);
    assert((0x1000 * p + 0x800 + 0x400 * r + s) % 0x200 == s);
    assert((0x8_0000 * p + 0x4_0000 + 0x2_0000 * r + 0x80 * s + d) % 0x80 == d);
}

/// What an identifier that is received means. The identifiers of messages have a zero at the bits 25, 23
/// and 7, those of service transfers a one at bit 25 and a zero at bit 23, and all other ones mean
/// nothing. A message with a one at bit 24 is anonymous.
pub proof fn law_identifier_reading(id: u32)
    requires
        id < 0x2000_0000,
    ensures
        ({
            let is_message = id / 0x200_0000 % 2 == 0 && id / 0x80_0000 % 2 == 0 && id / 0x80 % 2 == 0;
            let is_service = id / 0x200_0000 % 2 == 1 && id / 0x80_0000 % 2 == 0;
            match id_header(id) {
                Some(header) => {
                    &&& header.priority.code() == id / 0x400_0000
                    &&& match header.data_spec {
                        DataSpecifier::Message(subject) => {
                            &&& is_message
                            &&& subject.value() == id / 0x100 % 0x2000
                            &&& header.destination is None
                            &&& header.source is None <==> id / 0x100_0000 % 2 == 1
                            &&& header.source matches Some(source) ==> source.value() == id % 0x80
                        },
                        DataSpecifier::Request(service) => {
                            &&& is_service
                            &&& id / 0x100_0000 % 2 == 1
                            &&& service.value() == id / 0x4000 % 0x200
                            &&& header.destination matches Some(node) && node.value() == id / 0x80 % 0x80
                            &&& header.source matches Some(node) && node.value() == id % 0x80
                        },
                        DataSpecifier::Response(service) => {
                            &&& is_service
                            &&& id / 0x100_0000 % 2 == 0
                            &&& service.value() == id / 0x4000 % 0x200
                            &&& header.destination matches Some(node) && node.value() == id / 0x80 % 0x80
                            &&& header.source matches Some(node) && node.value() == id % 0x80
                        },
                    }
                },
                None => !is_message && !is_service,
            }
        }),
{
    broadcast use {SubjectId::lemma_of, ServiceId::lemma_of, NodeId::lemma_of};

    let c = (id / 0x400_0000) as int;
    assert(0 <= c < 8);
    law_priority_codes(Priority::Nominal, Priority::Nominal, c);
}

} // verus!

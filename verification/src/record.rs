//! Resource records: the tagged union keyed by the numeric record type,
//! and its wire codec. Unrecognized types decode into an opaque variant,
//! and their declared data length is skipped so that the records after
//! them stay readable.

use vstd::prelude::*;

use crate::buffer::{
    be16, be16_bytes, be32, be32_bytes, encodable_name, name_at, name_end, name_wire, wire_len,
    BufHandler, BUF_CAP, MAX_JUMPS,
};
use crate::question::{wf_name, QueryType};
use crate::DnsError;

verus! {

/// An IPv4 address as four plain octets.
#[derive(Debug, PartialEq, Eq, Clone, Copy)]
pub struct Ipv4Address {
    pub octets: [u8; 4],
}

/// An IPv6 address as eight plain 16-bit segments.
#[derive(Debug, PartialEq, Eq, Clone, Copy)]
pub struct Ipv6Address {
    pub segments: [u16; 8],
}

/// A resource record. Names are lowercase ASCII bytes with dots between
/// labels. An `UNKNOWN` record keeps its raw type code; its data was
/// skipped on decode and it encodes to nothing.
#[derive(Debug, PartialEq, Clone)]
pub enum DnsRecord {
    UNKNOWN { domain: Vec<u8>, qtype: u16 },
    A { domain: Vec<u8>, addr: Ipv4Address, ttl: u32 },
    NS { domain: Vec<u8>, ttl: u32, host: Vec<u8> },
    CNAME { domain: Vec<u8>, ttl: u32, host: Vec<u8> },
    MX { domain: Vec<u8>, ttl: u32, priority: u16, host: Vec<u8> },
    AAAA { domain: Vec<u8>, ttl: u32, addr: Ipv6Address },
}

/// The mathematical value of a record: names and addresses as sequences.
pub enum RecordView {
    UNKNOWN { domain: Seq<u8>, qtype: u16 },
    A { domain: Seq<u8>, addr: Seq<u8>, ttl: u32 },
    NS { domain: Seq<u8>, ttl: u32, host: Seq<u8> },
    CNAME { domain: Seq<u8>, ttl: u32, host: Seq<u8> },
    MX { domain: Seq<u8>, ttl: u32, priority: u16, host: Seq<u8> },
    AAAA { domain: Seq<u8>, ttl: u32, addr: Seq<u16> },
}

impl View for DnsRecord {
    type V = RecordView;

    open spec fn view(&self) -> RecordView {
        match self {
            DnsRecord::UNKNOWN { domain, qtype } => RecordView::UNKNOWN {
                domain: domain@,
                qtype: *qtype,
            },
            DnsRecord::A { domain, addr, ttl } => RecordView::A {
                domain: domain@,
                addr: addr.octets@,
                ttl: *ttl,
            },
            DnsRecord::NS { domain, ttl, host } => RecordView::NS {
                domain: domain@,
                ttl: *ttl,
                host: host@,
            },
            DnsRecord::CNAME { domain, ttl, host } => RecordView::CNAME {
                domain: domain@,
                ttl: *ttl,
                host: host@,
            },
            DnsRecord::MX { domain, ttl, priority, host } => RecordView::MX {
                domain: domain@,
                ttl: *ttl,
                priority: *priority,
                host: host@,
            },
            DnsRecord::AAAA { domain, ttl, addr } => RecordView::AAAA {
                domain: domain@,
                ttl: *ttl,
                addr: addr.segments@,
            },
        }
    }
}

impl RecordView {
    /// The owner name of the record.
    pub open spec fn domain(self) -> Seq<u8> {
        match self {
            RecordView::UNKNOWN { domain, .. } => domain,
            RecordView::A { domain, .. } => domain,
            RecordView::NS { domain, .. } => domain,
            RecordView::CNAME { domain, .. } => domain,
            RecordView::MX { domain, .. } => domain,
            RecordView::AAAA { domain, .. } => domain,
        }
    }

    /// Every name of the record is fit for the wire, the record's type is
    /// a recognized one, and an address has its exact width.
    pub open spec fn wf(self) -> bool {
        match self {
            RecordView::UNKNOWN { .. } => false,
            RecordView::A { domain, addr, .. } => wf_name(domain) && addr.len() == 4,
            RecordView::NS { domain, host, .. } => wf_name(domain) && wf_name(host),
            RecordView::CNAME { domain, host, .. } => wf_name(domain) && wf_name(host),
            RecordView::MX { domain, host, .. } => wf_name(domain) && wf_name(host),
            RecordView::AAAA { domain, addr, .. } => wf_name(domain) && addr.len() == 8,
        }
    }

    /// Every name of the record can be written; an unknown record writes
    /// as nothing and is always encodable.
    pub open spec fn encodable(self) -> bool {
        match self {
            RecordView::UNKNOWN { .. } => true,
            RecordView::A { domain, .. } => encodable_name(domain),
            RecordView::NS { domain, host, .. } => encodable_name(domain) && encodable_name(host),
            RecordView::CNAME { domain, host, .. } => encodable_name(domain) && encodable_name(
                host,
            ),
            RecordView::MX { domain, host, .. } => encodable_name(domain) && encodable_name(host),
            RecordView::AAAA { domain, .. } => encodable_name(domain),
        }
    }
}

/// The eight big-endian segment pairs of an IPv6 address.
pub open spec fn segments_bytes(segs: Seq<u16>) -> Seq<u8> {
    be16_bytes(segs[0]) + be16_bytes(segs[1]) + be16_bytes(segs[2]) + be16_bytes(segs[3])
        + be16_bytes(segs[4]) + be16_bytes(segs[5]) + be16_bytes(segs[6]) + be16_bytes(segs[7])
}

/// The wire form of a record: name, type, class 1, time to live, data
/// length recomputed from the payload, payload. An unknown record writes
/// as nothing.
pub open spec fn record_wire(r: RecordView) -> Seq<u8> {
    match r {
        RecordView::UNKNOWN { .. } => Seq::empty(),
        RecordView::A { domain, addr, ttl } => name_wire(domain) + be16_bytes(1) + be16_bytes(1)
            + be32_bytes(ttl) + be16_bytes(4) + addr,
        RecordView::NS { domain, ttl, host } => name_wire(domain) + be16_bytes(2) + be16_bytes(1)
            + be32_bytes(ttl) + be16_bytes(wire_len(host) as u16) + name_wire(host),
        RecordView::CNAME { domain, ttl, host } => name_wire(domain) + be16_bytes(5) + be16_bytes(
            1,
        ) + be32_bytes(ttl) + be16_bytes(wire_len(host) as u16) + name_wire(host),
        RecordView::MX { domain, ttl, priority, host } => name_wire(domain) + be16_bytes(15)
            + be16_bytes(1) + be32_bytes(ttl) + be16_bytes((wire_len(host) + 2) as u16)
            + be16_bytes(priority) + name_wire(host),
        RecordView::AAAA { domain, ttl, addr } => name_wire(domain) + be16_bytes(28) + be16_bytes(
            1,
        ) + be32_bytes(ttl) + be16_bytes(16) + segments_bytes(addr),
    }
}

/// Length of the wire form of an encodable record.
pub open spec fn record_wire_len(r: RecordView) -> int {
    match r {
        RecordView::UNKNOWN { .. } => 0,
        RecordView::A { domain, .. } => wire_len(domain) + 14,
        RecordView::NS { domain, host, .. } => wire_len(domain) + 10 + wire_len(host),
        RecordView::CNAME { domain, host, .. } => wire_len(domain) + 10 + wire_len(host),
        RecordView::MX { domain, host, .. } => wire_len(domain) + 12 + wire_len(host),
        RecordView::AAAA { domain, .. } => wire_len(domain) + 26,
    }
}

/// The record decoded at `off`, with the cursor position after it. The
/// type dispatch reads the recognized types' tails and skips the declared
/// data length of any other type.
pub open spec fn record_at(b: Seq<u8>, off: int) -> Result<(RecordView, int), DnsError> {
    match name_at(b, off, MAX_JUMPS as nat) {
        Err(e) => Err(e),
        Ok(domain) => {
            let p = name_end(b, off);
            if p + 10 > BUF_CAP {
                Err(DnsError::BufferExhausted)
            } else {
                let tnum = be16(b[p], b[p + 1]);
                let ttl = be32(b[p + 4], b[p + 5], b[p + 6], b[p + 7]);
                let rdlen = be16(b[p + 8], b[p + 9]);
                let p2 = p + 10;
                if tnum == 1 {
                    if p2 + 4 > BUF_CAP {
                        Err(DnsError::BufferExhausted)
                    } else {
                        Ok(
                            (
                                RecordView::A {
                                    domain,
                                    addr: b.subrange(p2, p2 + 4),
                                    ttl,
                                },
                                p2 + 4,
                            ),
                        )
                    }
                } else if tnum == 2 || tnum == 5 {
                    match name_at(b, p2, MAX_JUMPS as nat) {
                        Err(e) => Err(e),
                        Ok(host) => {
                            let e = name_end(b, p2);
                            if tnum == 2 {
                                Ok((RecordView::NS { domain, ttl, host }, e))
                            } else {
                                Ok((RecordView::CNAME { domain, ttl, host }, e))
                            }
                        },
                    }
                } else if tnum == 15 {
                    if p2 + 2 > BUF_CAP {
                        Err(DnsError::BufferExhausted)
                    } else {
                        let priority = be16(b[p2], b[p2 + 1]);
                        match name_at(b, p2 + 2, MAX_JUMPS as nat) {
                            Err(e) => Err(e),
                            Ok(host) => Ok(
                                (
                                    RecordView::MX { domain, ttl, priority, host },
                                    name_end(b, p2 + 2),
                                ),
                            ),
                        }
                    }
                } else if tnum == 28 {
                    if p2 + 16 > BUF_CAP {
                        Err(DnsError::BufferExhausted)
                    } else {
                        let addr = seq![
                            be16(b[p2], b[p2 + 1]),
                            be16(b[p2 + 2], b[p2 + 3]),
                            be16(b[p2 + 4], b[p2 + 5]),
                            be16(b[p2 + 6], b[p2 + 7]),
                            be16(b[p2 + 8], b[p2 + 9]),
                            be16(b[p2 + 10], b[p2 + 11]),
                            be16(b[p2 + 12], b[p2 + 13]),
                            be16(b[p2 + 14], b[p2 + 15]),
                        ];
                        Ok((RecordView::AAAA { domain, ttl, addr }, p2 + 16))
                    }
                } else {
                    if p2 + rdlen > BUF_CAP {
                        Err(DnsError::BufferExhausted)
                    } else {
                        Ok((RecordView::UNKNOWN { domain, qtype: tnum }, p2 + rdlen))
                    }
                }
            }
        },
    }
}

/// Writes a record's fixed middle fields: type, class 1, time to live,
/// and the data length recomputed by the caller from the payload.
#[verifier::rlimit(100)]
fn write_record_fields(buf_handler: &mut BufHandler, tnum: u16, ttl: u32, rdlen: u16) -> (r:
    Result<(), DnsError>)
    requires
        old(buf_handler).wf(),
    ensures
        final(buf_handler).wf(),
        match r {
            Ok(()) => old(buf_handler).cursor() + 10 <= BUF_CAP
                && final(buf_handler).cursor() == old(buf_handler).cursor() + 10
                && final(buf_handler).bytes().subrange(
                    old(buf_handler).cursor(),
                    old(buf_handler).cursor() + 10,
                ) == be16_bytes(tnum) + be16_bytes(1) + be32_bytes(ttl) + be16_bytes(rdlen)
                && (forall|i: int|
                    0 <= i < BUF_CAP
                        && !(old(buf_handler).cursor() <= i < old(buf_handler).cursor() + 10)
                        ==> final(buf_handler).bytes()[i] == old(buf_handler).bytes()[i]),
            Err(e) => e == DnsError::BufferExhausted
                && old(buf_handler).cursor() + 10 > BUF_CAP
                && (forall|i: int|
                    0 <= i < old(buf_handler).cursor() && i < BUF_CAP
                        ==> final(buf_handler).bytes()[i] == old(buf_handler).bytes()[i]),
        },
{
    let ghost c0 = buf_handler.cursor();
    buf_handler.write_u16(tnum)?;
    buf_handler.write_u16(1)?;
    buf_handler.write_u32(ttl)?;
    buf_handler.write_u16(rdlen)?;
    proof {
        let bts = buf_handler.bytes();
        let w = be16_bytes(tnum) + be16_bytes(1) + be32_bytes(ttl) + be16_bytes(rdlen);
        assert(w.len() == 10);
        assert(bts[c0] == w[0] && bts[c0 + 1] == w[1]);
        assert(bts[c0 + 2] == w[2] && bts[c0 + 3] == w[3]);
        assert(bts[c0 + 4] == w[4] && bts[c0 + 5] == w[5]);
        assert(bts[c0 + 6] == w[6] && bts[c0 + 7] == w[7]);
        assert(bts[c0 + 8] == w[8] && bts[c0 + 9] == w[9]);
        assert(bts.subrange(c0, c0 + 10) =~= w);
    }
    Ok(())
}

impl DnsRecord {
    /// Decodes one record at the cursor.
    pub fn read(buf_handler: &mut BufHandler) -> (r: Result<DnsRecord, DnsError>)
        requires
            old(buf_handler).wf(),
        ensures
            final(buf_handler).wf(),
            final(buf_handler).bytes() == old(buf_handler).bytes(),
            match r {
                Ok(rec) => (record_at(old(buf_handler).bytes(), old(buf_handler).cursor())
                    matches Ok(pair) && rec@ == pair.0 && final(buf_handler).cursor() == pair.1),
                Err(e) => record_at(old(buf_handler).bytes(), old(buf_handler).cursor())
                    == Err::<(RecordView, int), DnsError>(e),
            },
    {
        let ghost b = buf_handler.bytes();
        let ghost c0 = buf_handler.cursor();
        let mut qname: Vec<u8> = Vec::new();
        buf_handler.read_qname(&mut qname)?;
        let tnum = buf_handler.read_u16()?;
        let _qclass = buf_handler.read_u16()?;
        let ttl = buf_handler.read_u32()?;
        let len = buf_handler.read_u16()?;
        let qtype = QueryType::from_num(tnum);

        match qtype {
            QueryType::A => {
                let b0 = buf_handler.read()?;
                let b1 = buf_handler.read()?;
                let b2 = buf_handler.read()?;
                let b3 = buf_handler.read()?;
                let rec = DnsRecord::A {
                    domain: qname,
                    addr: Ipv4Address { octets: [b0, b1, b2, b3] },
                    ttl,
                };
                proof {
                    let p2 = name_end(b, c0) + 10;
                    assert(rec@->A_addr =~= b.subrange(p2, p2 + 4));
                }
                Ok(rec)
            },
            QueryType::NS => {
                let mut ns: Vec<u8> = Vec::new();
                buf_handler.read_qname(&mut ns)?;
                Ok(DnsRecord::NS { domain: qname, ttl, host: ns })
            },
            QueryType::CNAME => {
                let mut cname: Vec<u8> = Vec::new();
                buf_handler.read_qname(&mut cname)?;
                Ok(DnsRecord::CNAME { domain: qname, ttl, host: cname })
            },
            QueryType::MX => {
                let priority = buf_handler.read_u16()?;
                let mut mx: Vec<u8> = Vec::new();
                buf_handler.read_qname(&mut mx)?;
                Ok(DnsRecord::MX { domain: qname, ttl, priority, host: mx })
            },
            QueryType::AAAA => {
                let s0 = buf_handler.read_u16()?;
                let s1 = buf_handler.read_u16()?;
                let s2 = buf_handler.read_u16()?;
                let s3 = buf_handler.read_u16()?;
                let s4 = buf_handler.read_u16()?;
                let s5 = buf_handler.read_u16()?;
                let s6 = buf_handler.read_u16()?;
                let s7 = buf_handler.read_u16()?;
                let rec = DnsRecord::AAAA {
                    domain: qname,
                    ttl,
                    addr: Ipv6Address { segments: [s0, s1, s2, s3, s4, s5, s6, s7] },
                };
                Ok(rec)
            },
            QueryType::UNKNOWN => {
                let pos = buf_handler.get_pos();
                if pos + (len as usize) > BUF_CAP {
                    return Err(DnsError::BufferExhausted);
                }
                buf_handler.seek(pos + (len as usize));
                Ok(DnsRecord::UNKNOWN { domain: qname, qtype: tnum })
            },
        }
    }

    /// Encodes one record at the cursor: name, type, class 1, time to
    /// live, recomputed data length, payload. An unknown record writes
    /// nothing. Fails when a name is not encodable or the record does not
    /// fit.
    #[verifier::rlimit(100)]
    pub fn write(&self, buf_handler: &mut BufHandler) -> (r: Result<(), DnsError>)
        requires
            old(buf_handler).wf(),
        ensures
            final(buf_handler).wf(),
            match r {
                Ok(()) => self@.encodable()
                    && final(buf_handler).cursor() == old(buf_handler).cursor()
                        + record_wire_len(self@)
                    && (self@ matches RecordView::UNKNOWN { .. } || (old(buf_handler).cursor()
                        + record_wire_len(self@) <= BUF_CAP && final(buf_handler).bytes().subrange(
                        old(buf_handler).cursor(),
                        final(buf_handler).cursor(),
                    ) == record_wire(self@)))
                    && (forall|i: int|
                        0 <= i < BUF_CAP
                            && !(old(buf_handler).cursor() <= i < final(buf_handler).cursor())
                            ==> final(buf_handler).bytes()[i] == old(buf_handler).bytes()[i]),
                Err(e) => *final(buf_handler) == *old(buf_handler) && ((e == DnsError::InvalidName
                    && !self@.encodable()) || (e == DnsError::BufferExhausted && self@.encodable()
                    && old(buf_handler).cursor() + record_wire_len(self@) > BUF_CAP)),
            },
    {
        let ghost c0 = buf_handler.cursor();
        match self {
            DnsRecord::UNKNOWN { .. } => Ok(()),
            DnsRecord::A { domain, addr, ttl } => Self::write_a(buf_handler, domain, addr, *ttl),
            DnsRecord::NS { domain, ttl, host } => {
                Self::write_ns_cname(buf_handler, 2, *ttl, domain, host)
            },
            DnsRecord::CNAME { domain, ttl, host } => {
                Self::write_ns_cname(buf_handler, 5, *ttl, domain, host)
            },
            DnsRecord::MX { domain, ttl, priority, host } => {
                Self::write_mx(buf_handler, *ttl, *priority, domain, host)
            },
            DnsRecord::AAAA { domain, ttl, addr } => {
                Self::write_aaaa(buf_handler, domain, addr, *ttl)
            },
        }
    }

    /// Encodes an address record: the `A` shape.
    #[verifier::rlimit(100)]
    fn write_a(buf_handler: &mut BufHandler, domain: &Vec<u8>, addr: &Ipv4Address, ttl: u32) -> (r:
        Result<(), DnsError>)
        requires
            old(buf_handler).wf(),
        ensures
            final(buf_handler).wf(),
            ({
                let rv = RecordView::A { domain: domain@, addr: addr.octets@, ttl };
                match r {
                    Ok(()) => rv.encodable() && old(buf_handler).cursor() + record_wire_len(rv)
                        <= BUF_CAP && final(buf_handler).cursor() == old(buf_handler).cursor()
                        + record_wire_len(rv) && final(buf_handler).bytes().subrange(
                        old(buf_handler).cursor(),
                        final(buf_handler).cursor(),
                    ) == record_wire(rv) && (forall|i: int|
                        0 <= i < BUF_CAP
                            && !(old(buf_handler).cursor() <= i < final(buf_handler).cursor())
                            ==> final(buf_handler).bytes()[i] == old(buf_handler).bytes()[i]),
                    Err(e) => *final(buf_handler) == *old(buf_handler) && ((e
                        == DnsError::InvalidName && !rv.encodable()) || (e
                        == DnsError::BufferExhausted && rv.encodable() && old(buf_handler).cursor()
                        + record_wire_len(rv) > BUF_CAP)),
                }
            }),
    {
        let ghost rv = RecordView::A { domain: domain@, addr: addr.octets@, ttl };
        let ghost c0 = buf_handler.cursor();
        proof {
            assert(domain@.subrange(0, domain@.len() as int) =~= domain@);
        }
        if !BufHandler::check_name(domain, 0) {
            return Err(DnsError::InvalidName);
        }
        if domain.len() > BUF_CAP {
            return Err(DnsError::BufferExhausted);
        }
        let wl_d: usize = if domain.len() == 0 {
            1
        } else {
            domain.len() + 2
        };
        let pos = buf_handler.get_pos();
        if pos > BUF_CAP || BUF_CAP - pos < wl_d + 14 {
            return Err(DnsError::BufferExhausted);
        }
        let r1 = buf_handler.write_qname(domain);
        proof {
            assert(r1 is Ok);
        }
        let ghost m1 = buf_handler.bytes();
        let r2 = write_record_fields(buf_handler, 1, ttl, 4);
        proof {
            assert(r2 is Ok);
        }
        let ghost m2 = buf_handler.bytes();
        let r3 = buf_handler.write(addr.octets[0]);
        let r4 = buf_handler.write(addr.octets[1]);
        let r5 = buf_handler.write(addr.octets[2]);
        let r6 = buf_handler.write(addr.octets[3]);
        proof {
            assert(r3 is Ok && r4 is Ok && r5 is Ok && r6 is Ok);
            let w = record_wire(rv);
            let bts = buf_handler.bytes();
            let wd = wl_d as int;
            let fields = be16_bytes(1u16) + be16_bytes(1u16) + be32_bytes(ttl) + be16_bytes(4u16);
            let payload = addr.octets@;
            assert(bts.subrange(c0, c0 + wd) =~= m1.subrange(c0, c0 + wd)) by {
                assert forall|i: int| c0 <= i < c0 + wd implies bts[i] == m1[i] by {
                    assert(bts[i] == m2[i]);
                }
            }
            assert(bts.subrange(c0 + wd, c0 + wd + 10) =~= m2.subrange(c0 + wd, c0 + wd + 10));
            assert(bts.subrange(c0 + wd + 10, c0 + wd + 14) =~= payload) by {
                assert(bts[c0 + wd + 10] == addr.octets@[0]);
                assert(bts[c0 + wd + 11] == addr.octets@[1]);
                assert(bts[c0 + wd + 12] == addr.octets@[2]);
                assert(bts[c0 + wd + 13] == addr.octets@[3]);
            }
            crate::buffer::lemma_splice3(bts, c0, name_wire(domain@), fields, payload);
            assert(w =~= name_wire(domain@) + fields + payload);
        }
        Ok(())
    }

    /// Encodes an address record: the `AAAA` shape.
    #[verifier::rlimit(100)]
    fn write_aaaa(buf_handler: &mut BufHandler, domain: &Vec<u8>, addr: &Ipv6Address, ttl: u32) -> (
        r: Result<(), DnsError>)
        requires
            old(buf_handler).wf(),
        ensures
            final(buf_handler).wf(),
            ({
                let rv = RecordView::AAAA { domain: domain@, ttl, addr: addr.segments@ };
                match r {
                    Ok(()) => rv.encodable() && old(buf_handler).cursor() + record_wire_len(rv)
                        <= BUF_CAP && final(buf_handler).cursor() == old(buf_handler).cursor()
                        + record_wire_len(rv) && final(buf_handler).bytes().subrange(
                        old(buf_handler).cursor(),
                        final(buf_handler).cursor(),
                    ) == record_wire(rv) && (forall|i: int|
                        0 <= i < BUF_CAP
                            && !(old(buf_handler).cursor() <= i < final(buf_handler).cursor())
                            ==> final(buf_handler).bytes()[i] == old(buf_handler).bytes()[i]),
                    Err(e) => *final(buf_handler) == *old(buf_handler) && ((e
                        == DnsError::InvalidName && !rv.encodable()) || (e
                        == DnsError::BufferExhausted && rv.encodable() && old(buf_handler).cursor()
                        + record_wire_len(rv) > BUF_CAP)),
                }
            }),
    {
        let ghost rv = RecordView::AAAA { domain: domain@, ttl, addr: addr.segments@ };
        let ghost c0 = buf_handler.cursor();
        proof {
            assert(domain@.subrange(0, domain@.len() as int) =~= domain@);
        }
        if !BufHandler::check_name(domain, 0) {
            return Err(DnsError::InvalidName);
        }
        if domain.len() > BUF_CAP {
            return Err(DnsError::BufferExhausted);
        }
        let wl_d: usize = if domain.len() == 0 {
            1
        } else {
            domain.len() + 2
        };
        let pos = buf_handler.get_pos();
        if pos > BUF_CAP || BUF_CAP - pos < wl_d + 26 {
            return Err(DnsError::BufferExhausted);
        }
        let r1 = buf_handler.write_qname(domain);
        proof {
            assert(r1 is Ok);
        }
        let ghost m1 = buf_handler.bytes();
        let r2 = write_record_fields(buf_handler, 28, ttl, 16);
        proof {
            assert(r2 is Ok);
        }
        let ghost m2 = buf_handler.bytes();
                let mut k: usize = 0;
                let ghost c5 = buf_handler.cursor();
                while k < 8
                    invariant
                        buf_handler.wf(),
                        k <= 8,
                        c5 == c0 + wl_d + 10,
                        0 <= c0,
                        m2.len() == BUF_CAP,
                        c5 + 16 <= BUF_CAP,
                        buf_handler.cursor() == c5 + 2 * k,
                        forall|i: int|
                            0 <= i < k ==> buf_handler.bytes().subrange(c5 + 2 * i, c5 + 2 * i + 2)
                                =~= be16_bytes(#[trigger] addr.segments@[i]),
                        forall|i: int|
                            0 <= i < BUF_CAP && !(c5 <= i < c5 + 2 * k) ==> buf_handler.bytes()[i]
                                == m2[i],
                    decreases 8 - k,
                {
                    let ghost prev = buf_handler.bytes();
                    let r3 = buf_handler.write_u16(addr.segments[k]);
                    proof {
                        assert(r3 is Ok);
                        assert forall|i: int| 0 <= i < k + 1 implies buf_handler.bytes().subrange(
                            c5 + 2 * i,
                            c5 + 2 * i + 2,
                        ) =~= be16_bytes(#[trigger] addr.segments@[i]) by {
                            if i < k {
                                assert(prev.subrange(c5 + 2 * i, c5 + 2 * i + 2) =~= be16_bytes(
                                    addr.segments@[i],
                                ));
                                assert(buf_handler.bytes().subrange(c5 + 2 * i, c5 + 2 * i + 2)
                                    =~= prev.subrange(c5 + 2 * i, c5 + 2 * i + 2));
                            }
                        }
                    }
                    k = k + 1;
                }
                proof {
                    let w = record_wire(rv);
                    let bts = buf_handler.bytes();
                    let wd = wl_d as int;
                    let fields = be16_bytes(28u16) + be16_bytes(1u16) + be32_bytes(ttl)
                        + be16_bytes(16u16);
                    let payload = segments_bytes(addr.segments@);
                    assert(payload.len() == 16);
                    assert(bts.subrange(c0, c0 + wd) =~= m1.subrange(c0, c0 + wd)) by {
                        assert forall|i: int| c0 <= i < c0 + wd implies bts[i] == m1[i] by {
                            assert(bts[i] == m2[i]);
                        }
                    }
                    assert(bts.subrange(c0 + wd, c0 + wd + 10) =~= m2.subrange(
                        c0 + wd,
                        c0 + wd + 10,
                    ));
                    assert(bts.subrange(c5, c5 + 16) =~= payload) by {
                        assert forall|i: int| 0 <= i < 16 implies bts.subrange(c5, c5 + 16)[i]
                            == payload[i] by {
                            let j = i / 2;
                            assert(0 <= j < 8);
                            assert(bts.subrange(c5 + 2 * j, c5 + 2 * j + 2) =~= be16_bytes(
                                addr.segments@[j],
                            ));
                            assert(bts[c5 + i] == bts.subrange(c5 + 2 * j, c5 + 2 * j + 2)[i - 2
                                * j]);
                            assert(payload[i] == be16_bytes(addr.segments@[j])[i - 2 * j]);
                        }
                    }
                    crate::buffer::lemma_splice3(bts, c0, name_wire(domain@), fields, payload);
                    assert(w =~= name_wire(domain@) + fields + payload);
                }
                Ok(())
    }

    /// Encodes a record whose payload is a host name: the `NS` and
    /// `CNAME` shapes, told apart by their wire type value.
    #[verifier::rlimit(100)]
    fn write_ns_cname(
        buf_handler: &mut BufHandler,
        tnum: u16,
        ttl: u32,
        domain: &Vec<u8>,
        host: &Vec<u8>,
    ) -> (r: Result<(), DnsError>)
        requires
            old(buf_handler).wf(),
            tnum == 2 || tnum == 5,
        ensures
            final(buf_handler).wf(),
            ({
                let rv = if tnum == 2 {
                    RecordView::NS { domain: domain@, ttl, host: host@ }
                } else {
                    RecordView::CNAME { domain: domain@, ttl, host: host@ }
                };
                match r {
                    Ok(()) => rv.encodable() && old(buf_handler).cursor() + record_wire_len(rv)
                        <= BUF_CAP && final(buf_handler).cursor() == old(buf_handler).cursor()
                        + record_wire_len(rv) && final(buf_handler).bytes().subrange(
                        old(buf_handler).cursor(),
                        final(buf_handler).cursor(),
                    ) == record_wire(rv) && (forall|i: int|
                        0 <= i < BUF_CAP
                            && !(old(buf_handler).cursor() <= i < final(buf_handler).cursor())
                            ==> final(buf_handler).bytes()[i] == old(buf_handler).bytes()[i]),
                    Err(e) => *final(buf_handler) == *old(buf_handler) && ((e
                        == DnsError::InvalidName && !rv.encodable()) || (e
                        == DnsError::BufferExhausted && rv.encodable() && old(buf_handler).cursor()
                        + record_wire_len(rv) > BUF_CAP)),
                }
            }),
    {
        let ghost rv = if tnum == 2 {
            RecordView::NS { domain: domain@, ttl, host: host@ }
        } else {
            RecordView::CNAME { domain: domain@, ttl, host: host@ }
        };
        let ghost c0 = buf_handler.cursor();
        proof {
            assert(domain@.subrange(0, domain@.len() as int) =~= domain@);
            assert(host@.subrange(0, host@.len() as int) =~= host@);
        }
        if !BufHandler::check_name(domain, 0) {
            return Err(DnsError::InvalidName);
        }
        if !BufHandler::check_name(host, 0) {
            return Err(DnsError::InvalidName);
        }
        if domain.len() > BUF_CAP || host.len() > BUF_CAP {
            return Err(DnsError::BufferExhausted);
        }
        let wl_d: usize = if domain.len() == 0 {
            1
        } else {
            domain.len() + 2
        };
        let wl_h: usize = if host.len() == 0 {
            1
        } else {
            host.len() + 2
        };
        let pos = buf_handler.get_pos();
        if pos > BUF_CAP || BUF_CAP - pos < wl_d + 10 + wl_h {
            return Err(DnsError::BufferExhausted);
        }
        let r1 = buf_handler.write_qname(domain);
        proof {
            assert(r1 is Ok);
        }
        let ghost m1 = buf_handler.bytes();
        let rdlen: u16 = wl_h as u16;
        let r2 = write_record_fields(buf_handler, tnum, ttl, rdlen);
        proof {
            assert(r2 is Ok);
        }
        let ghost m2 = buf_handler.bytes();
        let ghost c5 = buf_handler.cursor();
        let r4 = buf_handler.write_qname(host);
        proof {
            assert(r4 is Ok);
        }
        proof {
            let w = record_wire(rv);
            let bts = buf_handler.bytes();
            let wd = wl_d as int;
            let wh = wl_h as int;
            crate::buffer::lemma_name_wire_len(host@);
            assert(bts.subrange(c0, c0 + wd) =~= m1.subrange(c0, c0 + wd)) by {
                assert forall|i: int| c0 <= i < c0 + wd implies bts[i] == m1[i] by {
                    assert(bts[i] == m2[i]);
                }
            }
            assert(bts.subrange(c0 + wd, c0 + wd + 10) =~= m2.subrange(c0 + wd, c0 + wd + 10));
            assert(bts.subrange(c5, c5 + wh) == name_wire(host@));
            let fields = be16_bytes(tnum) + be16_bytes(1u16) + be32_bytes(ttl) + be16_bytes(rdlen);
            crate::buffer::lemma_splice3(bts, c0, name_wire(domain@), fields, name_wire(host@));
            assert(w =~= name_wire(domain@) + fields + name_wire(host@));
        }
        Ok(())
    }

    /// Encodes a mail-exchange record: a 16-bit priority, then the host
    /// name.
    #[verifier::rlimit(100)]
    fn write_mx(
        buf_handler: &mut BufHandler,
        ttl: u32,
        priority: u16,
        domain: &Vec<u8>,
        host: &Vec<u8>,
    ) -> (r: Result<(), DnsError>)
        requires
            old(buf_handler).wf(),
        ensures
            final(buf_handler).wf(),
            ({
                let rv = RecordView::MX { domain: domain@, ttl, priority, host: host@ };
                match r {
                    Ok(()) => rv.encodable() && old(buf_handler).cursor() + record_wire_len(rv)
                        <= BUF_CAP && final(buf_handler).cursor() == old(buf_handler).cursor()
                        + record_wire_len(rv) && final(buf_handler).bytes().subrange(
                        old(buf_handler).cursor(),
                        final(buf_handler).cursor(),
                    ) == record_wire(rv) && (forall|i: int|
                        0 <= i < BUF_CAP
                            && !(old(buf_handler).cursor() <= i < final(buf_handler).cursor())
                            ==> final(buf_handler).bytes()[i] == old(buf_handler).bytes()[i]),
                    Err(e) => *final(buf_handler) == *old(buf_handler) && ((e
                        == DnsError::InvalidName && !rv.encodable()) || (e
                        == DnsError::BufferExhausted && rv.encodable() && old(buf_handler).cursor()
                        + record_wire_len(rv) > BUF_CAP)),
                }
            }),
    {
        let ghost rv = RecordView::MX { domain: domain@, ttl, priority, host: host@ };
        let ghost c0 = buf_handler.cursor();
        proof {
            assert(domain@.subrange(0, domain@.len() as int) =~= domain@);
            assert(host@.subrange(0, host@.len() as int) =~= host@);
        }
        if !BufHandler::check_name(domain, 0) {
            return Err(DnsError::InvalidName);
        }
        if !BufHandler::check_name(host, 0) {
            return Err(DnsError::InvalidName);
        }
        if domain.len() > BUF_CAP || host.len() > BUF_CAP {
            return Err(DnsError::BufferExhausted);
        }
        let wl_d: usize = if domain.len() == 0 {
            1
        } else {
            domain.len() + 2
        };
        let wl_h: usize = if host.len() == 0 {
            1
        } else {
            host.len() + 2
        };
        let pos = buf_handler.get_pos();
        if pos > BUF_CAP || BUF_CAP - pos < wl_d + 12 + wl_h {
            return Err(DnsError::BufferExhausted);
        }
        let r1 = buf_handler.write_qname(domain);
        proof {
            assert(r1 is Ok);
        }
        let ghost m1 = buf_handler.bytes();
        let rdlen: u16 = (wl_h + 2) as u16;
        let r2 = write_record_fields(buf_handler, 15, ttl, rdlen);
        proof {
            assert(r2 is Ok);
        }
        let ghost m2 = buf_handler.bytes();
        let r3 = buf_handler.write_u16(priority);
        proof {
            assert(r3 is Ok);
        }
        let ghost m3 = buf_handler.bytes();
        let ghost c5 = buf_handler.cursor();
        let r4 = buf_handler.write_qname(host);
        proof {
            assert(r4 is Ok);
        }
        proof {
            let w = record_wire(rv);
            let bts = buf_handler.bytes();
            let wd = wl_d as int;
            let wh = wl_h as int;
            crate::buffer::lemma_name_wire_len(host@);
            assert(bts.subrange(c0, c0 + wd) =~= m1.subrange(c0, c0 + wd)) by {
                assert forall|i: int| c0 <= i < c0 + wd implies bts[i] == m1[i] by {
                    assert(bts[i] == m3[i]);
                    assert(m3[i] == m2[i]);
                }
            }
            assert(bts.subrange(c0 + wd, c0 + wd + 10) =~= m2.subrange(c0 + wd, c0 + wd + 10)) by {
                assert forall|i: int| c0 + wd <= i < c0 + wd + 10 implies bts[i] == m2[i] by {
                    assert(bts[i] == m3[i]);
                }
            }
            assert(bts.subrange(c0 + wd + 10, c0 + wd + 12) =~= be16_bytes(priority)) by {
                assert(bts[c0 + wd + 10] == m3[c0 + wd + 10]);
                assert(bts[c0 + wd + 11] == m3[c0 + wd + 11]);
                assert(m3.subrange(c0 + wd + 10, c0 + wd + 12) =~= be16_bytes(priority));
            }
            assert(bts.subrange(c5, c5 + wh) == name_wire(host@));
            let fields = be16_bytes(15u16) + be16_bytes(1u16) + be32_bytes(ttl) + be16_bytes(rdlen);
            crate::buffer::lemma_splice4(
                bts,
                c0,
                name_wire(domain@),
                fields,
                be16_bytes(priority),
                name_wire(host@),
            );
            assert(w =~= name_wire(domain@) + fields + be16_bytes(priority) + name_wire(host@));
        }
        Ok(())
    }
}

/// Round trip at the record level: wherever a well-formed record's wire
/// form stands, decoding at its start restores the record and ends just
/// past it.
pub proof fn lemma_record_round_trip(b: Seq<u8>, off: int, rv: RecordView)
    requires
        b.len() == BUF_CAP,
        rv.wf(),
        0 <= off,
        off + record_wire_len(rv) <= BUF_CAP,
        b.subrange(off, off + record_wire_len(rv)) == record_wire(rv),
    ensures
        record_at(b, off) == Ok::<(RecordView, int), DnsError>((rv, off + record_wire_len(rv))),
{
    match rv {
        RecordView::UNKNOWN { .. } => {
            assert(false);
        },
        RecordView::A { domain, addr, ttl } => {
            lemma_a_round_trip(b, off, rv, domain, addr, ttl);
        },
        RecordView::NS { domain, ttl, host } => {
            lemma_host_record_round_trip(b, off, rv, domain, ttl, host, 2);
        },
        RecordView::CNAME { domain, ttl, host } => {
            lemma_host_record_round_trip(b, off, rv, domain, ttl, host, 5);
        },
        RecordView::MX { domain, ttl, priority, host } => {
            lemma_mx_round_trip(b, off, rv, domain, ttl, priority, host);
        },
        RecordView::AAAA { domain, ttl, addr } => {
            lemma_aaaa_round_trip(b, off, rv, domain, ttl, addr);
        },
    }
}

/// Round-trip argument for the address-record shape.
#[verifier::rlimit(100)]
proof fn lemma_a_round_trip(b: Seq<u8>, off: int, rv: RecordView, domain: Seq<u8>, addr: Seq<u8>, ttl: u32)
    requires
        b.len() == BUF_CAP,
        rv.wf(),
        rv == (RecordView::A { domain, addr, ttl }),
        0 <= off,
        off + record_wire_len(rv) <= BUF_CAP,
        b.subrange(off, off + record_wire_len(rv)) == record_wire(rv),
    ensures
        record_at(b, off) == Ok::<(RecordView, int), DnsError>((rv, off + record_wire_len(rv))),
{
    crate::buffer::lemma_name_wire_len(domain);
    let nw = name_wire(domain);
    let wd = wire_len(domain);
    let fields = be16_bytes(1u16) + be16_bytes(1u16) + be32_bytes(ttl) + be16_bytes(4u16);
    assert(record_wire(rv) =~= nw + fields + addr);
    crate::buffer::lemma_unsplice3(b, off, nw, fields, addr);
    crate::buffer::lemma_name_round_trip(b, off, domain, MAX_JUMPS as nat);
    let p = off + wd;
    lemma_fields_facts(b, p, 1, ttl, 4);
    assert(b.subrange(p + 10, p + 14) == addr);
}

/// Reading back the fixed middle fields of a record from their wire
/// bytes.
#[verifier::rlimit(100)]
proof fn lemma_fields_facts(b: Seq<u8>, p: int, tnum: u16, ttl: u32, rdlen: u16)
    requires
        0 <= p,
        p + 10 <= b.len(),
        b.subrange(p, p + 10) == be16_bytes(tnum) + be16_bytes(1u16) + be32_bytes(ttl)
            + be16_bytes(rdlen),
    ensures
        be16(b[p], b[p + 1]) == tnum,
        be32(b[p + 4], b[p + 5], b[p + 6], b[p + 7]) == ttl,
        be16(b[p + 8], b[p + 9]) == rdlen,
{
    let fs = b.subrange(p, p + 10);
    assert(b[p] == fs[0] && b[p + 1] == fs[1] && b[p + 4] == fs[4] && b[p + 5] == fs[5] && b[p + 6]
        == fs[6] && b[p + 7] == fs[7] && b[p + 8] == fs[8] && b[p + 9] == fs[9]);
    assert(fs[0] == be16_bytes(tnum)[0] && fs[1] == be16_bytes(tnum)[1]);
    crate::buffer::lemma_be16_round(tnum);
    assert(fs[4] == be32_bytes(ttl)[0] && fs[5] == be32_bytes(ttl)[1] && fs[6] == be32_bytes(
        ttl,
    )[2] && fs[7] == be32_bytes(ttl)[3]);
    crate::buffer::lemma_be32_round(ttl);
    assert(fs[8] == be16_bytes(rdlen)[0] && fs[9] == be16_bytes(rdlen)[1]);
    crate::buffer::lemma_be16_round(rdlen);
}

/// Evaluation of the record decoder on bytes whose parts are known: the
/// host-name payload shapes.
#[verifier::rlimit(100)]
proof fn lemma_record_at_host_eval(b: Seq<u8>, off: int, domain: Seq<u8>, host: Seq<u8>, ttl: u32, tnum: u16)
    requires
        b.len() == BUF_CAP,
        0 <= off,
        name_at(b, off, MAX_JUMPS as nat) == Ok::<Seq<u8>, DnsError>(domain),
        name_end(b, off) + 10 <= BUF_CAP,
        be16(b[name_end(b, off)], b[name_end(b, off) + 1]) == tnum,
        be32(
            b[name_end(b, off) + 4],
            b[name_end(b, off) + 5],
            b[name_end(b, off) + 6],
            b[name_end(b, off) + 7],
        ) == ttl,
        name_at(b, name_end(b, off) + 10, MAX_JUMPS as nat) == Ok::<Seq<u8>, DnsError>(host),
        tnum == 2 || tnum == 5,
    ensures
        tnum == 2 ==> record_at(b, off) == Ok::<(RecordView, int), DnsError>(
            (RecordView::NS { domain, ttl, host }, name_end(b, name_end(b, off) + 10)),
        ),
        tnum == 5 ==> record_at(b, off) == Ok::<(RecordView, int), DnsError>(
            (RecordView::CNAME { domain, ttl, host }, name_end(b, name_end(b, off) + 10)),
        ),
{
}

/// Evaluation of the record decoder on bytes whose parts are known: the
/// mail-exchange shape.
#[verifier::rlimit(100)]
proof fn lemma_record_at_mx_eval(b: Seq<u8>, off: int, domain: Seq<u8>, host: Seq<u8>, ttl: u32, priority: u16)
    requires
        b.len() == BUF_CAP,
        0 <= off,
        name_at(b, off, MAX_JUMPS as nat) == Ok::<Seq<u8>, DnsError>(domain),
        name_end(b, off) + 12 <= BUF_CAP,
        be16(b[name_end(b, off)], b[name_end(b, off) + 1]) == 15,
        be32(
            b[name_end(b, off) + 4],
            b[name_end(b, off) + 5],
            b[name_end(b, off) + 6],
            b[name_end(b, off) + 7],
        ) == ttl,
        be16(b[name_end(b, off) + 10], b[name_end(b, off) + 11]) == priority,
        name_at(b, name_end(b, off) + 12, MAX_JUMPS as nat) == Ok::<Seq<u8>, DnsError>(host),
    ensures
        record_at(b, off) == Ok::<(RecordView, int), DnsError>(
            (RecordView::MX { domain, ttl, priority, host }, name_end(b, name_end(b, off) + 12)),
        ),
{
}

/// Evaluation of the record decoder on bytes whose parts are known: the
/// sixteen-byte address shape.
#[verifier::rlimit(100)]
proof fn lemma_record_at_aaaa_eval(b: Seq<u8>, off: int, domain: Seq<u8>, addr: Seq<u16>, ttl: u32, p2: int)
    requires
        b.len() == BUF_CAP,
        0 <= off,
        name_at(b, off, MAX_JUMPS as nat) == Ok::<Seq<u8>, DnsError>(domain),
        name_end(b, off) + 26 <= BUF_CAP,
        p2 == name_end(b, off) + 10,
        be16(b[name_end(b, off)], b[name_end(b, off) + 1]) == 28,
        be32(
            b[name_end(b, off) + 4],
            b[name_end(b, off) + 5],
            b[name_end(b, off) + 6],
            b[name_end(b, off) + 7],
        ) == ttl,
        addr.len() == 8,
        forall|j: int|
            0 <= j < 8 ==> be16(b[p2 + 2 * j], #[trigger] b[p2 + 2 * j + 1]) == addr[j],
    ensures
        record_at(b, off) == Ok::<(RecordView, int), DnsError>(
            (RecordView::AAAA { domain, ttl, addr }, name_end(b, off) + 26),
        ),
{
    match record_at(b, off) {
        Ok(pair) => {
            assert(pair.0 matches RecordView::AAAA { addr: a2, .. } && a2 =~= addr) by {
                assert forall|j: int| 0 <= j < 8 implies be16(b[p2 + 2 * j], b[p2 + 2 * j + 1])
                    == addr[j] by {
                    assert(be16(b[p2 + 2 * j], #[trigger] b[p2 + 2 * j + 1]) == addr[j]);
                }
            }
        },
        Err(_) => {
            assert(false);
        },
    }
}

/// The wire form of a mail-exchange record, grouped into its three
/// adjacent parts.
proof fn lemma_mx_wire_shape(domain: Seq<u8>, ttl: u32, priority: u16, host: Seq<u8>)
    ensures
        record_wire(RecordView::MX { domain, ttl, priority, host }) == name_wire(domain) + (
        be16_bytes(15u16) + be16_bytes(1u16) + be32_bytes(ttl) + be16_bytes(
            (wire_len(host) + 2) as u16,
        )) + (be16_bytes(priority) + name_wire(host)),
{
    assert(record_wire(RecordView::MX { domain, ttl, priority, host }) =~= name_wire(domain) + (
    be16_bytes(15u16) + be16_bytes(1u16) + be32_bytes(ttl) + be16_bytes(
        (wire_len(host) + 2) as u16,
    )) + (be16_bytes(priority) + name_wire(host)));
}

/// Round-trip argument for the mail-exchange shape.
#[verifier::rlimit(100)]
proof fn lemma_mx_round_trip(b: Seq<u8>, off: int, rv: RecordView, domain: Seq<u8>, ttl: u32, priority: u16, host: Seq<u8>)
    requires
        b.len() == BUF_CAP,
        rv.wf(),
        rv == (RecordView::MX { domain, ttl, priority, host }),
        0 <= off,
        off + record_wire_len(rv) <= BUF_CAP,
        b.subrange(off, off + record_wire_len(rv)) == record_wire(rv),
    ensures
        record_at(b, off) == Ok::<(RecordView, int), DnsError>((rv, off + record_wire_len(rv))),
{
    crate::buffer::lemma_name_wire_len(domain);
    crate::buffer::lemma_name_wire_len(host);
    let nw = name_wire(domain);
    let wd = wire_len(domain);
    let hw = name_wire(host);
    let wh = wire_len(host);
    let rdlen = (wh + 2) as u16;
    let fields = be16_bytes(15u16) + be16_bytes(1u16) + be32_bytes(ttl) + be16_bytes(rdlen);
    let tail = be16_bytes(priority) + hw;
    lemma_mx_wire_shape(domain, ttl, priority, host);
    crate::buffer::lemma_unsplice3(b, off, nw, fields, tail);
    crate::buffer::lemma_name_round_trip(b, off, domain, MAX_JUMPS as nat);
    let p = off + wd;
    lemma_fields_facts(b, p, 15, ttl, rdlen);
    let p2 = p + 10;
    crate::buffer::lemma_unsplice2(b, p2, be16_bytes(priority), hw);
    assert(be16(b[p2], b[p2 + 1]) == priority) by {
        let pr = b.subrange(p2, p2 + 2);
        assert(b[p2] == pr[0] && b[p2 + 1] == pr[1]);
        crate::buffer::lemma_be16_round(priority);
    }
    assert(b.subrange(p2 + 2, p2 + 2 + wh) == hw);
    crate::buffer::lemma_name_round_trip(b, p2 + 2, host, MAX_JUMPS as nat);
    lemma_record_at_mx_eval(b, off, domain, host, ttl, priority);
}

/// Round-trip argument for the sixteen-byte address shape.
#[verifier::rlimit(100)]
proof fn lemma_aaaa_round_trip(b: Seq<u8>, off: int, rv: RecordView, domain: Seq<u8>, ttl: u32, addr: Seq<u16>)
    requires
        b.len() == BUF_CAP,
        rv.wf(),
        rv == (RecordView::AAAA { domain, ttl, addr }),
        0 <= off,
        off + record_wire_len(rv) <= BUF_CAP,
        b.subrange(off, off + record_wire_len(rv)) == record_wire(rv),
    ensures
        record_at(b, off) == Ok::<(RecordView, int), DnsError>((rv, off + record_wire_len(rv))),
{
    crate::buffer::lemma_name_wire_len(domain);
    let nw = name_wire(domain);
    let wd = wire_len(domain);
    let fields = be16_bytes(28u16) + be16_bytes(1u16) + be32_bytes(ttl) + be16_bytes(16u16);
    let payload = segments_bytes(addr);
    assert(payload.len() == 16);
    assert(record_wire(rv) =~= nw + fields + payload);
    crate::buffer::lemma_unsplice3(b, off, nw, fields, payload);
    crate::buffer::lemma_name_round_trip(b, off, domain, MAX_JUMPS as nat);
    let p = off + wd;
    lemma_fields_facts(b, p, 28, ttl, 16);
    let p2 = p + 10;
    lemma_segments_facts(b, p2, addr);
    lemma_record_at_aaaa_eval(b, off, domain, addr, ttl, p2);
}

/// Reading back the eight address segments from their wire bytes.
#[verifier::rlimit(100)]
proof fn lemma_segments_facts(b: Seq<u8>, p2: int, addr: Seq<u16>)
    requires
        0 <= p2,
        p2 + 16 <= b.len(),
        addr.len() == 8,
        b.subrange(p2, p2 + 16) == segments_bytes(addr),
    ensures
        forall|j: int| 0 <= j < 8 ==> be16(b[p2 + 2 * j], #[trigger] b[p2 + 2 * j + 1]) == addr[j],
{
    let sb = b.subrange(p2, p2 + 16);
    assert forall|j: int| 0 <= j < 8 implies be16(b[p2 + 2 * j], #[trigger] b[p2 + 2 * j + 1])
        == addr[j] by {
        assert(b[p2 + 2 * j] == sb[2 * j] && b[p2 + 2 * j + 1] == sb[2 * j + 1]);
        assert(sb[2 * j] == be16_bytes(addr[j])[0] && sb[2 * j + 1] == be16_bytes(addr[j])[1]);
        crate::buffer::lemma_be16_round(addr[j]);
    }
}

/// Shared round-trip argument for the two record shapes whose payload is
/// exactly a host name.
#[verifier::rlimit(100)]
proof fn lemma_host_record_round_trip(
    b: Seq<u8>,
    off: int,
    rv: RecordView,
    domain: Seq<u8>,
    ttl: u32,
    host: Seq<u8>,
    tnum: u16,
)
    requires
        b.len() == BUF_CAP,
        rv.wf(),
        tnum == 2 ==> rv == (RecordView::NS { domain, ttl, host }),
        tnum == 5 ==> rv == (RecordView::CNAME { domain, ttl, host }),
        tnum == 2 || tnum == 5,
        0 <= off,
        off + record_wire_len(rv) <= BUF_CAP,
        b.subrange(off, off + record_wire_len(rv)) == record_wire(rv),
    ensures
        record_at(b, off) == Ok::<(RecordView, int), DnsError>((rv, off + record_wire_len(rv))),
{
    if tnum == 2 {
        crate::buffer::lemma_name_wire_len(domain);
        crate::buffer::lemma_name_wire_len(host);
        let nw = name_wire(domain);
        let wd = wire_len(domain);
        let hw = name_wire(host);
        let wh = wire_len(host);
        let rdlen = wh as u16;
        let fields = be16_bytes(2u16) + be16_bytes(1u16) + be32_bytes(ttl) + be16_bytes(rdlen);
        assert(record_wire(rv) =~= nw + fields + hw);
        crate::buffer::lemma_unsplice3(b, off, nw, fields, hw);
        crate::buffer::lemma_name_round_trip(b, off, domain, MAX_JUMPS as nat);
        let p = off + wd;
        lemma_fields_facts(b, p, 2u16, ttl, rdlen);
        let p2 = p + 10;
        assert(b.subrange(p2, p2 + wh) == hw);
        crate::buffer::lemma_name_round_trip(b, p2, host, MAX_JUMPS as nat);
        lemma_record_at_host_eval(b, off, domain, host, ttl, 2u16);
    } else {
        crate::buffer::lemma_name_wire_len(domain);
        crate::buffer::lemma_name_wire_len(host);
        let nw = name_wire(domain);
        let wd = wire_len(domain);
        let hw = name_wire(host);
        let wh = wire_len(host);
        let rdlen = wh as u16;
        let fields = be16_bytes(5u16) + be16_bytes(1u16) + be32_bytes(ttl) + be16_bytes(rdlen);
        assert(record_wire(rv) =~= nw + fields + hw);
        crate::buffer::lemma_unsplice3(b, off, nw, fields, hw);
        crate::buffer::lemma_name_round_trip(b, off, domain, MAX_JUMPS as nat);
        let p = off + wd;
        lemma_fields_facts(b, p, 5u16, ttl, rdlen);
        let p2 = p + 10;
        assert(b.subrange(p2, p2 + wh) == hw);
        crate::buffer::lemma_name_round_trip(b, p2, host, MAX_JUMPS as nat);
        lemma_record_at_host_eval(b, off, domain, host, ttl, 5u16);
    }
}

/// An address record's payload has its exact wire width.
pub open spec fn addr_sized(rv: RecordView) -> bool {
    match rv {
        RecordView::A { addr, .. } => addr.len() == 4,
        RecordView::AAAA { addr, .. } => addr.len() == 8,
        _ => true,
    }
}

/// An encodable record's wire form has `record_wire_len` bytes.
pub proof fn lemma_record_wire_len(rv: RecordView)
    requires
        rv.encodable(),
        addr_sized(rv),
    ensures
        record_wire(rv).len() == record_wire_len(rv),
{
    match rv {
        RecordView::UNKNOWN { .. } => {},
        RecordView::A { domain, .. } => {
            crate::buffer::lemma_name_wire_len(domain);
        },
        RecordView::NS { domain, host, .. } => {
            crate::buffer::lemma_name_wire_len(domain);
            crate::buffer::lemma_name_wire_len(host);
        },
        RecordView::CNAME { domain, host, .. } => {
            crate::buffer::lemma_name_wire_len(domain);
            crate::buffer::lemma_name_wire_len(host);
        },
        RecordView::MX { domain, host, .. } => {
            crate::buffer::lemma_name_wire_len(domain);
            crate::buffer::lemma_name_wire_len(host);
        },
        RecordView::AAAA { domain, .. } => {
            crate::buffer::lemma_name_wire_len(domain);
        },
    }
}

/// Whether every name of a record can be written to the wire.
pub fn record_encodable_exec(r: &DnsRecord) -> (ok: bool)
    ensures
        ok == r@.encodable(),
{
    match r {
        DnsRecord::UNKNOWN { .. } => true,
        DnsRecord::A { domain, .. } => {
            proof {
                assert(domain@.subrange(0, domain@.len() as int) =~= domain@);
            }
            BufHandler::check_name(domain, 0)
        },
        DnsRecord::AAAA { domain, .. } => {
            proof {
                assert(domain@.subrange(0, domain@.len() as int) =~= domain@);
            }
            BufHandler::check_name(domain, 0)
        },
        DnsRecord::NS { domain, host, .. } => {
            proof {
                assert(domain@.subrange(0, domain@.len() as int) =~= domain@);
                assert(host@.subrange(0, host@.len() as int) =~= host@);
            }
            BufHandler::check_name(domain, 0) && BufHandler::check_name(host, 0)
        },
        DnsRecord::CNAME { domain, host, .. } => {
            proof {
                assert(domain@.subrange(0, domain@.len() as int) =~= domain@);
                assert(host@.subrange(0, host@.len() as int) =~= host@);
            }
            BufHandler::check_name(domain, 0) && BufHandler::check_name(host, 0)
        },
        DnsRecord::MX { domain, host, .. } => {
            proof {
                assert(domain@.subrange(0, domain@.len() as int) =~= domain@);
                assert(host@.subrange(0, host@.len() as int) =~= host@);
            }
            BufHandler::check_name(domain, 0) && BufHandler::check_name(host, 0)
        },
    }
}

} // verus!

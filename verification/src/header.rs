//! The DNS message header: twelve bytes holding the transaction id, the
//! packed flag bits, the operation and response codes, and the four
//! section counts.

use vstd::prelude::*;

use crate::buffer::{be16, be16_bytes, BufHandler, BUF_CAP};
use crate::DnsError;

verus! {

/// The 4-bit operation code; unknown values decode leniently to `QUERY`.
#[derive(Debug, PartialEq, Eq, Structural, Clone, Copy)]
pub enum OpCode {
    QUERY,
    IQUERY,
    STATUS,
}

/// The 4-bit response code; unknown values decode leniently to `NOERR`.
#[derive(Debug, PartialEq, Eq, Structural, Clone, Copy)]
pub enum ResponseCode {
    NOERR,
    FORMERR,
    SERVFAIL,
    NAMERR,
    NOTIMP,
    REFUSED,
}

/// The wire value of an operation code.
pub open spec fn opcode_num(op: OpCode) -> u8 {
    match op {
        OpCode::QUERY => 0,
        OpCode::IQUERY => 1,
        OpCode::STATUS => 2,
    }
}

/// The operation code a wire value decodes to.
pub open spec fn opcode_of(num: u8) -> OpCode {
    if num == 1 {
        OpCode::IQUERY
    } else if num == 2 {
        OpCode::STATUS
    } else {
        OpCode::QUERY
    }
}

/// The wire value of a response code.
pub open spec fn rcode_num(rc: ResponseCode) -> u8 {
    match rc {
        ResponseCode::NOERR => 0,
        ResponseCode::FORMERR => 1,
        ResponseCode::SERVFAIL => 2,
        ResponseCode::NAMERR => 3,
        ResponseCode::NOTIMP => 4,
        ResponseCode::REFUSED => 5,
    }
}

/// The response code a wire value decodes to.
pub open spec fn rcode_of(num: u8) -> ResponseCode {
    if num == 1 {
        ResponseCode::FORMERR
    } else if num == 2 {
        ResponseCode::SERVFAIL
    } else if num == 3 {
        ResponseCode::NAMERR
    } else if num == 4 {
        ResponseCode::NOTIMP
    } else if num == 5 {
        ResponseCode::REFUSED
    } else {
        ResponseCode::NOERR
    }
}

impl OpCode {
    /// Lenient decode of a wire value.
    pub fn from_num(num: u8) -> (r: OpCode)
        ensures
            r == opcode_of(num),
    {
        match num {
            1 => OpCode::IQUERY,
            2 => OpCode::STATUS,
            _ => OpCode::QUERY,
        }
    }

    /// The wire value of this operation code.
    pub fn to_num(&self) -> (r: u8)
        ensures
            r == opcode_num(*self),
    {
        match *self {
            OpCode::QUERY => 0,
            OpCode::IQUERY => 1,
            OpCode::STATUS => 2,
        }
    }
}

impl ResponseCode {
    /// Lenient decode of a wire value.
    pub fn from_num(num: u8) -> (r: ResponseCode)
        ensures
            r == rcode_of(num),
    {
        match num {
            1 => ResponseCode::FORMERR,
            2 => ResponseCode::SERVFAIL,
            3 => ResponseCode::NAMERR,
            4 => ResponseCode::NOTIMP,
            5 => ResponseCode::REFUSED,
            _ => ResponseCode::NOERR,
        }
    }

    /// The wire value of this response code.
    pub fn to_num(&self) -> (r: u8)
        ensures
            r == rcode_num(*self),
    {
        match *self {
            ResponseCode::NOERR => 0,
            ResponseCode::FORMERR => 1,
            ResponseCode::SERVFAIL => 2,
            ResponseCode::NAMERR => 3,
            ResponseCode::NOTIMP => 4,
            ResponseCode::REFUSED => 5,
        }
    }
}

/// The structured header. The section counts are derived from the actual
/// section lengths just before a message is encoded, never set on their
/// own.
#[derive(Debug, PartialEq, Eq, Structural, Clone, Copy)]
pub struct DnsHeader {
    pub id: u16,
    pub query: bool,
    pub opcode: OpCode,
    pub authoritative_answer: bool,
    pub truncation: bool,
    pub recursion_desired: bool,
    pub recursion_available: bool,
    pub z: u8,
    pub response_code: ResponseCode,
    pub questions: u16,
    pub answers: u16,
    pub nameservers: u16,
    pub additionals: u16,
}

/// 1 for a set flag, 0 for a clear one.
pub open spec fn bit(b: bool) -> u8 {
    if b {
        1
    } else {
        0
    }
}

/// Byte 2 of the wire header: QR(1) OPCODE(4) AA(1) TC(1) RD(1).
pub open spec fn flags_hi(h: DnsHeader) -> u8 {
    (bit(h.query) * 128 + opcode_num(h.opcode) * 8 + bit(h.authoritative_answer) * 4 + bit(
        h.truncation,
    ) * 2 + bit(h.recursion_desired)) as u8
}

/// Byte 3 of the wire header: RA(1) Z(3) RCODE(4).
pub open spec fn flags_lo(h: DnsHeader) -> u8 {
    (bit(h.recursion_available) * 128 + (h.z % 8) * 16 + rcode_num(h.response_code)) as u8
}

/// The twelve wire bytes of a header.
pub open spec fn header_wire(h: DnsHeader) -> Seq<u8> {
    be16_bytes(h.id) + seq![flags_hi(h), flags_lo(h)] + be16_bytes(h.questions) + be16_bytes(
        h.answers,
    ) + be16_bytes(h.nameservers) + be16_bytes(h.additionals)
}

/// The header decoded from twelve bytes at `off`.
pub open spec fn header_from(b: Seq<u8>, off: int) -> DnsHeader {
    DnsHeader {
        id: be16(b[off], b[off + 1]),
        query: (b[off + 2] / 128) % 2 == 1,
        opcode: opcode_of(((b[off + 2] / 8) % 16) as u8),
        authoritative_answer: (b[off + 2] / 4) % 2 == 1,
        truncation: (b[off + 2] / 2) % 2 == 1,
        recursion_desired: b[off + 2] % 2 == 1,
        recursion_available: (b[off + 3] / 128) % 2 == 1,
        z: ((b[off + 3] / 16) % 8) as u8,
        response_code: rcode_of((b[off + 3] % 16) as u8),
        questions: be16(b[off + 4], b[off + 5]),
        answers: be16(b[off + 6], b[off + 7]),
        nameservers: be16(b[off + 8], b[off + 9]),
        additionals: be16(b[off + 10], b[off + 11]),
    }
}

/// Unpacking a packed flag byte restores the five bit fields.
proof fn lemma_flags_unpack(q: u8, op: u8, aa: u8, tc: u8, rd: u8)
    by (bit_vector)
    requires
        q <= 1,
        op <= 15,
        aa <= 1,
        tc <= 1,
        rd <= 1,
    ensures
        ((q * 128 + op * 8 + aa * 4 + tc * 2 + rd) as u8) / 128 % 2 == q,
        ((q * 128 + op * 8 + aa * 4 + tc * 2 + rd) as u8) / 8 % 16 == op,
        ((q * 128 + op * 8 + aa * 4 + tc * 2 + rd) as u8) / 4 % 2 == aa,
        ((q * 128 + op * 8 + aa * 4 + tc * 2 + rd) as u8) / 2 % 2 == tc,
        ((q * 128 + op * 8 + aa * 4 + tc * 2 + rd) as u8) % 2 == rd,
{
}

/// Unpacking the second flag byte restores its three bit fields.
proof fn lemma_flags_lo_unpack(ra: u8, z: u8, rc: u8)
    by (bit_vector)
    requires
        ra <= 1,
        z <= 7,
        rc <= 15,
    ensures
        ((ra * 128 + z * 16 + rc) as u8) / 128 % 2 == ra,
        ((ra * 128 + z * 16 + rc) as u8) / 16 % 8 == z,
        ((ra * 128 + z * 16 + rc) as u8) % 16 == rc,
{
}

/// Round trip at the header level: for every flag, opcode and response
/// code combination (and a three-bit reserved field), decoding the packed
/// wire bytes restores the identical header.
pub proof fn lemma_header_round_trip(h: DnsHeader, b: Seq<u8>, off: int)
    requires
        h.z < 8,
        0 <= off,
        off + 12 <= b.len(),
        b.subrange(off, off + 12) == header_wire(h),
    ensures
        header_from(b, off) == h,
{
    let w = header_wire(h);
    let s12 = b.subrange(off, off + 12);
    assert(b[off] == s12[0] && b[off + 1] == s12[1]);
    assert(b[off + 2] == s12[2] && b[off + 3] == s12[3]);
    assert(b[off + 4] == s12[4] && b[off + 5] == s12[5]);
    assert(b[off + 6] == s12[6] && b[off + 7] == s12[7]);
    assert(b[off + 8] == s12[8] && b[off + 9] == s12[9]);
    assert(b[off + 10] == s12[10] && b[off + 11] == s12[11]);
    lemma_flags_unpack(
        bit(h.query),
        opcode_num(h.opcode),
        bit(h.authoritative_answer),
        bit(h.truncation),
        bit(h.recursion_desired),
    );
    lemma_flags_lo_unpack(bit(h.recursion_available), h.z, rcode_num(h.response_code));
    assert(opcode_of(opcode_num(h.opcode)) == h.opcode);
    assert(rcode_of(rcode_num(h.response_code)) == h.response_code);
    assert(header_from(b, off).id == h.id);
    assert(header_from(b, off).questions == h.questions);
    assert(header_from(b, off).answers == h.answers);
    assert(header_from(b, off).nameservers == h.nameservers);
    assert(header_from(b, off).additionals == h.additionals);
}

impl DnsHeader {
    /// The header with every field zero or clear.
    pub open spec fn new_spec() -> DnsHeader {
        DnsHeader {
            id: 0,
            query: false,
            opcode: OpCode::QUERY,
            authoritative_answer: false,
            truncation: false,
            recursion_desired: false,
            recursion_available: false,
            z: 0,
            response_code: ResponseCode::NOERR,
            questions: 0,
            answers: 0,
            nameservers: 0,
            additionals: 0,
        }
    }

    /// A header with every field zero or clear.
    pub fn new() -> (r: DnsHeader)
        ensures
            r == Self::new_spec(),
            r == (DnsHeader {
                id: 0,
                query: false,
                opcode: OpCode::QUERY,
                authoritative_answer: false,
                truncation: false,
                recursion_desired: false,
                recursion_available: false,
                z: 0,
                response_code: ResponseCode::NOERR,
                questions: 0,
                answers: 0,
                nameservers: 0,
                additionals: 0,
            }),
    {
        DnsHeader {
            id: 0,
            query: false,
            opcode: OpCode::QUERY,
            authoritative_answer: false,
            truncation: false,
            recursion_desired: false,
            recursion_available: false,
            z: 0,
            response_code: ResponseCode::NOERR,
            questions: 0,
            answers: 0,
            nameservers: 0,
            additionals: 0,
        }
    }

    /// Decodes the twelve header bytes at the cursor into `self`.
    pub fn read(&mut self, buf_handler: &mut BufHandler) -> (r: Result<(), DnsError>)
        requires
            old(buf_handler).wf(),
        ensures
            final(buf_handler).wf(),
            final(buf_handler).bytes() == old(buf_handler).bytes(),
            match r {
                Ok(()) => old(buf_handler).cursor() + 12 <= BUF_CAP && *final(self) == header_from(
                    old(buf_handler).bytes(),
                    old(buf_handler).cursor(),
                ) && final(buf_handler).cursor() == old(buf_handler).cursor() + 12,
                Err(e) => e == DnsError::BufferExhausted && old(buf_handler).cursor() + 12
                    > BUF_CAP,
            },
    {
        self.id = buf_handler.read_u16()?;
        let a = buf_handler.read()?;
        let b = buf_handler.read()?;

        self.query = (a / 128) % 2 == 1;
        self.opcode = OpCode::from_num((a / 8) % 16);
        self.authoritative_answer = (a / 4) % 2 == 1;
        self.truncation = (a / 2) % 2 == 1;
        self.recursion_desired = a % 2 == 1;

        self.recursion_available = (b / 128) % 2 == 1;
        self.z = (b / 16) % 8;
        self.response_code = ResponseCode::from_num(b % 16);

        self.questions = buf_handler.read_u16()?;
        self.answers = buf_handler.read_u16()?;
        self.nameservers = buf_handler.read_u16()?;
        self.additionals = buf_handler.read_u16()?;

        Ok(())
    }

    /// Encodes the twelve header bytes at the cursor.
    #[verifier::rlimit(100)]
    pub fn write(&self, buf_handler: &mut BufHandler) -> (r: Result<(), DnsError>)
        requires
            old(buf_handler).wf(),
            self.z < 8,
        ensures
            final(buf_handler).wf(),
            match r {
                Ok(()) => old(buf_handler).cursor() + 12 <= BUF_CAP
                    && final(buf_handler).cursor() == old(buf_handler).cursor() + 12
                    && final(buf_handler).bytes().subrange(
                        old(buf_handler).cursor(),
                        old(buf_handler).cursor() + 12,
                    ) == header_wire(*self)
                    && (forall|i: int|
                        0 <= i < BUF_CAP
                            && !(old(buf_handler).cursor() <= i < old(buf_handler).cursor() + 12)
                            ==> final(buf_handler).bytes()[i] == old(buf_handler).bytes()[i]),
                Err(e) => e == DnsError::BufferExhausted
                    && old(buf_handler).cursor() + 12 > BUF_CAP
                    && (forall|i: int|
                        0 <= i < old(buf_handler).cursor() && i < BUF_CAP
                            ==> final(buf_handler).bytes()[i] == old(buf_handler).bytes()[i]),
            },
    {
        let ghost c0 = buf_handler.cursor();
        buf_handler.write_u16(self.id)?;

        let hi: u8 = (if self.query {
            128u8
        } else {
            0u8
        }) + self.opcode.to_num() * 8 + (if self.authoritative_answer {
            4u8
        } else {
            0u8
        }) + (if self.truncation {
            2u8
        } else {
            0u8
        }) + (if self.recursion_desired {
            1u8
        } else {
            0u8
        });
        buf_handler.write(hi)?;

        let lo: u8 = (if self.recursion_available {
            128u8
        } else {
            0u8
        }) + (self.z % 8) * 16 + self.response_code.to_num();
        buf_handler.write(lo)?;

        buf_handler.write_u16(self.questions)?;
        buf_handler.write_u16(self.answers)?;
        buf_handler.write_u16(self.nameservers)?;
        buf_handler.write_u16(self.additionals)?;
        proof {
            let bts = buf_handler.bytes();
            let p1 = be16_bytes(self.id);
            let p2 = seq![flags_hi(*self), flags_lo(*self)];
            let p3 = be16_bytes(self.questions);
            let p4 = be16_bytes(self.answers);
            let p5 = be16_bytes(self.nameservers);
            let p6 = be16_bytes(self.additionals);
            assert(bts.subrange(c0, c0 + 2) =~= p1) by {
                assert(bts[c0] == p1[0] && bts[c0 + 1] == p1[1]);
            }
            assert(bts.subrange(c0 + 2, c0 + 4) =~= p2) by {
                assert(bts[c0 + 2] == p2[0] && bts[c0 + 3] == p2[1]);
            }
            assert(bts.subrange(c0 + 4, c0 + 6) =~= p3) by {
                assert(bts[c0 + 4] == p3[0] && bts[c0 + 5] == p3[1]);
            }
            assert(bts.subrange(c0 + 6, c0 + 8) =~= p4) by {
                assert(bts[c0 + 6] == p4[0] && bts[c0 + 7] == p4[1]);
            }
            assert(bts.subrange(c0 + 8, c0 + 10) =~= p5) by {
                assert(bts[c0 + 8] == p5[0] && bts[c0 + 9] == p5[1]);
            }
            assert(bts.subrange(c0 + 10, c0 + 12) =~= p6) by {
                assert(bts[c0 + 10] == p6[0] && bts[c0 + 11] == p6[1]);
            }
            crate::buffer::lemma_splice2(bts, c0, p1, p2);
            crate::buffer::lemma_splice2(bts, c0, p1 + p2, p3);
            crate::buffer::lemma_splice2(bts, c0, p1 + p2 + p3, p4);
            crate::buffer::lemma_splice2(bts, c0, p1 + p2 + p3 + p4, p5);
            crate::buffer::lemma_splice2(bts, c0, p1 + p2 + p3 + p4 + p5, p6);
        }
        Ok(())
    }
}

} // verus!

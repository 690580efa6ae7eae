//! The question section entry: a domain name and a query type.

use vstd::prelude::*;

use crate::buffer::{
    be16, be16_bytes, encodable_name, lower_seq, name_at, name_end, name_wire, wire_len,
    BufHandler, BUF_CAP, MAX_JUMPS,
};
use crate::DnsError;

verus! {

/// A name fit for the wire and stable under decoding: encodable, and
/// already lowercase (decoding lowercases every label).
pub open spec fn wf_name(s: Seq<u8>) -> bool {
    encodable_name(s) && lower_seq(s) == s
}

/// The record and query types this codec recognizes; every other wire
/// value decodes to `UNKNOWN`.
#[derive(Debug, PartialEq, Eq, Structural, Clone, Copy)]
pub enum QueryType {
    A,
    NS,
    CNAME,
    MX,
    AAAA,
    UNKNOWN,
}

/// The wire value of a query type; `UNKNOWN` has no wire value of its own
/// and writes as zero.
pub open spec fn qtype_num(t: QueryType) -> u16 {
    match t {
        QueryType::A => 1,
        QueryType::NS => 2,
        QueryType::CNAME => 5,
        QueryType::MX => 15,
        QueryType::AAAA => 28,
        QueryType::UNKNOWN => 0,
    }
}

/// The query type a wire value decodes to.
pub open spec fn qtype_of(num: u16) -> QueryType {
    if num == 1 {
        QueryType::A
    } else if num == 2 {
        QueryType::NS
    } else if num == 5 {
        QueryType::CNAME
    } else if num == 15 {
        QueryType::MX
    } else if num == 28 {
        QueryType::AAAA
    } else {
        QueryType::UNKNOWN
    }
}

impl QueryType {
    /// Lenient decode of a wire value.
    pub fn from_num(num: u16) -> (r: QueryType)
        ensures
            r == qtype_of(num),
    {
        match num {
            1 => QueryType::A,
            2 => QueryType::NS,
            5 => QueryType::CNAME,
            15 => QueryType::MX,
            28 => QueryType::AAAA,
            _ => QueryType::UNKNOWN,
        }
    }

    /// The wire value of this query type.
    pub fn to_num(&self) -> (r: u16)
        ensures
            r == qtype_num(*self),
    {
        match *self {
            QueryType::A => 1,
            QueryType::NS => 2,
            QueryType::CNAME => 5,
            QueryType::MX => 15,
            QueryType::AAAA => 28,
            QueryType::UNKNOWN => 0,
        }
    }
}

/// A question, with the name held as lowercase ASCII bytes with dots
/// between labels.
#[derive(Debug, PartialEq, Clone)]
pub struct DnsQuestion {
    pub name: Vec<u8>,
    pub qtype: QueryType,
}

/// The mathematical value of a question.
pub struct QuestionView {
    pub name: Seq<u8>,
    pub qtype: QueryType,
}

impl View for DnsQuestion {
    type V = QuestionView;

    open spec fn view(&self) -> QuestionView {
        QuestionView { name: self.name@, qtype: self.qtype }
    }
}

/// The wire form of a question: the name, the type, and the class (always
/// 1, "Internet").
pub open spec fn question_wire(q: QuestionView) -> Seq<u8> {
    name_wire(q.name) + be16_bytes(qtype_num(q.qtype)) + be16_bytes(1)
}

/// Length of the wire form of a question with an encodable name.
pub open spec fn question_wire_len(q: QuestionView) -> int {
    wire_len(q.name) + 4
}

/// The question decoded at `off`, with the cursor position after it.
pub open spec fn question_at(b: Seq<u8>, off: int) -> Result<(QuestionView, int), DnsError> {
    match name_at(b, off, MAX_JUMPS as nat) {
        Err(e) => Err(e),
        Ok(n) => {
            let p = name_end(b, off);
            if p + 4 > BUF_CAP {
                Err(DnsError::BufferExhausted)
            } else {
                Ok((QuestionView { name: n, qtype: qtype_of(be16(b[p], b[p + 1])) }, p + 4))
            }
        },
    }
}

impl DnsQuestion {
    /// An empty question: the root name queried for an address record.
    pub fn new() -> (r: DnsQuestion)
        ensures
            r@.name == Seq::<u8>::empty(),
            r@.qtype == QueryType::A,
    {
        DnsQuestion { name: Vec::new(), qtype: QueryType::A }
    }

    /// Decodes a question at the cursor into `self`, appending the name's
    /// labels to `self.name` as the cursor decoder does.
    pub fn read(&mut self, buf_handler: &mut BufHandler) -> (r: Result<(), DnsError>)
        requires
            old(buf_handler).wf(),
        ensures
            final(buf_handler).wf(),
            final(buf_handler).bytes() == old(buf_handler).bytes(),
            match r {
                Ok(()) => (question_at(old(buf_handler).bytes(), old(buf_handler).cursor())
                    matches Ok(pair) && final(self)@.name == old(self)@.name + pair.0.name
                    && final(self)@.qtype == pair.0.qtype && final(buf_handler).cursor()
                    == pair.1),
                Err(e) => question_at(old(buf_handler).bytes(), old(buf_handler).cursor())
                    == Err::<(QuestionView, int), DnsError>(e),
            },
    {
        buf_handler.read_qname(&mut self.name)?;
        let tnum = buf_handler.read_u16()?;
        self.qtype = QueryType::from_num(tnum);
        let _qclass = buf_handler.read_u16()?;
        Ok(())
    }

    /// Encodes the question at the cursor. Fails without writing anything
    /// lasting when the name is not encodable or the question does not
    /// fit.
    pub fn write(&self, buf_handler: &mut BufHandler) -> (r: Result<(), DnsError>)
        requires
            old(buf_handler).wf(),
        ensures
            final(buf_handler).wf(),
            match r {
                Ok(()) => encodable_name(self@.name)
                    && old(buf_handler).cursor() + question_wire_len(self@) <= BUF_CAP
                    && final(buf_handler).cursor() == old(buf_handler).cursor()
                        + question_wire_len(self@)
                    && final(buf_handler).bytes().subrange(
                        old(buf_handler).cursor(),
                        final(buf_handler).cursor(),
                    ) == question_wire(self@)
                    && (forall|i: int|
                        0 <= i < BUF_CAP
                            && !(old(buf_handler).cursor() <= i < final(buf_handler).cursor())
                            ==> final(buf_handler).bytes()[i] == old(buf_handler).bytes()[i]),
                Err(e) => (e == DnsError::InvalidName && !encodable_name(self@.name))
                    || (e == DnsError::BufferExhausted && encodable_name(self@.name)
                        && old(buf_handler).cursor() + question_wire_len(self@) > BUF_CAP),
            },
    {
        let ghost c0 = buf_handler.cursor();
        match buf_handler.write_qname(&self.name) {
            Ok(()) => {},
            Err(e) => {
                if matches!(e, DnsError::InvalidName) {
                    return Err(DnsError::InvalidName);
                }
                return Err(DnsError::BufferExhausted);
            },
        }
        let ghost mid = buf_handler.bytes();
        let ghost wn = wire_len(self@.name);
        let r1 = buf_handler.write_u16(self.qtype.to_num());
        match r1 {
            Ok(()) => {},
            Err(_) => {
                return Err(DnsError::BufferExhausted);
            },
        }
        let r2 = buf_handler.write_u16(1);
        match r2 {
            Ok(()) => {},
            Err(_) => {
                return Err(DnsError::BufferExhausted);
            },
        }
        proof {
            let w = question_wire(self@);
            let bts = buf_handler.bytes();
            assert(bts.subrange(c0, c0 + wn) =~= name_wire(self@.name)) by {
                assert forall|i: int| 0 <= i < wn implies #[trigger] bts[c0 + i]
                    == mid.subrange(c0, c0 + wn)[i] by {
                    assert(bts[c0 + i] == mid[c0 + i]);
                }
            }
            assert(bts.subrange(c0, c0 + wn + 4) =~= w);
        }
        Ok(())
    }
}

/// Round trip at the question level: wherever a question's wire form
/// stands, decoding at its start restores the question and ends just
/// past it.
pub proof fn lemma_question_round_trip(b: Seq<u8>, off: int, q: QuestionView)
    requires
        b.len() == BUF_CAP,
        wf_name(q.name),
        0 <= off,
        off + question_wire_len(q) <= BUF_CAP,
        b.subrange(off, off + question_wire_len(q)) == question_wire(q),
    ensures
        question_at(b, off) == Ok::<(QuestionView, int), DnsError>((q, off + question_wire_len(q))),
{
    let wn = wire_len(q.name);
    let w = question_wire(q);
    crate::buffer::lemma_name_wire_len(q.name);
    assert(b.subrange(off, off + wn) =~= name_wire(q.name)) by {
        assert forall|i: int| 0 <= i < wn implies b[off + i] == name_wire(q.name)[i] by {
            assert(b[off + i] == b.subrange(off, off + question_wire_len(q))[i]);
        }
    }
    crate::buffer::lemma_name_round_trip(b, off, q.name, MAX_JUMPS as nat);
    let p = off + wn;
    assert(b[p] == w[wn] && b[p + 1] == w[wn + 1]) by {
        assert(b[p] == b.subrange(off, off + question_wire_len(q))[wn]);
        assert(b[p + 1] == b.subrange(off, off + question_wire_len(q))[wn + 1]);
    }
    let tn = qtype_num(q.qtype);
    assert(be16((tn / 256) as u8, (tn % 256) as u8) == tn);
    assert(qtype_of(qtype_num(q.qtype)) == q.qtype);
    let parsed = question_at(b, off);
    assert(parsed matches Ok(pair) && pair.0.name == q.name && pair.0.qtype == q.qtype && pair.1
        == off + question_wire_len(q));
}

} // verus!

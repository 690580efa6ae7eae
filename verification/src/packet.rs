//! The message model: a header and four ordered record sections, with the
//! codec between messages and wire buffers.

use vstd::prelude::*;

use crate::buffer::{BufHandler, BUF_CAP};
use crate::header::{header_from, header_wire, DnsHeader};
use crate::question::{question_at, question_wire, DnsQuestion, QuestionView};
use crate::record::{record_at, record_wire, DnsRecord, RecordView};
use crate::DnsError;

verus! {

/// A full DNS message.
#[derive(Debug, PartialEq)]
pub struct DnsPacket {
    pub header: DnsHeader,
    pub questions: Vec<DnsQuestion>,
    pub answers: Vec<DnsRecord>,
    pub nameservers: Vec<DnsRecord>,
    pub additionals: Vec<DnsRecord>,
}

/// The mathematical value of a message.
pub struct PacketView {
    pub header: DnsHeader,
    pub questions: Seq<QuestionView>,
    pub answers: Seq<RecordView>,
    pub nameservers: Seq<RecordView>,
    pub additionals: Seq<RecordView>,
}

impl View for DnsPacket {
    type V = PacketView;

    open spec fn view(&self) -> PacketView {
        PacketView {
            header: self.header,
            questions: self.questions@.map_values(|q: DnsQuestion| q@),
            answers: self.answers@.map_values(|r: DnsRecord| r@),
            nameservers: self.nameservers@.map_values(|r: DnsRecord| r@),
            additionals: self.additionals@.map_values(|r: DnsRecord| r@),
        }
    }
}

/// `n` questions decoded in sequence from `off`.
pub open spec fn questions_at(b: Seq<u8>, off: int, n: int) -> Result<
    (Seq<QuestionView>, int),
    DnsError,
>
    decreases n,
{
    if n <= 0 {
        Ok((Seq::empty(), off))
    } else {
        match question_at(b, off) {
            Err(e) => Err(e),
            Ok((q, p)) => match questions_at(b, p, n - 1) {
                Err(e) => Err(e),
                Ok((qs, e2)) => Ok((seq![q] + qs, e2)),
            },
        }
    }
}

/// `n` records decoded in sequence from `off`.
pub open spec fn records_at(b: Seq<u8>, off: int, n: int) -> Result<
    (Seq<RecordView>, int),
    DnsError,
>
    decreases n,
{
    if n <= 0 {
        Ok((Seq::empty(), off))
    } else {
        match record_at(b, off) {
            Err(e) => Err(e),
            Ok((r, p)) => match records_at(b, p, n - 1) {
                Err(e) => Err(e),
                Ok((rs, e2)) => Ok((seq![r] + rs, e2)),
            },
        }
    }
}

/// The message decoded at `off`: the header, then as many entries of each
/// section as its count declares.
pub open spec fn packet_at(b: Seq<u8>, off: int) -> Result<(PacketView, int), DnsError> {
    if off < 0 || off + 12 > BUF_CAP {
        Err(DnsError::BufferExhausted)
    } else {
        let h = header_from(b, off);
        match questions_at(b, off + 12, h.questions as int) {
            Err(e) => Err(e),
            Ok((qs, p1)) => match records_at(b, p1, h.answers as int) {
                Err(e) => Err(e),
                Ok((ans, p2)) => match records_at(b, p2, h.nameservers as int) {
                    Err(e) => Err(e),
                    Ok((ns, p3)) => match records_at(b, p3, h.additionals as int) {
                        Err(e) => Err(e),
                        Ok((ad, p4)) => Ok(
                            (
                                PacketView {
                                    header: h,
                                    questions: qs,
                                    answers: ans,
                                    nameservers: ns,
                                    additionals: ad,
                                },
                                p4,
                            ),
                        ),
                    },
                },
            },
        }
    }
}

/// The wire form of a question sequence.
pub open spec fn questions_wire(qs: Seq<QuestionView>) -> Seq<u8>
    decreases qs.len(),
{
    if qs.len() == 0 {
        Seq::empty()
    } else {
        question_wire(qs[0]) + questions_wire(qs.drop_first())
    }
}

/// The wire form of a record sequence.
pub open spec fn records_wire(rs: Seq<RecordView>) -> Seq<u8>
    decreases rs.len(),
{
    if rs.len() == 0 {
        Seq::empty()
    } else {
        record_wire(rs[0]) + records_wire(rs.drop_first())
    }
}

/// The header with its section counts derived from the actual section
/// lengths, as encoding always derives them.
pub open spec fn with_counts(pv: PacketView) -> PacketView {
    PacketView {
        header: DnsHeader {
            questions: pv.questions.len() as u16,
            answers: pv.answers.len() as u16,
            nameservers: pv.nameservers.len() as u16,
            additionals: pv.additionals.len() as u16,
            ..pv.header
        },
        ..pv
    }
}

/// The wire form of a whole message whose header counts are already
/// derived.
pub open spec fn packet_wire(pv: PacketView) -> Seq<u8> {
    header_wire(pv.header) + questions_wire(pv.questions) + records_wire(pv.answers)
        + records_wire(pv.nameservers) + records_wire(pv.additionals)
}

/// Every name in the message can be written to the wire.
pub open spec fn packet_encodable(pv: PacketView) -> bool {
    &&& forall|i: int|
        0 <= i < pv.questions.len() ==> crate::buffer::encodable_name(
            #[trigger] pv.questions[i].name,
        )
    &&& forall|i: int| 0 <= i < pv.answers.len() ==> (#[trigger] pv.answers[i]).encodable()
    &&& forall|i: int| 0 <= i < pv.nameservers.len() ==> (#[trigger] pv.nameservers[i]).encodable()
    &&& forall|i: int| 0 <= i < pv.additionals.len() ==> (#[trigger] pv.additionals[i]).encodable()
}

impl DnsPacket {
    /// An empty message with a zeroed header.
    pub fn new() -> (r: DnsPacket)
        ensures
            r@.header == DnsHeader::new_spec(),
            r@.questions == Seq::<QuestionView>::empty(),
            r@.answers == Seq::<RecordView>::empty(),
            r@.nameservers == Seq::<RecordView>::empty(),
            r@.additionals == Seq::<RecordView>::empty(),
    {
        let r = DnsPacket {
            header: DnsHeader::new(),
            questions: Vec::new(),
            answers: Vec::new(),
            nameservers: Vec::new(),
            additionals: Vec::new(),
        };
        proof {
            assert(r@.questions =~= Seq::<QuestionView>::empty());
            assert(r@.answers =~= Seq::<RecordView>::empty());
            assert(r@.nameservers =~= Seq::<RecordView>::empty());
            assert(r@.additionals =~= Seq::<RecordView>::empty());
        }
        r
    }

    /// Decodes a whole message at the cursor into a fresh packet.
    pub fn from_buffer(buf_handler: &mut BufHandler) -> (r: Result<DnsPacket, DnsError>)
        requires
            old(buf_handler).wf(),
        ensures
            final(buf_handler).wf(),
            final(buf_handler).bytes() == old(buf_handler).bytes(),
            match r {
                Ok(p) => (packet_at(old(buf_handler).bytes(), old(buf_handler).cursor())
                    matches Ok(pair) && p@ == pair.0 && final(buf_handler).cursor() == pair.1),
                Err(e) => packet_at(old(buf_handler).bytes(), old(buf_handler).cursor())
                    == Err::<(PacketView, int), DnsError>(e),
            },
    {
        let mut packet = Self::new();
        packet.read(buf_handler)?;
        proof {
            match packet_at(old(buf_handler).bytes(), old(buf_handler).cursor()) {
                Ok(pair) => {
                    assert(Seq::<QuestionView>::empty() + pair.0.questions =~= pair.0.questions);
                    assert(Seq::<RecordView>::empty() + pair.0.answers =~= pair.0.answers);
                    assert(Seq::<RecordView>::empty() + pair.0.nameservers =~= pair.0.nameservers);
                    assert(Seq::<RecordView>::empty() + pair.0.additionals =~= pair.0.additionals);
                },
                Err(_) => {
                    assert(false);
                },
            }
        }
        Ok(packet)
    }

    /// Decodes a whole message at the cursor: the header, then each
    /// section's declared number of entries, appended to `self`'s
    /// sections.
    #[verifier::rlimit(100)]
    pub fn read(&mut self, buf_reader: &mut BufHandler) -> (r: Result<(), DnsError>)
        requires
            old(buf_reader).wf(),
        ensures
            final(buf_reader).wf(),
            final(buf_reader).bytes() == old(buf_reader).bytes(),
            match r {
                Ok(()) => (packet_at(old(buf_reader).bytes(), old(buf_reader).cursor())
                    matches Ok(pair) && final(self)@.header == pair.0.header
                    && final(self)@.questions == old(self)@.questions + pair.0.questions
                    && final(self)@.answers == old(self)@.answers + pair.0.answers
                    && final(self)@.nameservers == old(self)@.nameservers + pair.0.nameservers
                    && final(self)@.additionals == old(self)@.additionals + pair.0.additionals
                    && final(buf_reader).cursor() == pair.1),
                Err(e) => packet_at(old(buf_reader).bytes(), old(buf_reader).cursor())
                    == Err::<(PacketView, int), DnsError>(e),
            },
    {
        let ghost b = buf_reader.bytes();
        let ghost c0 = buf_reader.cursor();
        self.header.read(buf_reader)?;
        let ghost h = header_from(b, c0);

        let nq = self.header.questions;
        let mut i: u16 = 0;
        while i < nq
            invariant
                buf_reader.wf(),
                buf_reader.bytes() == b,
                b == old(buf_reader).bytes(),
                c0 == old(buf_reader).cursor(),
                0 <= c0 && c0 + 12 <= BUF_CAP,
                h == header_from(b, c0),
                self.header == h,
                nq == h.questions,
                i <= nq,
                self.answers@ == old(self).answers@,
                self.nameservers@ == old(self).nameservers@,
                self.additionals@ == old(self).additionals@,
                questions_at(b, c0 + 12, i as int) matches Ok(pair2)
                    && self@.questions == old(self)@.questions + pair2.0
                    && buf_reader.cursor() == pair2.1,
            decreases nq - i,
        {
            let ghost pair2 = questions_at(b, c0 + 12, i as int)->Ok_0;
            let mut question = DnsQuestion::new();
            let rq = question.read(buf_reader);
            proof {
                match rq {
                    Ok(()) => {},
                    Err(e) => {
                        lemma_questions_err(
                            b,
                            c0 + 12,
                            i as int,
                            nq as int,
                            pair2.0,
                            pair2.1,
                            e,
                        );
                    },
                }
            }
            match rq {
                Ok(()) => {},
                Err(e) => {
                    return Err(e);
                },
            }
            let ghost qv = question@;
            proof {
                let q = question_at(b, pair2.1)->Ok_0;
                assert(qv.name =~= q.0.name);
                assert(qv == q.0);
                lemma_questions_snoc(b, c0 + 12, i as int, pair2.0, pair2.1, qv, q.1);
            }
            let ghost prevq = self.questions@;
            self.questions.push(question);
            proof {
                assert(self@.questions =~= prevq.map_values(|q: DnsQuestion| q@).push(qv));
                assert(self@.questions =~= old(self)@.questions + pair2.0.push(qv));
            }
            i = i + 1;
        }
        let ghost p1 = questions_at(b, c0 + 12, h.questions as int)->Ok_0.1;
        let ghost qs_all = self@.questions;

        let na = self.header.answers;
        let mut j: u16 = 0;
        while j < na
            invariant
                buf_reader.wf(),
                buf_reader.bytes() == b,
                b == old(buf_reader).bytes(),
                c0 == old(buf_reader).cursor(),
                0 <= c0 && c0 + 12 <= BUF_CAP,
                h == header_from(b, c0),
                self.header == h,
                na == h.answers,
                j <= na,
                self@.questions == qs_all,
                questions_at(b, c0 + 12, h.questions as int) matches Ok(pq) && pq.1 == p1,
                self.nameservers@ == old(self).nameservers@,
                self.additionals@ == old(self).additionals@,
                records_at(b, p1, j as int) matches Ok(pair2)
                    && self@.answers == old(self)@.answers + pair2.0
                    && buf_reader.cursor() == pair2.1,
            decreases na - j,
        {
            let ghost pair2 = records_at(b, p1, j as int)->Ok_0;
            let rr = DnsRecord::read(buf_reader);
            match rr {
                Ok(rec) => {
                    let ghost rv = rec@;
                    proof {
                        let q = record_at(b, pair2.1)->Ok_0;
                        assert(rv == q.0);
                        lemma_records_snoc(b, p1, j as int, pair2.0, pair2.1, rv, q.1);
                    }
                    let ghost prevr = self.answers@;
                    self.answers.push(rec);
                    proof {
                        assert(self@.answers =~= prevr.map_values(|r: DnsRecord| r@).push(rv));
                        assert(self@.answers =~= old(self)@.answers + pair2.0.push(rv));
                    }
                },
                Err(e) => {
                    proof {
                        lemma_records_err(b, p1, j as int, na as int, pair2.0, pair2.1, e);
                    }
                    return Err(e);
                },
            }
            j = j + 1;
        }
        let ghost p2 = records_at(b, p1, h.answers as int)->Ok_0.1;
        let ghost ans_all = self@.answers;

        let nn = self.header.nameservers;
        let mut k: u16 = 0;
        while k < nn
            invariant
                buf_reader.wf(),
                buf_reader.bytes() == b,
                b == old(buf_reader).bytes(),
                c0 == old(buf_reader).cursor(),
                0 <= c0 && c0 + 12 <= BUF_CAP,
                h == header_from(b, c0),
                self.header == h,
                nn == h.nameservers,
                k <= nn,
                self@.questions == qs_all,
                self@.answers == ans_all,
                questions_at(b, c0 + 12, h.questions as int) matches Ok(pq) && pq.1 == p1,
                records_at(b, p1, h.answers as int) matches Ok(pa) && pa.1 == p2,
                self.additionals@ == old(self).additionals@,
                records_at(b, p2, k as int) matches Ok(pair2)
                    && self@.nameservers == old(self)@.nameservers + pair2.0
                    && buf_reader.cursor() == pair2.1,
            decreases nn - k,
        {
            let ghost pair2 = records_at(b, p2, k as int)->Ok_0;
            let rr = DnsRecord::read(buf_reader);
            match rr {
                Ok(rec) => {
                    let ghost rv = rec@;
                    proof {
                        let q = record_at(b, pair2.1)->Ok_0;
                        assert(rv == q.0);
                        lemma_records_snoc(b, p2, k as int, pair2.0, pair2.1, rv, q.1);
                    }
                    let ghost prevr = self.nameservers@;
                    self.nameservers.push(rec);
                    proof {
                        assert(self@.nameservers =~= prevr.map_values(|r: DnsRecord| r@).push(rv));
                        assert(self@.nameservers =~= old(self)@.nameservers + pair2.0.push(rv));
                    }
                },
                Err(e) => {
                    proof {
                        lemma_records_err(b, p2, k as int, nn as int, pair2.0, pair2.1, e);
                    }
                    return Err(e);
                },
            }
            k = k + 1;
        }
        let ghost p3 = records_at(b, p2, h.nameservers as int)->Ok_0.1;
        let ghost ns_all = self@.nameservers;

        let nd = self.header.additionals;
        let mut m: u16 = 0;
        while m < nd
            invariant
                buf_reader.wf(),
                buf_reader.bytes() == b,
                b == old(buf_reader).bytes(),
                c0 == old(buf_reader).cursor(),
                0 <= c0 && c0 + 12 <= BUF_CAP,
                h == header_from(b, c0),
                self.header == h,
                nd == h.additionals,
                m <= nd,
                self@.questions == qs_all,
                self@.answers == ans_all,
                self@.nameservers == ns_all,
                questions_at(b, c0 + 12, h.questions as int) matches Ok(pq) && pq.1 == p1,
                records_at(b, p1, h.answers as int) matches Ok(pa) && pa.1 == p2,
                records_at(b, p2, h.nameservers as int) matches Ok(pn) && pn.1 == p3,
                records_at(b, p3, m as int) matches Ok(pair2)
                    && self@.additionals == old(self)@.additionals + pair2.0
                    && buf_reader.cursor() == pair2.1,
            decreases nd - m,
        {
            let ghost pair2 = records_at(b, p3, m as int)->Ok_0;
            let rr = DnsRecord::read(buf_reader);
            match rr {
                Ok(rec) => {
                    let ghost rv = rec@;
                    proof {
                        let q = record_at(b, pair2.1)->Ok_0;
                        assert(rv == q.0);
                        lemma_records_snoc(b, p3, m as int, pair2.0, pair2.1, rv, q.1);
                    }
                    let ghost prevr = self.additionals@;
                    self.additionals.push(rec);
                    proof {
                        assert(self@.additionals =~= prevr.map_values(|r: DnsRecord| r@).push(rv));
                        assert(self@.additionals =~= old(self)@.additionals + pair2.0.push(rv));
                    }
                },
                Err(e) => {
                    proof {
                        lemma_records_err(b, p3, m as int, nd as int, pair2.0, pair2.1, e);
                    }
                    return Err(e);
                },
            }
            m = m + 1;
        }
        Ok(())
    }
}

impl DnsPacket {
    /// Encodes one record section at the cursor, extending an already
    /// written wire prefix that started at `c0`.
    #[verifier::rlimit(100)]
    fn write_section(
        buf_handler: &mut BufHandler,
        recs: &Vec<DnsRecord>,
        Ghost(c0): Ghost<int>,
        Ghost(sofar0): Ghost<Seq<u8>>,
    ) -> (r: Result<(), DnsError>)
        requires
            old(buf_handler).wf(),
            forall|k: int| 0 <= k < recs@.len() ==> (#[trigger] recs@[k])@.encodable(),
            0 <= c0,
            old(buf_handler).cursor() == c0 + sofar0.len(),
            c0 + sofar0.len() <= BUF_CAP,
            old(buf_handler).bytes().subrange(c0, c0 + sofar0.len()) == sofar0,
        ensures
            final(buf_handler).wf(),
            ({
                let rw = records_wire(recs@.map_values(|rec: DnsRecord| rec@));
                match r {
                    Ok(()) => c0 + sofar0.len() + rw.len() <= BUF_CAP
                        && final(buf_handler).cursor() == c0 + sofar0.len() + rw.len()
                        && final(buf_handler).bytes().subrange(c0, c0 + sofar0.len() + rw.len())
                            == sofar0 + rw
                        && (forall|k: int|
                            0 <= k < BUF_CAP
                                && !(c0 + sofar0.len() <= k < c0 + sofar0.len() + rw.len())
                                ==> final(buf_handler).bytes()[k] == old(buf_handler).bytes()[k]),
                    Err(e) => e == DnsError::BufferExhausted && c0 + sofar0.len() + rw.len()
                        > BUF_CAP,
                }
            }),
    {
        let ghost rvs = recs@.map_values(|rec: DnsRecord| rec@);
        let ghost mut sofar = sofar0;
        let mut i: usize = 0;
        while i < recs.len()
            invariant
                buf_handler.wf(),
                forall|k: int| 0 <= k < recs@.len() ==> (#[trigger] recs@[k])@.encodable(),
                rvs == recs@.map_values(|rec: DnsRecord| rec@),
                i <= recs@.len(),
                0 <= c0,
                sofar == sofar0 + records_wire(rvs.take(i as int)),
                buf_handler.cursor() == c0 + sofar.len(),
                c0 + sofar.len() <= BUF_CAP,
                buf_handler.bytes().subrange(c0, c0 + sofar.len()) == sofar,
                forall|k: int|
                    0 <= k < BUF_CAP && !(c0 + sofar0.len() <= k < c0 + sofar.len())
                        ==> buf_handler.bytes()[k] == old(buf_handler).bytes()[k],
            decreases recs@.len() - i,
        {
            let ghost prevb = buf_handler.bytes();
            let ghost cur = buf_handler.cursor();
            let rec = &recs[i];
            proof {
                assert(rec@ == rvs[i as int]);
                assert(crate::record::addr_sized(rec@));
                crate::record::lemma_record_wire_len(rec@);
            }
            let wr = rec.write(buf_handler);
            match wr {
                Err(e) => {
                    proof {
                        lemma_records_wire_snoc(rvs, i as int);
                        lemma_records_wire_take_len(rvs, i as int + 1);
                    }
                    return Err(DnsError::BufferExhausted);
                },
                Ok(()) => {},
            }
            proof {
                let piece = record_wire(rec@);
                if rec@ matches RecordView::UNKNOWN { .. } {
                    assert(piece =~= Seq::<u8>::empty());
                    assert(buf_handler.bytes().subrange(cur, cur) =~= piece);
                }
                crate::buffer::lemma_append_piece(prevb, buf_handler.bytes(), c0, cur, sofar, piece);
                lemma_records_wire_snoc(rvs, i as int);
                assert((sofar0 + records_wire(rvs.take(i as int))) + piece =~= sofar0
                    + records_wire(rvs.take(i as int + 1)));
                sofar = sofar + piece;
            }
            i = i + 1;
        }
        proof {
            assert(rvs.take(rvs.len() as int) =~= rvs);
        }
        Ok(())
    }

    /// Encodes the whole message at the cursor: the header with its counts
    /// derived from the section lengths, then every section in order.
    /// Fails without lasting effect when a name is not encodable, and with
    /// the buffer-exhausted error when the message does not fit.
    #[verifier::rlimit(100)]
    pub fn write(&mut self, buf_handler: &mut BufHandler) -> (r: Result<(), DnsError>)
        requires
            old(buf_handler).wf(),
            old(self).header.z < 8,
            old(self).questions@.len() <= 0xffff,
            old(self).answers@.len() <= 0xffff,
            old(self).nameservers@.len() <= 0xffff,
            old(self).additionals@.len() <= 0xffff,
        ensures
            final(buf_handler).wf(),
            final(self)@ == with_counts(old(self)@),
            ({
                let pv = with_counts(old(self)@);
                let c0 = old(buf_handler).cursor();
                match r {
                    Ok(()) => packet_encodable(pv) && c0 + packet_wire(pv).len() <= BUF_CAP
                        && final(buf_handler).cursor() == c0 + packet_wire(pv).len()
                        && final(buf_handler).bytes().subrange(c0, c0 + packet_wire(pv).len())
                            == packet_wire(pv)
                        && (forall|k: int|
                            0 <= k < BUF_CAP && !(c0 <= k < c0 + packet_wire(pv).len())
                                ==> final(buf_handler).bytes()[k] == old(buf_handler).bytes()[k]),
                    Err(e) => (e == DnsError::InvalidName && !packet_encodable(pv)
                        && final(buf_handler).bytes() == old(buf_handler).bytes()
                        && final(buf_handler).cursor() == c0) || (e == DnsError::BufferExhausted
                        && packet_encodable(pv) && c0 + packet_wire(pv).len() > BUF_CAP),
                }
            }),
    {
        self.header.questions = self.questions.len() as u16;
        self.header.answers = self.answers.len() as u16;
        self.header.nameservers = self.nameservers.len() as u16;
        self.header.additionals = self.additionals.len() as u16;
        let ghost pv = with_counts(old(self)@);
        proof {
            assert(self@.questions =~= pv.questions);
            assert(self@.answers =~= pv.answers);
            assert(self@.nameservers =~= pv.nameservers);
            assert(self@.additionals =~= pv.additionals);
            assert(self@ == pv);
        }

        let mut v: usize = 0;
        while v < self.questions.len()
            invariant
                self@ == pv,
                pv == with_counts(old(self)@),
                buf_handler == old(buf_handler),
                buf_handler.wf(),
                v <= self.questions@.len(),
                forall|k: int|
                    0 <= k < v ==> crate::buffer::encodable_name(#[trigger] pv.questions[k].name),
            decreases self.questions@.len() - v,
        {
            proof {
                let nm = self.questions@[v as int].name@;
                assert(nm.subrange(0, nm.len() as int) =~= nm);
            }
            if !BufHandler::check_name(&self.questions[v].name, 0) {
                proof {
                    assert(!crate::buffer::encodable_name(pv.questions[v as int].name));
                }
                return Err(DnsError::InvalidName);
            }
            v = v + 1;
        }
        let mut v2: usize = 0;
        while v2 < self.answers.len()
            invariant
                self@ == pv,
                pv == with_counts(old(self)@),
                buf_handler == old(buf_handler),
                buf_handler.wf(),
                v2 <= self.answers@.len(),
                forall|k: int| 0 <= k < v2 ==> (#[trigger] pv.answers[k]).encodable(),
            decreases self.answers@.len() - v2,
        {
            if !crate::record::record_encodable_exec(&self.answers[v2]) {
                proof {
                    assert(!(pv.answers[v2 as int]).encodable());
                }
                return Err(DnsError::InvalidName);
            }
            v2 = v2 + 1;
        }
        let mut v3: usize = 0;
        while v3 < self.nameservers.len()
            invariant
                self@ == pv,
                pv == with_counts(old(self)@),
                buf_handler == old(buf_handler),
                buf_handler.wf(),
                v3 <= self.nameservers@.len(),
                forall|k: int| 0 <= k < v3 ==> (#[trigger] pv.nameservers[k]).encodable(),
            decreases self.nameservers@.len() - v3,
        {
            if !crate::record::record_encodable_exec(&self.nameservers[v3]) {
                proof {
                    assert(!(pv.nameservers[v3 as int]).encodable());
                }
                return Err(DnsError::InvalidName);
            }
            v3 = v3 + 1;
        }
        let mut v4: usize = 0;
        while v4 < self.additionals.len()
            invariant
                self@ == pv,
                pv == with_counts(old(self)@),
                buf_handler == old(buf_handler),
                buf_handler.wf(),
                v4 <= self.additionals@.len(),
                forall|k: int| 0 <= k < v4 ==> (#[trigger] pv.additionals[k]).encodable(),
            decreases self.additionals@.len() - v4,
        {
            if !crate::record::record_encodable_exec(&self.additionals[v4]) {
                proof {
                    assert(!(pv.additionals[v4 as int]).encodable());
                }
                return Err(DnsError::InvalidName);
            }
            v4 = v4 + 1;
        }
        proof {
            assert(packet_encodable(pv));
        }

        let ghost c0 = buf_handler.cursor();
        let hr = self.header.write(buf_handler);
        match hr {
            Err(_) => {
                return Err(DnsError::BufferExhausted);
            },
            Ok(()) => {},
        }
        let ghost mut sofar = header_wire(pv.header);

        let mut i: usize = 0;
        while i < self.questions.len()
            invariant
                buf_handler.wf(),
                self@ == pv,
                pv == with_counts(old(self)@),
                packet_encodable(pv),
                i <= self.questions@.len(),
                0 <= c0,
                c0 == old(buf_handler).cursor(),
                sofar == header_wire(pv.header) + questions_wire(pv.questions.take(i as int)),
                buf_handler.cursor() == c0 + sofar.len(),
                c0 + sofar.len() <= BUF_CAP,
                buf_handler.bytes().subrange(c0, c0 + sofar.len()) == sofar,
                forall|k: int|
                    0 <= k < BUF_CAP && !(c0 <= k < c0 + sofar.len()) ==> buf_handler.bytes()[k]
                        == old(buf_handler).bytes()[k],
            decreases self.questions@.len() - i,
        {
            let ghost prevb = buf_handler.bytes();
            let ghost cur = buf_handler.cursor();
            let q = &self.questions[i];
            proof {
                assert(q@ == pv.questions[i as int]);
                crate::buffer::lemma_name_wire_len(q@.name);
            }
            let wr = q.write(buf_handler);
            match wr {
                Err(e) => {
                    proof {
                        lemma_questions_wire_snoc(pv.questions, i as int);
                        lemma_questions_wire_take_len(pv.questions, i as int + 1);
                    }
                    return Err(DnsError::BufferExhausted);
                },
                Ok(()) => {},
            }
            proof {
                let piece = question_wire(q@);
                crate::buffer::lemma_append_piece(prevb, buf_handler.bytes(), c0, cur, sofar, piece);
                lemma_questions_wire_snoc(pv.questions, i as int);
                assert((header_wire(pv.header) + questions_wire(pv.questions.take(i as int)))
                    + piece =~= header_wire(pv.header) + questions_wire(
                    pv.questions.take(i as int + 1),
                ));
                sofar = sofar + piece;
            }
            i = i + 1;
        }
        proof {
            assert(pv.questions.take(pv.questions.len() as int) =~= pv.questions);
        }

        proof {
            assert forall|k: int| 0 <= k < self.answers@.len() implies (#[trigger] self.answers@[k])@.encodable() by {
                assert((self.answers@[k])@ == pv.answers[k]);
            }
        }
        let r1 = Self::write_section(buf_handler, &self.answers, Ghost(c0), Ghost(sofar));
        match r1 {
            Err(_) => {
                return Err(DnsError::BufferExhausted);
            },
            Ok(()) => {},
        }
        proof {
            assert((header_wire(pv.header) + questions_wire(pv.questions)) + records_wire(
                pv.answers,
            ) =~= header_wire(pv.header) + questions_wire(pv.questions) + records_wire(pv.answers));
            sofar = sofar + records_wire(pv.answers);
        }

        proof {
            assert forall|k: int| 0 <= k < self.nameservers@.len() implies (#[trigger] self.nameservers@[k])@.encodable() by {
                assert((self.nameservers@[k])@ == pv.nameservers[k]);
            }
        }
        let r2 = Self::write_section(buf_handler, &self.nameservers, Ghost(c0), Ghost(sofar));
        match r2 {
            Err(_) => {
                return Err(DnsError::BufferExhausted);
            },
            Ok(()) => {},
        }
        proof {
            sofar = sofar + records_wire(pv.nameservers);
        }

        proof {
            assert forall|k: int| 0 <= k < self.additionals@.len() implies (#[trigger] self.additionals@[k])@.encodable() by {
                assert((self.additionals@[k])@ == pv.additionals[k]);
            }
        }
        let r3 = Self::write_section(buf_handler, &self.additionals, Ghost(c0), Ghost(sofar));
        match r3 {
            Err(_) => {
                return Err(DnsError::BufferExhausted);
            },
            Ok(()) => {},
        }
        proof {
            sofar = sofar + records_wire(pv.additionals);
            assert(sofar =~= packet_wire(pv));
        }
        Ok(())
    }
}

/// Decoding one more question after a decoded prefix appends it.
#[verifier::rlimit(100)]
proof fn lemma_questions_snoc(
    b: Seq<u8>,
    o: int,
    i: int,
    qs: Seq<QuestionView>,
    p: int,
    q: QuestionView,
    p2: int,
)
    requires
        i >= 0,
        questions_at(b, o, i) == Ok::<(Seq<QuestionView>, int), DnsError>((qs, p)),
        question_at(b, p) == Ok::<(QuestionView, int), DnsError>((q, p2)),
    ensures
        questions_at(b, o, i + 1) == Ok::<(Seq<QuestionView>, int), DnsError>((qs.push(q), p2)),
    decreases i,
{
    if i == 0 {
        assert(p == o);
        assert(qs =~= Seq::<QuestionView>::empty());
        assert(questions_at(b, p2, 0) == Ok::<(Seq<QuestionView>, int), DnsError>((
            Seq::<QuestionView>::empty(),
            p2,
        )));
        assert(seq![q] + Seq::<QuestionView>::empty() =~= qs.push(q));
    } else {
        match question_at(b, o) {
            Ok((q0, pp)) => {
                match questions_at(b, pp, i - 1) {
                    Ok((qs1, pr)) => {
                        assert(pr == p && qs == seq![q0] + qs1);
                        lemma_questions_snoc(b, pp, i - 1, qs1, p, q, p2);
                        assert(seq![q0] + qs1.push(q) =~= qs.push(q));
                    },
                    Err(_) => {
                        assert(false);
                    },
                }
            },
            Err(_) => {
                assert(false);
            },
        }
    }
}

/// A failing question after a decoded prefix fails the whole run.
#[verifier::rlimit(100)]
proof fn lemma_questions_err(
    b: Seq<u8>,
    o: int,
    i: int,
    n: int,
    qs: Seq<QuestionView>,
    p: int,
    e: DnsError,
)
    requires
        0 <= i < n,
        questions_at(b, o, i) == Ok::<(Seq<QuestionView>, int), DnsError>((qs, p)),
        question_at(b, p) == Err::<(QuestionView, int), DnsError>(e),
    ensures
        questions_at(b, o, n) == Err::<(Seq<QuestionView>, int), DnsError>(e),
    decreases i,
{
    if i == 0 {
        assert(p == o);
    } else {
        match question_at(b, o) {
            Ok((q0, pp)) => {
                match questions_at(b, pp, i - 1) {
                    Ok((qs1, pr)) => {
                        lemma_questions_err(b, pp, i - 1, n - 1, qs1, p, e);
                    },
                    Err(_) => {
                        assert(false);
                    },
                }
            },
            Err(_) => {
                assert(false);
            },
        }
    }
}

/// Decoding one more record after a decoded prefix appends it.
#[verifier::rlimit(100)]
proof fn lemma_records_snoc(
    b: Seq<u8>,
    o: int,
    i: int,
    rs: Seq<RecordView>,
    p: int,
    rec: RecordView,
    p2: int,
)
    requires
        i >= 0,
        records_at(b, o, i) == Ok::<(Seq<RecordView>, int), DnsError>((rs, p)),
        record_at(b, p) == Ok::<(RecordView, int), DnsError>((rec, p2)),
    ensures
        records_at(b, o, i + 1) == Ok::<(Seq<RecordView>, int), DnsError>((rs.push(rec), p2)),
    decreases i,
{
    if i == 0 {
        assert(p == o);
        assert(rs =~= Seq::<RecordView>::empty());
        assert(records_at(b, p2, 0) == Ok::<(Seq<RecordView>, int), DnsError>((
            Seq::<RecordView>::empty(),
            p2,
        )));
        assert(seq![rec] + Seq::<RecordView>::empty() =~= rs.push(rec));
    } else {
        match record_at(b, o) {
            Ok((r0, pp)) => {
                match records_at(b, pp, i - 1) {
                    Ok((rs1, pr)) => {
                        assert(pr == p && rs == seq![r0] + rs1);
                        lemma_records_snoc(b, pp, i - 1, rs1, p, rec, p2);
                        assert(seq![r0] + rs1.push(rec) =~= rs.push(rec));
                    },
                    Err(_) => {
                        assert(false);
                    },
                }
            },
            Err(_) => {
                assert(false);
            },
        }
    }
}

/// A failing record after a decoded prefix fails the whole run.
#[verifier::rlimit(100)]
proof fn lemma_records_err(
    b: Seq<u8>,
    o: int,
    i: int,
    n: int,
    rs: Seq<RecordView>,
    p: int,
    e: DnsError,
)
    requires
        0 <= i < n,
        records_at(b, o, i) == Ok::<(Seq<RecordView>, int), DnsError>((rs, p)),
        record_at(b, p) == Err::<(RecordView, int), DnsError>(e),
    ensures
        records_at(b, o, n) == Err::<(Seq<RecordView>, int), DnsError>(e),
    decreases i,
{
    if i == 0 {
        assert(p == o);
    } else {
        match record_at(b, o) {
            Ok((r0, pp)) => {
                match records_at(b, pp, i - 1) {
                    Ok((rs1, pr)) => {
                        lemma_records_err(b, pp, i - 1, n - 1, rs1, p, e);
                    },
                    Err(_) => {
                        assert(false);
                    },
                }
            },
            Err(_) => {
                assert(false);
            },
        }
    }
}


/// One more question's wire bytes extend the wire form of a prefix.
proof fn lemma_questions_wire_snoc(qs: Seq<QuestionView>, i: int)
    requires
        0 <= i < qs.len(),
    ensures
        questions_wire(qs.take(i + 1)) == questions_wire(qs.take(i)) + question_wire(qs[i]),
    decreases i,
{
    if i == 0 {
        assert(qs.take(1) =~= seq![qs[0]]);
        assert(qs.take(0) =~= Seq::<QuestionView>::empty());
        assert(seq![qs[0]].drop_first() =~= Seq::<QuestionView>::empty());
        assert(questions_wire(Seq::<QuestionView>::empty()) == Seq::<u8>::empty());
        assert(question_wire(qs[0]) + Seq::<u8>::empty() =~= question_wire(qs[0]));
    } else {
        let t = qs.drop_first();
        lemma_questions_wire_snoc(t, i - 1);
        assert(qs.take(i + 1).drop_first() =~= t.take(i));
        assert(qs.take(i).drop_first() =~= t.take(i - 1));
        assert(qs.take(i + 1)[0] == qs[0] && qs.take(i)[0] == qs[0]);
        assert(questions_wire(qs.take(i + 1)) == question_wire(qs[0]) + questions_wire(t.take(i)));
        assert(questions_wire(qs.take(i)) == question_wire(qs[0]) + questions_wire(t.take(i - 1)));
        assert((question_wire(qs[0]) + questions_wire(t.take(i - 1))) + question_wire(qs[i])
            =~= question_wire(qs[0]) + (questions_wire(t.take(i - 1)) + question_wire(t[i - 1])));
    }
}

/// One more record's wire bytes extend the wire form of a prefix.
proof fn lemma_records_wire_snoc(rs: Seq<RecordView>, i: int)
    requires
        0 <= i < rs.len(),
    ensures
        records_wire(rs.take(i + 1)) == records_wire(rs.take(i)) + record_wire(rs[i]),
    decreases i,
{
    if i == 0 {
        assert(rs.take(1) =~= seq![rs[0]]);
        assert(rs.take(0) =~= Seq::<RecordView>::empty());
        assert(seq![rs[0]].drop_first() =~= Seq::<RecordView>::empty());
        assert(records_wire(Seq::<RecordView>::empty()) == Seq::<u8>::empty());
        assert(record_wire(rs[0]) + Seq::<u8>::empty() =~= record_wire(rs[0]));
    } else {
        let t = rs.drop_first();
        lemma_records_wire_snoc(t, i - 1);
        assert(rs.take(i + 1).drop_first() =~= t.take(i));
        assert(rs.take(i).drop_first() =~= t.take(i - 1));
        assert(rs.take(i + 1)[0] == rs[0] && rs.take(i)[0] == rs[0]);
        assert(records_wire(rs.take(i + 1)) == record_wire(rs[0]) + records_wire(t.take(i)));
        assert(records_wire(rs.take(i)) == record_wire(rs[0]) + records_wire(t.take(i - 1)));
        assert((record_wire(rs[0]) + records_wire(t.take(i - 1))) + record_wire(rs[i])
            =~= record_wire(rs[0]) + (records_wire(t.take(i - 1)) + record_wire(t[i - 1])));
    }
}

/// A wire prefix is never longer than the whole section's wire form.
proof fn lemma_questions_wire_take_len(qs: Seq<QuestionView>, j: int)
    requires
        0 <= j <= qs.len(),
    ensures
        questions_wire(qs.take(j)).len() <= questions_wire(qs).len(),
    decreases qs.len() - j,
{
    if j == qs.len() {
        assert(qs.take(j) =~= qs);
    } else {
        lemma_questions_wire_snoc(qs, j);
        lemma_questions_wire_take_len(qs, j + 1);
    }
}

/// A wire prefix is never longer than the whole section's wire form.
proof fn lemma_records_wire_take_len(rs: Seq<RecordView>, j: int)
    requires
        0 <= j <= rs.len(),
    ensures
        records_wire(rs.take(j)).len() <= records_wire(rs).len(),
    decreases rs.len() - j,
{
    if j == rs.len() {
        assert(rs.take(j) =~= rs);
    } else {
        lemma_records_wire_snoc(rs, j);
        lemma_records_wire_take_len(rs, j + 1);
    }
}


/// Well-formed for a faithful round trip: the reserved field in range,
/// the counts derived from the sections, every name fit for the wire, and
/// no opaque record (an opaque record's data was skipped on decode, so it
/// cannot be written back).
pub open spec fn wf_packet(pv: PacketView) -> bool {
    &&& pv.header.z < 8
    &&& pv.header.questions == pv.questions.len()
    &&& pv.header.answers == pv.answers.len()
    &&& pv.header.nameservers == pv.nameservers.len()
    &&& pv.header.additionals == pv.additionals.len()
    &&& forall|i: int|
        0 <= i < pv.questions.len() ==> crate::question::wf_name(#[trigger] pv.questions[i].name)
    &&& forall|i: int| 0 <= i < pv.answers.len() ==> (#[trigger] pv.answers[i]).wf()
    &&& forall|i: int| 0 <= i < pv.nameservers.len() ==> (#[trigger] pv.nameservers[i]).wf()
    &&& forall|i: int| 0 <= i < pv.additionals.len() ==> (#[trigger] pv.additionals[i]).wf()
}

/// A message whose counts are already derived is left unchanged by
/// deriving them again: encoding such a message writes exactly
/// `packet_wire` of it, so the round trip through `write` and
/// `from_buffer` restores it.
pub proof fn lemma_with_counts_identity(pv: PacketView)
    requires
        pv.header.questions == pv.questions.len(),
        pv.header.answers == pv.answers.len(),
        pv.header.nameservers == pv.nameservers.len(),
        pv.header.additionals == pv.additionals.len(),
    ensures
        with_counts(pv) == pv,
{
    assert(with_counts(pv).header == pv.header);
}

/// Round trip for a question section: wherever its wire form stands,
/// decoding its count of questions restores the sequence.
proof fn lemma_questions_round_trip(b: Seq<u8>, off: int, qs: Seq<QuestionView>)
    requires
        b.len() == BUF_CAP,
        forall|i: int| 0 <= i < qs.len() ==> crate::question::wf_name(#[trigger] qs[i].name),
        0 <= off,
        off + questions_wire(qs).len() <= BUF_CAP,
        b.subrange(off, off + questions_wire(qs).len()) == questions_wire(qs),
    ensures
        questions_at(b, off, qs.len() as int) == Ok::<(Seq<QuestionView>, int), DnsError>(
            (qs, off + questions_wire(qs).len()),
        ),
    decreases qs.len(),
{
    if qs.len() == 0 {
        assert(qs =~= Seq::<QuestionView>::empty());
    } else {
        let q0 = qs[0];
        let t = qs.drop_first();
        crate::buffer::lemma_name_wire_len(q0.name);
        let w0 = question_wire(q0);
        assert(w0.len() == crate::question::question_wire_len(q0));
        crate::buffer::lemma_unsplice2(b, off, w0, questions_wire(t));
        crate::question::lemma_question_round_trip(b, off, q0);
        assert forall|i: int| 0 <= i < t.len() implies crate::question::wf_name(
            #[trigger] t[i].name,
        ) by {
            assert(t[i] == qs[i + 1]);
        }
        lemma_questions_round_trip(b, off + w0.len(), t);
        assert(seq![q0] + t =~= qs);
    }
}

/// Round trip for a record section: wherever its wire form stands,
/// decoding its count of records restores the sequence.
proof fn lemma_records_round_trip(b: Seq<u8>, off: int, rs: Seq<RecordView>)
    requires
        b.len() == BUF_CAP,
        forall|i: int| 0 <= i < rs.len() ==> (#[trigger] rs[i]).wf(),
        0 <= off,
        off + records_wire(rs).len() <= BUF_CAP,
        b.subrange(off, off + records_wire(rs).len()) == records_wire(rs),
    ensures
        records_at(b, off, rs.len() as int) == Ok::<(Seq<RecordView>, int), DnsError>(
            (rs, off + records_wire(rs).len()),
        ),
    decreases rs.len(),
{
    if rs.len() == 0 {
        assert(rs =~= Seq::<RecordView>::empty());
    } else {
        let r0 = rs[0];
        let t = rs.drop_first();
        assert(crate::record::addr_sized(r0));
        crate::record::lemma_record_wire_len(r0);
        let w0 = record_wire(r0);
        crate::buffer::lemma_unsplice2(b, off, w0, records_wire(t));
        crate::record::lemma_record_round_trip(b, off, r0);
        assert forall|i: int| 0 <= i < t.len() implies (#[trigger] t[i]).wf() by {
            assert(t[i] == rs[i + 1]);
        }
        lemma_records_round_trip(b, off + w0.len(), t);
        assert(seq![r0] + t =~= rs);
    }
}

/// Round trip at the message level: wherever the wire form of a
/// well-formed message stands within the buffer, decoding at its start
/// restores the identical message, whatever its mix of record types.
pub proof fn lemma_packet_round_trip(b: Seq<u8>, off: int, pv: PacketView)
    requires
        b.len() == BUF_CAP,
        wf_packet(pv),
        0 <= off,
        off + packet_wire(pv).len() <= BUF_CAP,
        b.subrange(off, off + packet_wire(pv).len()) == packet_wire(pv),
    ensures
        packet_at(b, off) == Ok::<(PacketView, int), DnsError>((pv, off + packet_wire(pv).len())),
{
    let hw = header_wire(pv.header);
    let qw = questions_wire(pv.questions);
    let aw = records_wire(pv.answers);
    let nw = records_wire(pv.nameservers);
    let dw = records_wire(pv.additionals);
    assert(hw.len() == 12);
    assert(packet_wire(pv) =~= hw + qw + aw + (nw + dw));
    crate::buffer::lemma_unsplice4(b, off, hw, qw, aw, nw + dw);
    crate::buffer::lemma_unsplice2(b, off + hw.len() + qw.len() + aw.len(), nw, dw);
    crate::header::lemma_header_round_trip(pv.header, b, off);
    let p1 = off + 12 + qw.len();
    let p2 = p1 + aw.len();
    let p3 = p2 + nw.len();
    lemma_questions_round_trip(b, off + 12, pv.questions);
    lemma_records_round_trip(b, p1, pv.answers);
    lemma_records_round_trip(b, p2, pv.nameservers);
    lemma_records_round_trip(b, p3, pv.additionals);
    assert(header_from(b, off) == pv.header);
    assert(questions_at(b, off + 12, pv.header.questions as int)
        == Ok::<(Seq<QuestionView>, int), DnsError>((pv.questions, p1)));
    assert(records_at(b, p1, pv.header.answers as int) == Ok::<(Seq<RecordView>, int), DnsError>(
        (pv.answers, p2),
    ));
    assert(records_at(b, p2, pv.header.nameservers as int) == Ok::<
        (Seq<RecordView>, int),
        DnsError,
    >((pv.nameservers, p3)));
    assert(records_at(b, p3, pv.header.additionals as int) == Ok::<
        (Seq<RecordView>, int),
        DnsError,
    >((pv.additionals, off + packet_wire(pv).len())));
    match packet_at(b, off) {
        Ok(pair) => {
            assert(pair.0.header == pv.header && pair.0.questions == pv.questions && pair.0.answers
                == pv.answers && pair.0.nameservers == pv.nameservers && pair.0.additionals
                == pv.additionals);
        },
        Err(_) => {
            assert(false);
        },
    }
}

} // verus!

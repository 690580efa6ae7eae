//! The iterative resolver: from a query and a root-hint address it walks
//! referral responses, picking the next nameserver from glue records,
//! until a response carries answers, a referral has no usable glue, or the
//! hop bound is exceeded. The caller performs the datagram exchange; this
//! module makes every decision.

use vstd::prelude::*;

use crate::header::DnsHeader;
use crate::packet::{DnsPacket, PacketView};
use crate::question::{DnsQuestion, QuestionView, QueryType};
use crate::record::{DnsRecord, Ipv4Address, RecordView};
use crate::DnsError;

verus! {

/// Whether the authority section names `host` as a nameserver.
pub open spec fn authority_names_host(auth: Seq<RecordView>, host: Seq<u8>) -> bool {
    exists|i: int|
        0 <= i < auth.len() && (#[trigger] auth[i] matches RecordView::NS { host: h, .. } && h
            == host)
}

/// Whether a record is usable glue: an address record whose owner name
/// some nameserver record of the authority section points at.
pub open spec fn is_glue(auth: Seq<RecordView>, r: RecordView) -> bool {
    r matches RecordView::A { domain, .. } && authority_names_host(auth, domain)
}

/// The address bytes of an address record.
pub open spec fn a_addr(r: RecordView) -> Seq<u8> {
    match r {
        RecordView::A { addr, .. } => addr,
        _ => Seq::empty(),
    }
}

/// Index of the first usable glue record of the additional section.
pub open spec fn glue_index(auth: Seq<RecordView>, add: Seq<RecordView>) -> Option<int>
    decreases add.len(),
{
    if add.len() == 0 {
        None
    } else if is_glue(auth, add[0]) {
        Some(0)
    } else {
        match glue_index(auth, add.subrange(1, add.len() as int)) {
            Some(k) => Some(k + 1),
            None => None,
        }
    }
}

/// The first glue record is found exactly where the first match stands.
pub proof fn lemma_glue_index_first(auth: Seq<RecordView>, add: Seq<RecordView>, k: int)
    requires
        0 <= k < add.len(),
        is_glue(auth, add[k]),
        forall|j: int| 0 <= j < k ==> !is_glue(auth, #[trigger] add[j]),
    ensures
        glue_index(auth, add) == Some(k),
    decreases k,
{
    if k == 0 {
    } else {
        let t = add.subrange(1, add.len() as int);
        assert forall|j: int| 0 <= j < k - 1 implies !is_glue(auth, #[trigger] t[j]) by {
            assert(t[j] == add[j + 1]);
        }
        assert(t[k - 1] == add[k]);
        lemma_glue_index_first(auth, t, k - 1);
    }
}

/// With no usable glue anywhere, none is found.
pub proof fn lemma_glue_index_none(auth: Seq<RecordView>, add: Seq<RecordView>)
    requires
        forall|j: int| 0 <= j < add.len() ==> !is_glue(auth, #[trigger] add[j]),
    ensures
        glue_index(auth, add) is None,
    decreases add.len(),
{
    if add.len() > 0 {
        let t = add.subrange(1, add.len() as int);
        assert forall|j: int| 0 <= j < t.len() implies !is_glue(auth, #[trigger] t[j]) by {
            assert(t[j] == add[j + 1]);
        }
        lemma_glue_index_none(auth, t);
    }
}

/// What one resolver step decides on a response.
pub enum StepView {
    Answered,
    Referred(Seq<u8>),
    Failed(DnsError),
}

/// The decision for one response: a non-empty answer section ends the
/// resolution; otherwise the hop bound is enforced, then the first usable
/// glue record names the next server; a referral without glue fails.
pub open spec fn step_view(hops: u16, limit: u16, resp: PacketView) -> StepView {
    if resp.answers.len() > 0 {
        StepView::Answered
    } else if hops >= limit {
        StepView::Failed(DnsError::ResolutionDepthExceeded)
    } else {
        match glue_index(resp.nameservers, resp.additionals) {
            Some(k) => StepView::Referred(a_addr(resp.additionals[k])),
            None => StepView::Failed(DnsError::NoGlueRecord),
        }
    }
}

/// A response that refers the resolver on: no answers, but usable glue.
pub open spec fn is_referral(p: PacketView) -> bool {
    p.answers.len() == 0 && glue_index(p.nameservers, p.additionals) is Some
}

/// The resolver run over a sequence of responses: how many queries it
/// issues (one per response consumed) and how it ends.
pub open spec fn run_steps(hops: u16, limit: u16, resps: Seq<PacketView>) -> (nat, StepView)
    decreases resps.len(),
{
    if resps.len() == 0 {
        (0, StepView::Failed(DnsError::NoGlueRecord))
    } else {
        let sv = step_view(hops, limit, resps[0]);
        match sv {
            StepView::Referred(_) => {
                let rest = run_steps((hops + 1) as u16, limit, resps.subrange(1, resps.len() as int));
                ((rest.0 + 1) as nat, rest.1)
            },
            _ => (1, sv),
        }
    }
}

/// Given a chain of referral responses and then one with a non-empty
/// answer section, within the hop budget, the resolver issues exactly one
/// query per response — referrals plus one — and returns the answer.
pub proof fn lemma_resolver_chain(hops: u16, limit: u16, resps: Seq<PacketView>, n: int)
    requires
        0 <= n,
        resps.len() == n + 1,
        forall|i: int| 0 <= i < n ==> is_referral(#[trigger] resps[i]),
        resps[n].answers.len() > 0,
        hops + n <= limit,
    ensures
        run_steps(hops, limit, resps) == (((n + 1) as nat, StepView::Answered)),
    decreases n,
{
    if n == 0 {
    } else {
        assert(is_referral(resps[0]));
        let t = resps.subrange(1, resps.len() as int);
        assert forall|i: int| 0 <= i < n - 1 implies is_referral(#[trigger] t[i]) by {
            assert(t[i] == resps[i + 1]);
        }
        assert(t[n - 1] == resps[n]);
        lemma_resolver_chain((hops + 1) as u16, limit, t, n - 1);
    }
}

/// A referral chain longer than the remaining hop budget ends in the
/// depth-exceeded failure after the budget's worth of queries, rather
/// than running on forever.
pub proof fn lemma_resolver_depth(hops: u16, limit: u16, resps: Seq<PacketView>)
    requires
        hops <= limit,
        resps.len() > limit - hops,
        forall|i: int| 0 <= i < resps.len() ==> is_referral(#[trigger] resps[i]),
    ensures
        run_steps(hops, limit, resps) == (((limit - hops + 1) as nat, StepView::Failed(
            DnsError::ResolutionDepthExceeded,
        ))),
    decreases limit - hops,
{
    if hops == limit {
        assert(is_referral(resps[0]));
    } else {
        assert(is_referral(resps[0]));
        let t = resps.subrange(1, resps.len() as int);
        assert forall|i: int| 0 <= i < t.len() implies is_referral(#[trigger] t[i]) by {
            assert(t[i] == resps[i + 1]);
        }
        lemma_resolver_depth((hops + 1) as u16, limit, t);
    }
}

/// One resolution in progress: the question, the nameserver to ask next,
/// and the hop bookkeeping.
pub struct Resolver {
    pub qname: Vec<u8>,
    pub qtype: QueryType,
    pub current: Ipv4Address,
    pub hops: u16,
    pub limit: u16,
}

/// The outcome of feeding one response to the resolver.
pub enum StepOutcome {
    Answered(DnsPacket),
    Referred,
    Failed(DnsError),
}

impl Resolver {
    /// A resolver for one question, bootstrapped at a root-hint address,
    /// with a referral hop limit.
    pub fn new(qname: Vec<u8>, qtype: QueryType, root: Ipv4Address, limit: u16) -> (r: Resolver)
        ensures
            r.qname@ == qname@,
            r.qtype == qtype,
            r.current == root,
            r.hops == 0,
            r.limit == limit,
    {
        Resolver { qname, qtype, current: root, hops: 0, limit }
    }

    /// The nameserver address the next query goes to.
    pub fn target(&self) -> (r: Ipv4Address)
        ensures
            r == self.current,
    {
        self.current
    }

    /// Feeds one decoded upstream response to the resolver: it either
    /// finishes with that answer, moves to the nameserver the first usable
    /// glue record names, or fails, exactly as `step_view` decides.
    pub fn step(&mut self, response: DnsPacket) -> (r: StepOutcome)
        ensures
            final(self).qname@ == old(self).qname@,
            final(self).qtype == old(self).qtype,
            final(self).limit == old(self).limit,
            match r {
                StepOutcome::Answered(p) => step_view(old(self).hops, old(self).limit, response@)
                    == StepView::Answered && p@ == response@ && *final(self) == *old(self),
                StepOutcome::Referred => (step_view(old(self).hops, old(self).limit, response@)
                    matches StepView::Referred(a) && final(self).current.octets@ == a)
                    && final(self).hops == old(self).hops + 1
                    && final(self).current.octets@.len() == 4,
                StepOutcome::Failed(e) => step_view(old(self).hops, old(self).limit, response@)
                    == StepView::Failed(e) && *final(self) == *old(self),
            },
    {
        if response.answers.len() > 0 {
            return StepOutcome::Answered(response);
        }
        if self.hops >= self.limit {
            return StepOutcome::Failed(DnsError::ResolutionDepthExceeded);
        }
        let ghost auth = response@.nameservers;
        let ghost add = response@.additionals;
        let mut k: usize = 0;
        while k < response.additionals.len()
            invariant
                *self == *old(self),
                self.hops < self.limit,
                response@.answers.len() == 0,
                auth == response@.nameservers,
                add == response@.additionals,
                k <= response.additionals@.len(),
                forall|j: int| 0 <= j < k ==> !is_glue(auth, #[trigger] add[j]),
            decreases response.additionals@.len() - k,
        {
            let glue = match &response.additionals[k] {
                DnsRecord::A { domain, addr, .. } => {
                    if Self::authority_has_ns(&response.nameservers, domain) {
                        Some(*addr)
                    } else {
                        None
                    }
                },
                _ => None,
            };
            proof {
                assert(add[k as int] == response.additionals@[k as int]@);
            }
            match glue {
                Some(addr) => {
                    proof {
                        lemma_glue_index_first(auth, add, k as int);
                    }
                    self.current = addr;
                    self.hops = self.hops + 1;
                    return StepOutcome::Referred;
                },
                None => {},
            }
            k = k + 1;
        }
        proof {
            lemma_glue_index_none(auth, add);
        }
        StepOutcome::Failed(DnsError::NoGlueRecord)
    }

    /// Whether some nameserver record among `records` names `name` as a
    /// host.
    fn authority_has_ns(records: &Vec<DnsRecord>, name: &Vec<u8>) -> (r: bool)
        ensures
            r == authority_names_host(
                records@.map_values(|rec: DnsRecord| rec@),
                name@,
            ),
    {
        let ghost auth = records@.map_values(|rec: DnsRecord| rec@);
        let mut i: usize = 0;
        while i < records.len()
            invariant
                auth == records@.map_values(|rec: DnsRecord| rec@),
                i <= records@.len(),
                forall|j: int|
                    0 <= j < i ==> !(#[trigger] auth[j] matches RecordView::NS { host: h, .. } && h
                        == name@),
            decreases records@.len() - i,
        {
            let found = match &records[i] {
                DnsRecord::NS { host, .. } => crate::resolver::bytes_eq(host, name),
                _ => false,
            };
            proof {
                assert(auth[i as int] == records@[i as int]@);
            }
            if found {
                return true;
            }
            i = i + 1;
        }
        false
    }
}

/// Byte-for-byte equality of two byte vectors.
pub fn bytes_eq(a: &Vec<u8>, b: &Vec<u8>) -> (r: bool)
    ensures
        r == (a@ == b@),
{
    if a.len() != b.len() {
        proof {
            assert(a@ != b@);
        }
        return false;
    }
    let mut i: usize = 0;
    while i < a.len()
        invariant
            a@.len() == b@.len(),
            i <= a@.len(),
            forall|j: int| 0 <= j < i ==> a@[j] == b@[j],
        decreases a@.len() - i,
    {
        if a[i] != b[i] {
            return false;
        }
        i = i + 1;
    }
    proof {
        assert(a@ =~= b@);
    }
    true
}

/// A single-question query message: the given transaction id, the
/// recursion-desired flag set, and no other content.
pub fn build_query(id: u16, qname: Vec<u8>, qtype: QueryType) -> (r: DnsPacket)
    ensures
        r@.header == (DnsHeader { id, recursion_desired: true, ..DnsHeader::new_spec() }),
        r@.questions =~= seq![QuestionView { name: qname@, qtype }],
        r@.answers =~= Seq::<RecordView>::empty(),
        r@.nameservers =~= Seq::<RecordView>::empty(),
        r@.additionals =~= Seq::<RecordView>::empty(),
{
    let mut packet = DnsPacket::new();
    packet.header.id = id;
    packet.header.recursion_desired = true;
    packet.questions.push(DnsQuestion { name: qname, qtype });
    proof {
        assert(packet@.questions =~= seq![QuestionView { name: packet.questions@[0].name@, qtype }]);
    }
    packet
}

/// The response to hand back to the client: the request's transaction id,
/// the recursion and authority flags set, and either the resolved answers
/// or a server-failure code when resolution failed.
pub fn build_response(id: u16, outcome: Result<Vec<DnsRecord>, DnsError>) -> (r: DnsPacket)
    ensures
        r@.header.id == id,
        r@.header.recursion_desired,
        r@.header.recursion_available,
        r@.header.authoritative_answer,
        !r@.header.query,
        r@.header.z == 0,
        r@.questions =~= Seq::<QuestionView>::empty(),
        r@.nameservers =~= Seq::<RecordView>::empty(),
        r@.additionals =~= Seq::<RecordView>::empty(),
        match outcome {
            Ok(answers) => r@.answers == answers@.map_values(|rec: DnsRecord| rec@)
                && r@.header.response_code == crate::header::ResponseCode::NOERR,
            Err(_) => r@.answers =~= Seq::<RecordView>::empty() && r@.header.response_code
                == crate::header::ResponseCode::SERVFAIL,
        },
{
    let mut packet = DnsPacket::new();
    packet.header.id = id;
    packet.header.recursion_desired = true;
    packet.header.recursion_available = true;
    packet.header.authoritative_answer = true;
    match outcome {
        Ok(answers) => {
            packet.answers = answers;
        },
        Err(_) => {
            packet.header.response_code = crate::header::ResponseCode::SERVFAIL;
        },
    }
    packet
}

} // verus!

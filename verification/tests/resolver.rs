use dns_resolver::header::ResponseCode;
use dns_resolver::packet::DnsPacket;
use dns_resolver::question::QueryType;
use dns_resolver::record::{DnsRecord, Ipv4Address};
use dns_resolver::resolver::{build_query, build_response, Resolver, StepOutcome};
use dns_resolver::buffer::BufHandler;
use dns_resolver::DnsError;

fn name(s: &str) -> Vec<u8> {
    s.as_bytes().to_vec()
}

fn referral(ns_host: &str, glue_addr: [u8; 4]) -> DnsPacket {
    let mut p = DnsPacket::new();
    p.nameservers.push(DnsRecord::NS {
        domain: name("com"),
        ttl: 60,
        host: name(ns_host),
    });
    p.additionals.push(DnsRecord::A {
        domain: name(ns_host),
        addr: Ipv4Address { octets: glue_addr },
        ttl: 60,
    });
    p
}

fn answer_packet(domain: &str, addr: [u8; 4]) -> DnsPacket {
    let mut p = DnsPacket::new();
    p.answers.push(DnsRecord::A {
        domain: name(domain),
        addr: Ipv4Address { octets: addr },
        ttl: 60,
    });
    p
}

#[test]
fn chain_of_referrals_then_answer() {
    // Two referrals, then an answer: exactly three queries issued.
    let root = Ipv4Address {
        octets: [198, 41, 0, 4],
    };
    let mut r = Resolver::new(name("example.com"), QueryType::A, root, 20);
    assert_eq!(r.target(), root);
    let mut queries = 0;

    queries += 1;
    match r.step(referral("a.tld", [1, 1, 1, 1])) {
        StepOutcome::Referred => {}
        _ => panic!("expected a referral"),
    }
    assert_eq!(r.target().octets, [1, 1, 1, 1]);

    queries += 1;
    match r.step(referral("ns.example.com", [2, 2, 2, 2])) {
        StepOutcome::Referred => {}
        _ => panic!("expected a referral"),
    }
    assert_eq!(r.target().octets, [2, 2, 2, 2]);

    queries += 1;
    match r.step(answer_packet("example.com", [9, 9, 9, 9])) {
        StepOutcome::Answered(p) => {
            assert_eq!(p.answers.len(), 1);
        }
        _ => panic!("expected the answer"),
    }
    assert_eq!(queries, 3);
}

#[test]
fn referral_without_matching_glue_fails() {
    let root = Ipv4Address {
        octets: [198, 41, 0, 4],
    };
    let mut r = Resolver::new(name("example.com"), QueryType::A, root, 20);
    // The additional A record's owner matches no authority nameserver.
    let mut p = DnsPacket::new();
    p.nameservers.push(DnsRecord::NS {
        domain: name("com"),
        ttl: 60,
        host: name("ns.real"),
    });
    p.additionals.push(DnsRecord::A {
        domain: name("ns.other"),
        addr: Ipv4Address {
            octets: [3, 3, 3, 3],
        },
        ttl: 60,
    });
    match r.step(p) {
        StepOutcome::Failed(e) => assert_eq!(e, DnsError::NoGlueRecord),
        _ => panic!("expected the missing-glue failure"),
    }
}

#[test]
fn referral_chain_over_limit_fails_with_depth_error() {
    let root = Ipv4Address {
        octets: [198, 41, 0, 4],
    };
    let mut r = Resolver::new(name("example.com"), QueryType::A, root, 3);
    for _ in 0..3 {
        match r.step(referral("ns.loop", [4, 4, 4, 4])) {
            StepOutcome::Referred => {}
            _ => panic!("expected a referral"),
        }
    }
    match r.step(referral("ns.loop", [4, 4, 4, 4])) {
        StepOutcome::Failed(e) => assert_eq!(e, DnsError::ResolutionDepthExceeded),
        _ => panic!("expected the depth failure"),
    }
}

#[test]
fn build_query_shape() {
    let q = build_query(0x1234, name("example.com"), QueryType::MX);
    assert_eq!(q.header.id, 0x1234);
    assert!(q.header.recursion_desired);
    assert_eq!(q.questions.len(), 1);
    assert_eq!(q.questions[0].name, name("example.com"));
    assert_eq!(q.questions[0].qtype, QueryType::MX);
    assert!(q.answers.is_empty());
}

#[test]
fn build_response_success_and_failure() {
    let ans = vec![DnsRecord::A {
        domain: name("example.com"),
        addr: Ipv4Address {
            octets: [9, 9, 9, 9],
        },
        ttl: 60,
    }];
    let ok = build_response(7, Ok(ans));
    assert_eq!(ok.header.id, 7);
    assert!(ok.header.recursion_available);
    assert!(ok.header.authoritative_answer);
    assert_eq!(ok.header.response_code, ResponseCode::NOERR);
    assert_eq!(ok.answers.len(), 1);

    let failed = build_response(8, Err(DnsError::ResolutionDepthExceeded));
    assert_eq!(failed.header.id, 8);
    assert_eq!(failed.header.response_code, ResponseCode::SERVFAIL);
    assert!(failed.answers.is_empty());
}

#[test]
fn end_to_end_client_exchange() {
    // The client's request datagram: transaction id 0x1A2B, one question
    // for example.com, type A.
    let request = build_query(0x1A2B, name("example.com"), QueryType::A);
    let mut wire = BufHandler::new();
    let mut request = request;
    request.write(&mut wire).unwrap();

    // The server decodes the request.
    wire.seek(0);
    let decoded_request = DnsPacket::from_buffer(&mut wire).unwrap();
    let question = &decoded_request.questions[0];
    assert_eq!(question.name, name("example.com"));

    // Resolution: one referral from the root, then the answer.
    let root = Ipv4Address {
        octets: [202, 12, 27, 33],
    };
    let mut resolver = Resolver::new(
        question.name.clone(),
        question.qtype,
        root,
        20,
    );
    let outcome = match resolver.step(referral("a.gtld", [192, 5, 6, 30])) {
        StepOutcome::Referred => match resolver.step(answer_packet("example.com", [93, 184, 216, 34])) {
            StepOutcome::Answered(p) => Ok(p.answers),
            StepOutcome::Failed(e) => Err(e),
            StepOutcome::Referred => panic!("expected the answer"),
        },
        _ => panic!("expected a referral"),
    };

    // The response goes back with the client's transaction id.
    let mut response = build_response(decoded_request.header.id, outcome);
    let mut out = BufHandler::new();
    response.write(&mut out).unwrap();
    out.seek(0);
    let client_view = DnsPacket::from_buffer(&mut out).unwrap();
    assert_eq!(client_view.header.id, 0x1A2B);
    assert!(client_view.header.recursion_available);
    assert!(client_view.header.authoritative_answer);
    assert!(client_view.answers.len() >= 1);
    match &client_view.answers[0] {
        DnsRecord::A { domain, .. } => assert_eq!(domain, &name("example.com")),
        _ => panic!("expected an address record"),
    }
}

use dns_resolver::buffer::BufHandler;
use dns_resolver::header::{DnsHeader, OpCode, ResponseCode};
use dns_resolver::packet::DnsPacket;
use dns_resolver::question::{DnsQuestion, QueryType};
use dns_resolver::record::{DnsRecord, Ipv4Address, Ipv6Address};
use dns_resolver::DnsError;

fn name(s: &str) -> Vec<u8> {
    s.as_bytes().to_vec()
}

#[test]
fn cursor_primitives_round_trip() {
    let mut buf = BufHandler::new();
    buf.write(0xab).unwrap();
    buf.write_u16(0x1a2b).unwrap();
    buf.write_u32(0xdeadbeef).unwrap();
    buf.seek(0);
    assert_eq!(buf.read().unwrap(), 0xab);
    assert_eq!(buf.read_u16().unwrap(), 0x1a2b);
    assert_eq!(buf.read_u32().unwrap(), 0xdeadbeef);
    assert_eq!(buf.get_pos(), 7);
}

#[test]
fn cursor_rejects_reads_past_capacity() {
    let mut buf = BufHandler::new();
    buf.seek(512);
    assert_eq!(buf.read(), Err(DnsError::BufferExhausted));
    buf.seek(511);
    assert_eq!(buf.read_u16(), Err(DnsError::BufferExhausted));
    buf.seek(509);
    assert_eq!(buf.read_u32(), Err(DnsError::BufferExhausted));
}

#[test]
fn cursor_rejects_writes_past_capacity() {
    let mut buf = BufHandler::new();
    buf.seek(512);
    assert_eq!(buf.write(1), Err(DnsError::BufferExhausted));
    buf.seek(511);
    assert_eq!(buf.write_u16(1), Err(DnsError::BufferExhausted));
    buf.seek(510);
    assert_eq!(buf.write_u32(1), Err(DnsError::BufferExhausted));
}

#[test]
fn qname_round_trip() {
    let mut buf = BufHandler::new();
    buf.write_qname(&name("example.com")).unwrap();
    assert_eq!(buf.get_pos(), 13);
    buf.seek(0);
    let mut out = Vec::new();
    buf.read_qname(&mut out).unwrap();
    assert_eq!(out, name("example.com"));
    assert_eq!(buf.get_pos(), 13);
}

#[test]
fn qname_root_round_trip() {
    let mut buf = BufHandler::new();
    buf.write_qname(&Vec::new()).unwrap();
    assert_eq!(buf.get_pos(), 1);
    buf.seek(0);
    let mut out = Vec::new();
    buf.read_qname(&mut out).unwrap();
    assert_eq!(out, Vec::<u8>::new());
    assert_eq!(buf.get_pos(), 1);
}

#[test]
fn qname_decode_lowercases() {
    // 3 "WWW" 4 "Test" 0
    let raw = vec![3, b'W', b'W', b'W', 4, b'T', b'e', b'S', b't', 0];
    let mut buf = BufHandler::from_bytes(&raw);
    let mut out = Vec::new();
    buf.read_qname(&mut out).unwrap();
    assert_eq!(out, name("www.test"));
}

#[test]
fn qname_rejects_long_label() {
    let mut buf = BufHandler::new();
    let long = vec![b'a'; 64];
    assert_eq!(buf.write_qname(&long), Err(DnsError::InvalidName));
    assert_eq!(buf.get_pos(), 0);
}

#[test]
fn qname_rejects_empty_label() {
    let mut buf = BufHandler::new();
    assert_eq!(buf.write_qname(&name("a..b")), Err(DnsError::InvalidName));
    assert_eq!(buf.write_qname(&name(".a")), Err(DnsError::InvalidName));
    assert_eq!(buf.write_qname(&name("a.")), Err(DnsError::InvalidName));
}

#[test]
fn qname_rejects_name_that_does_not_fit() {
    let mut buf = BufHandler::new();
    buf.seek(505);
    assert_eq!(
        buf.write_qname(&name("example.com")),
        Err(DnsError::BufferExhausted)
    );
}

#[test]
fn pointer_decodes_same_name_as_direct() {
    // Name "host.example" written at offset 0; a pointer to offset 0 at 50.
    let mut buf = BufHandler::new();
    buf.write_qname(&name("host.example")).unwrap();
    buf.seek(50);
    buf.write(0xC0).unwrap();
    buf.write(0).unwrap();

    let mut direct = Vec::new();
    buf.seek(0);
    buf.read_qname(&mut direct).unwrap();

    let mut via_pointer = Vec::new();
    buf.seek(50);
    buf.read_qname(&mut via_pointer).unwrap();
    assert_eq!(direct, via_pointer);
    assert_eq!(via_pointer, name("host.example"));
    // The cursor resumes just past the two pointer bytes.
    assert_eq!(buf.get_pos(), 52);
}

#[test]
fn pointer_after_label_keeps_resume_position() {
    // At 100: 3 "www" pointer-to-0, where 0 holds "example.com".
    let mut buf = BufHandler::new();
    buf.write_qname(&name("example.com")).unwrap();
    buf.seek(100);
    buf.write(3).unwrap();
    buf.write(b'w').unwrap();
    buf.write(b'w').unwrap();
    buf.write(b'w').unwrap();
    buf.write(0xC0).unwrap();
    buf.write(0).unwrap();
    buf.seek(100);
    let mut out = Vec::new();
    buf.read_qname(&mut out).unwrap();
    assert_eq!(out, name("www.example.com"));
    assert_eq!(buf.get_pos(), 106);
}

#[test]
fn cyclic_pointer_chain_errors() {
    // A pointer at offset 0 that points at itself.
    let raw = vec![0xC0, 0x00];
    let mut buf = BufHandler::from_bytes(&raw);
    let mut out = Vec::new();
    assert_eq!(buf.read_qname(&mut out), Err(DnsError::PointerLoop));
}

#[test]
fn two_step_pointer_cycle_errors() {
    // 0 -> 2 -> 0.
    let raw = vec![0xC0, 0x02, 0xC0, 0x00];
    let mut buf = BufHandler::from_bytes(&raw);
    let mut out = Vec::new();
    assert_eq!(buf.read_qname(&mut out), Err(DnsError::PointerLoop));
}

fn header_with_flags(
    query: bool,
    opcode: OpCode,
    aa: bool,
    tc: bool,
    rd: bool,
    ra: bool,
    rcode: ResponseCode,
) -> DnsHeader {
    let mut h = DnsHeader::new();
    h.id = 0x1a2b;
    h.query = query;
    h.opcode = opcode;
    h.authoritative_answer = aa;
    h.truncation = tc;
    h.recursion_desired = rd;
    h.recursion_available = ra;
    h.response_code = rcode;
    h.questions = 1;
    h.answers = 2;
    h.nameservers = 3;
    h.additionals = 4;
    h
}

#[test]
fn header_flag_combinations_round_trip() {
    let opcodes = [OpCode::QUERY, OpCode::IQUERY, OpCode::STATUS];
    let rcodes = [
        ResponseCode::NOERR,
        ResponseCode::FORMERR,
        ResponseCode::SERVFAIL,
        ResponseCode::NAMERR,
        ResponseCode::NOTIMP,
        ResponseCode::REFUSED,
    ];
    for &op in opcodes.iter() {
        for &rc in rcodes.iter() {
            for bits in 0..32u32 {
                let h = header_with_flags(
                    bits & 1 != 0,
                    op,
                    bits & 2 != 0,
                    bits & 4 != 0,
                    bits & 8 != 0,
                    bits & 16 != 0,
                    rc,
                );
                let mut buf = BufHandler::new();
                h.write(&mut buf).unwrap();
                assert_eq!(buf.get_pos(), 12);
                buf.seek(0);
                let mut back = DnsHeader::new();
                back.read(&mut buf).unwrap();
                assert_eq!(back, h);
            }
        }
    }
}

#[test]
fn header_exact_bytes() {
    // query=1 opcode=STATUS rd=1 -> byte 2 = 1001_0001; ra=1 rcode=SERVFAIL -> byte 3 = 1000_0010.
    let h = header_with_flags(
        true,
        OpCode::STATUS,
        false,
        false,
        true,
        true,
        ResponseCode::SERVFAIL,
    );
    let mut buf = BufHandler::new();
    h.write(&mut buf).unwrap();
    let bytes = buf.prefix(12);
    assert_eq!(
        bytes,
        vec![0x1a, 0x2b, 0x91, 0x82, 0, 1, 0, 2, 0, 3, 0, 4]
    );
}

#[test]
fn query_type_wire_values() {
    assert_eq!(QueryType::A.to_num(), 1);
    assert_eq!(QueryType::NS.to_num(), 2);
    assert_eq!(QueryType::CNAME.to_num(), 5);
    assert_eq!(QueryType::MX.to_num(), 15);
    assert_eq!(QueryType::AAAA.to_num(), 28);
    assert_eq!(QueryType::from_num(1), QueryType::A);
    assert_eq!(QueryType::from_num(2), QueryType::NS);
    assert_eq!(QueryType::from_num(5), QueryType::CNAME);
    assert_eq!(QueryType::from_num(15), QueryType::MX);
    assert_eq!(QueryType::from_num(28), QueryType::AAAA);
    assert_eq!(QueryType::from_num(99), QueryType::UNKNOWN);
    assert_eq!(OpCode::from_num(7), OpCode::QUERY);
    assert_eq!(ResponseCode::from_num(9), ResponseCode::NOERR);
}

fn sample_packet() -> DnsPacket {
    let mut p = DnsPacket::new();
    p.header.id = 0x1a2b;
    p.header.query = true;
    p.header.recursion_desired = true;
    p.questions.push(DnsQuestion {
        name: name("example.com"),
        qtype: QueryType::A,
    });
    p.answers.push(DnsRecord::A {
        domain: name("example.com"),
        addr: Ipv4Address {
            octets: [93, 184, 216, 34],
        },
        ttl: 3600,
    });
    p.answers.push(DnsRecord::AAAA {
        domain: name("example.com"),
        ttl: 60,
        addr: Ipv6Address {
            segments: [0x2606, 0x2800, 0x220, 1, 0x248, 0x1893, 0x25c8, 0x1946],
        },
    });
    p.nameservers.push(DnsRecord::NS {
        domain: name("example.com"),
        ttl: 86400,
        host: name("ns1.example.com"),
    });
    p.additionals.push(DnsRecord::MX {
        domain: name("example.com"),
        ttl: 300,
        priority: 10,
        host: name("mail.example.com"),
    });
    p.additionals.push(DnsRecord::CNAME {
        domain: name("alias.example.com"),
        ttl: 120,
        host: name("example.com"),
    });
    p
}

#[test]
fn packet_round_trip_mixed_records() {
    let mut p = sample_packet();
    let mut buf = BufHandler::new();
    p.write(&mut buf).unwrap();
    buf.seek(0);
    let back = DnsPacket::from_buffer(&mut buf).unwrap();
    // write derived the counts, so compare against the written value
    assert_eq!(back, p);
    assert_eq!(back.header.questions, 1);
    assert_eq!(back.header.answers, 2);
    assert_eq!(back.header.nameservers, 1);
    assert_eq!(back.header.additionals, 2);
}

#[test]
fn packet_write_rejects_invalid_name() {
    let mut p = DnsPacket::new();
    p.questions.push(DnsQuestion {
        name: vec![b'a'; 64],
        qtype: QueryType::A,
    });
    let mut buf = BufHandler::new();
    assert_eq!(p.write(&mut buf), Err(DnsError::InvalidName));
}

#[test]
fn packet_write_rejects_oversize_message() {
    let mut p = DnsPacket::new();
    for _ in 0..40 {
        p.answers.push(DnsRecord::NS {
            domain: name("a-rather-long-owner-name.example.com"),
            ttl: 1,
            host: name("a-rather-long-target-name.example.com"),
        });
    }
    let mut buf = BufHandler::new();
    assert_eq!(p.write(&mut buf), Err(DnsError::BufferExhausted));
}

#[test]
fn unknown_record_type_is_skipped() {
    // Header with two answers: an unrecognized type 99 record with a
    // 7-byte payload, then an ordinary A record that must still decode.
    let mut buf = BufHandler::new();
    let mut h = DnsHeader::new();
    h.answers = 2;
    h.write(&mut buf).unwrap();
    buf.write_qname(&name("odd.example")).unwrap();
    buf.write_u16(99).unwrap(); // type
    buf.write_u16(1).unwrap(); // class
    buf.write_u32(11).unwrap(); // ttl
    buf.write_u16(7).unwrap(); // data length
    for i in 0..7 {
        buf.write(i as u8).unwrap();
    }
    buf.write_qname(&name("www.example")).unwrap();
    buf.write_u16(1).unwrap();
    buf.write_u16(1).unwrap();
    buf.write_u32(3600).unwrap();
    buf.write_u16(4).unwrap();
    for octet in [10, 11, 12, 13] {
        buf.write(octet).unwrap();
    }
    buf.seek(0);
    let p = DnsPacket::from_buffer(&mut buf).unwrap();
    assert_eq!(p.answers.len(), 2);
    assert_eq!(
        p.answers[0],
        DnsRecord::UNKNOWN {
            domain: name("odd.example"),
            qtype: 99
        }
    );
    assert_eq!(
        p.answers[1],
        DnsRecord::A {
            domain: name("www.example"),
            addr: Ipv4Address {
                octets: [10, 11, 12, 13]
            },
            ttl: 3600,
        }
    );
}

#[test]
fn compressed_response_decodes() {
    // A response whose answer name is a pointer back to the question name.
    let mut buf = BufHandler::new();
    let mut h = DnsHeader::new();
    h.id = 7;
    h.questions = 1;
    h.answers = 1;
    h.write(&mut buf).unwrap();
    buf.write_qname(&name("example.com")).unwrap(); // at offset 12
    buf.write_u16(1).unwrap();
    buf.write_u16(1).unwrap();
    buf.write(0xC0).unwrap(); // answer name: pointer to 12
    buf.write(12).unwrap();
    buf.write_u16(1).unwrap();
    buf.write_u16(1).unwrap();
    buf.write_u32(3600).unwrap();
    buf.write_u16(4).unwrap();
    for octet in [1, 2, 3, 4] {
        buf.write(octet).unwrap();
    }
    buf.seek(0);
    let p = DnsPacket::from_buffer(&mut buf).unwrap();
    assert_eq!(p.questions[0].name, name("example.com"));
    assert_eq!(
        p.answers[0],
        DnsRecord::A {
            domain: name("example.com"),
            addr: Ipv4Address {
                octets: [1, 2, 3, 4]
            },
            ttl: 3600,
        }
    );
}

use dns_rdata::encoder::BinEncoder;
use dns_rdata::error::ProtoError;
use dns_rdata::name::Name;
use dns_rdata::rdata::{EdnsOption, CAA, MX, NULL, OPENPGPKEY, OPT, SOA, SRV, SSHFP, TLSA, TXT};
use dns_rdata::record_data::{IpAddr, RData};
use dns_rdata::record_type::RecordType;
use dns_rdata::wire::{read_bytes_at, read_u16_at, read_u32_at, read_u8_at, BinDecoder};
use std::cmp::Ordering;

fn name(s: &str) -> Name {
    Name::from_ascii(s).unwrap()
}

fn bytes_of(r: &RData) -> Vec<u8> {
    let mut e = BinEncoder::new();
    r.emit(&mut e).unwrap();
    e.into_bytes()
}

fn read_back(r: &RData) -> RData {
    let b = bytes_of(r);
    let mut d = BinDecoder::new(&b);
    let v = RData::read(&mut d, r.to_record_type(), b.len() as u16).unwrap();
    assert_eq!(d.index(), b.len());
    v
}

fn samples() -> Vec<RData> {
    vec![
        RData::A([192, 0, 2, 1]),
        RData::AAAA([0x20, 0x01, 0x0d, 0xb8, 0, 0, 0, 0, 0, 0, 0, 0, 0, 0, 0, 1]),
        RData::CAA(CAA { issuer_critical: true, tag: b"issue".to_vec(), value: b"ca.example.net".to_vec() }),
        RData::CAA(CAA { issuer_critical: false, tag: b"iodef".to_vec(), value: vec![] }),
        RData::CNAME(name("alias.example.org.")),
        RData::MX(MX::new(10, name("mail.example.org"))),
        RData::NULL(NULL { anything: vec![1, 2, 3] }),
        RData::NULL(NULL { anything: vec![] }),
        RData::NS(name("ns1.example.org")),
        RData::OPENPGPKEY(OPENPGPKEY { public_key: vec![0x99, 0x01, 0x0d] }),
        RData::OPT(OPT {
            options: vec![
                EdnsOption { code: 10, data: vec![1, 2, 3, 4, 5, 6, 7, 8] },
                EdnsOption { code: 12, data: vec![] },
            ],
        }),
        RData::PTR(name("1.2.0.192.in-addr.arpa")),
        RData::SOA(SOA::new(name("ns.example.org"), name("hostmaster.example.org"), 2024, 3600, 600, 86400, 300)),
        RData::SRV(SRV::new(0, 5, 5060, name("sip.example.org"))),
        RData::SSHFP(SSHFP { algorithm: 4, fingerprint_type: 2, fingerprint: vec![0xab; 32] }),
        RData::TLSA(TLSA { cert_usage: 3, selector: 1, matching: 1, cert_data: vec![0x11; 32] }),
        RData::TXT(TXT::new(vec![b"v=spf1 -all".to_vec()])),
        RData::TXT(TXT::new(vec![])),
        RData::Unknown { code: 65280, rdata: NULL { anything: vec![9, 8, 7] } },
        RData::ZERO,
    ]
}

#[test]
fn every_kind_reads_back_what_was_written() {
    for r in samples() {
        assert_eq!(read_back(&r), r);
    }
}

#[test]
fn record_data_reads_back_inside_a_longer_message() {
    let r = RData::MX(MX::new(5, name("mx.example.org")));
    let mut b = vec![0xEE, 0xEE];
    let inner = bytes_of(&r);
    b.extend_from_slice(&inner);
    b.extend_from_slice(&[0xAA, 0xBB, 0xCC]);
    let (v, end) = RData::read_at(&b, 2, RecordType::MX, inner.len() as u16).unwrap();
    assert_eq!(v, r);
    assert_eq!(end, 2 + inner.len());
}

#[test]
fn writing_keeps_the_bytes_before_it() {
    for r in samples() {
        let mut e = BinEncoder::new();
        e.emit_vec(&[0xEE, 0xEF]);
        r.emit(&mut e).unwrap();
        let b = e.into_bytes();
        assert_eq!(b[..2].to_vec(), vec![0xEE, 0xEF]);
        let (v, end) = RData::read_at(&b, 2, r.to_record_type(), (b.len() - 2) as u16).unwrap();
        assert_eq!(v, r);
        assert_eq!(end, b.len());
    }
}

#[test]
fn read_type_matches_requested_type() {
    for r in samples() {
        let b = bytes_of(&r);
        let rt = r.to_record_type();
        let v = RData::read_at(&b, 0, rt, b.len() as u16).unwrap().0;
        assert_eq!(v.to_record_type(), rt);
    }
}

#[test]
fn to_record_type_of_each_kind() {
    assert_eq!(RData::A([0; 4]).to_record_type(), RecordType::A);
    assert_eq!(RData::ZERO.to_record_type(), RecordType::ZERO);
    assert_eq!(
        RData::Unknown { code: 999, rdata: NULL { anything: vec![] } }.to_record_type(),
        RecordType::Unknown(999)
    );
    assert_eq!(RData::CNAME(name("a")).to_record_type(), RecordType::CNAME);
}

#[test]
fn to_ip_addr_only_for_addresses() {
    assert_eq!(RData::A([10, 0, 0, 1]).to_ip_addr(), Some(IpAddr::V4([10, 0, 0, 1])));
    assert_eq!(RData::AAAA([1; 16]).to_ip_addr(), Some(IpAddr::V6([1; 16])));
    assert_eq!(RData::CNAME(name("a.b")).to_ip_addr(), None);
    assert_eq!(RData::ZERO.to_ip_addr(), None);
}

#[test]
fn second_name_points_back_at_the_first() {
    let mut e = BinEncoder::new();
    name("example.com").emit(&mut e);
    name("example.com").emit(&mut e);
    name("www.example.com").emit(&mut e);
    assert_eq!(
        e.into_bytes(),
        vec![
            7, b'e', b'x', b'a', b'm', b'p', b'l', b'e', 3, b'c', b'o', b'm', 0, 0xC0, 0x00, 3,
            b'w', b'w', b'w', 0xC0, 0x00,
        ]
    );
}

#[test]
fn suffix_of_an_earlier_name_is_pointed_at() {
    let mut e = BinEncoder::new();
    name("www.example.com").emit(&mut e);
    name("com").emit(&mut e);
    assert_eq!(e.as_bytes()[17..].to_vec(), vec![0xC0, 12]);
}

#[test]
fn canonical_encoder_writes_names_plainly() {
    let mut e = BinEncoder::new_canonical();
    assert!(e.is_canonical_names());
    name("a.b").emit(&mut e);
    name("a.b").emit(&mut e);
    assert_eq!(e.into_bytes(), vec![1, b'a', 1, b'b', 0, 1, b'a', 1, b'b', 0]);
}

#[test]
fn canonical_encoder_writes_names_in_lower_case() {
    let mut e = BinEncoder::new_canonical();
    RData::CNAME(name("WWW.Example.COM")).emit(&mut e).unwrap();
    assert_eq!(
        e.into_bytes(),
        vec![3, b'w', b'w', b'w', 7, b'e', b'x', b'a', b'm', b'p', b'l', b'e', 3, b'c', b'o', b'm', 0]
    );
    for (upper, lower) in [
        (RData::CNAME(name("A")), RData::CNAME(name("a"))),
        (RData::NS(name("Ns1.Example.Org")), RData::NS(name("ns1.example.org"))),
        (RData::PTR(name("X.Y")), RData::PTR(name("x.y"))),
        (RData::MX(MX::new(1, name("MAIL.x"))), RData::MX(MX::new(1, name("mail.x")))),
        (RData::SRV(SRV::new(1, 2, 3, name("Sip.X"))), RData::SRV(SRV::new(1, 2, 3, name("sip.x")))),
        (
            RData::SOA(SOA::new(name("NS.X"), name("Host.X"), 1, 2, 3, 4, 5)),
            RData::SOA(SOA::new(name("ns.x"), name("host.x"), 1, 2, 3, 4, 5)),
        ),
    ] {
        let mut e1 = BinEncoder::new_canonical();
        let mut e2 = BinEncoder::new_canonical();
        upper.emit(&mut e1).unwrap();
        lower.emit(&mut e2).unwrap();
        assert_eq!(e1.into_bytes(), e2.into_bytes());
        assert_eq!(upper.to_canonical_bytes(), lower.to_canonical_bytes());
        assert_ne!(upper.to_bytes(), lower.to_bytes());
    }
    // Outside canonical mode the case is kept.
    let mut e = BinEncoder::new();
    name("Ab").emit(&mut e);
    assert_eq!(e.into_bytes(), vec![2, b'A', b'b', 0]);
}

#[test]
fn canonical_bytes_read_back_in_lower_case() {
    let soa = RData::SOA(SOA::new(name("NS.Example.org"), name("Host.Example.org"), 7, 1, 2, 3, 4));
    let b = soa.to_canonical_bytes();
    let (v, end) = RData::read_at(&b, 0, RecordType::SOA, b.len() as u16).unwrap();
    assert_eq!(end, b.len());
    assert_eq!(v, soa);
    match v {
        RData::SOA(x) => assert_eq!(x.mname.labels()[0], b"ns".to_vec()),
        _ => panic!("SOA data expected"),
    }
}

#[test]
fn root_name_is_one_zero_byte() {
    let mut e = BinEncoder::new();
    Name::root().emit(&mut e);
    name(".").emit(&mut e);
    name("").emit(&mut e);
    assert_eq!(e.into_bytes(), vec![0, 0, 0]);
}

#[test]
fn dotted_text_labels() {
    assert_eq!(name("www.example.com").labels().len(), 3);
    assert_eq!(name("www.example.com."), name("www.example.com"));
    assert_eq!(name("x").labels()[0], b"x".to_vec());
    assert_eq!(Name::from_ascii("a..b"), Err(ProtoError::LabelBytesInvalid { len: 0 }));
    assert_eq!(Name::from_ascii(".a"), Err(ProtoError::LabelBytesInvalid { len: 0 }));
    let long = "x".repeat(64);
    assert_eq!(Name::from_ascii(&long), Err(ProtoError::LabelBytesInvalid { len: 64 }));
    assert!(Name::from_ascii(&"y".repeat(63)).is_ok());
}

#[test]
fn from_labels_checks_each_label() {
    assert!(Name::from_labels(vec![b"a".to_vec(), b"b".to_vec()]).is_ok());
    assert_eq!(
        Name::from_labels(vec![b"a".to_vec(), vec![]]),
        Err(ProtoError::LabelBytesInvalid { len: 0 })
    );
}

#[test]
fn name_read_follows_pointer_and_moves_index() {
    let buf = vec![1, b'a', 0, 1, b'b', 0xC0, 0x00, 0xFF];
    let mut d = BinDecoder::new(&buf);
    d.set_index(3);
    let n = Name::read(&mut d).unwrap();
    assert_eq!(n, name("b.a"));
    assert_eq!(d.index(), 7);
}

#[test]
fn forward_pointer_is_refused() {
    let buf = vec![0xC0, 0x02, 0];
    let mut d = BinDecoder::new(&buf);
    assert_eq!(Name::read(&mut d), Err(ProtoError::PointerNotPriorToLabel { idx: 0, ptr: 2 }));
    assert_eq!(d.index(), 2);
}

#[test]
fn self_pointer_is_refused() {
    let buf = vec![1, b'a', 0xC0, 0x00];
    let (r, _) = match Name::read_at(&buf, 0) {
        Ok(_) => panic!("a name that points into itself must not read"),
        Err(e) => (e, ()),
    };
    assert_eq!(r, (ProtoError::PointerNotPriorToLabel { idx: 2, ptr: 0 }, 4));
}

#[test]
fn reserved_label_codes_are_refused() {
    assert_eq!(Name::read_at(&[0x40, 0], 0).err(), Some((ProtoError::UnrecognizedLabelCode(0x40), 0)));
    assert_eq!(Name::read_at(&[0x80, 0], 0).err(), Some((ProtoError::UnrecognizedLabelCode(0x80), 0)));
    let buf = vec![1, b'a', 0x40];
    let mut d = BinDecoder::new(&buf);
    assert_eq!(Name::read(&mut d), Err(ProtoError::UnrecognizedLabelCode(0x40)));
    assert_eq!(d.index(), 2);
}

#[test]
fn truncated_input_is_refused() {
    assert_eq!(Name::read_at(&[3, b'a', b'b'], 0).err(), Some((ProtoError::InsufficientBytes, 1)));
    assert_eq!(Name::read_at(&[1, b'a'], 0).err(), Some((ProtoError::InsufficientBytes, 2)));
    assert_eq!(Name::read_at(&[1, b'a', 0xC0], 0).err(), Some((ProtoError::InsufficientBytes, 2)));
    // The data ends where the announced length ends: the reader's own error.
    assert_eq!(
        RData::read_at(&[1, 2, 3], 0, RecordType::A, 3).err(),
        Some((ProtoError::InsufficientBytes, 3))
    );
    assert_eq!(
        RData::read_at(&[0x20, 0x01, 0x0d], 0, RecordType::AAAA, 2).err(),
        Some((ProtoError::InsufficientBytes, 2))
    );
    // The reader stopped short of the announced length: the length error.
    assert_eq!(
        RData::read_at(&[1, 2, 3], 0, RecordType::A, 4).err(),
        Some((ProtoError::IncorrectRDataLengthRead { read: 3, len: 4 }, 3))
    );
    assert_eq!(
        RData::read_at(&[], 0, RecordType::A, 4).err(),
        Some((ProtoError::IncorrectRDataLengthRead { read: 0, len: 4 }, 0))
    );
    assert_eq!(
        RData::read_at(&[0, 1], 0, RecordType::SOA, 22).err(),
        Some((ProtoError::IncorrectRDataLengthRead { read: 2, len: 22 }, 2))
    );
    let buf = vec![0u8; 0];
    let mut d = BinDecoder::new(&buf);
    assert_eq!(
        RData::read(&mut d, RecordType::A, 4),
        Err(ProtoError::IncorrectRDataLengthRead { read: 0, len: 4 })
    );
    assert_eq!(d.index(), 0);
}

#[test]
fn query_only_types_have_no_data() {
    for (rt, code) in [(RecordType::ANY, 255u16), (RecordType::AXFR, 252), (RecordType::IXFR, 251)] {
        let buf = vec![0u8; 4];
        let mut d = BinDecoder::new(&buf);
        assert_eq!(RData::read(&mut d, rt, 4), Err(ProtoError::UnknownRecordTypeValue(code)));
        assert_eq!(d.index(), 0);
    }
}

#[test]
fn zero_type_reads_nothing() {
    let buf = vec![1u8, 2, 3];
    let mut d = BinDecoder::new(&buf);
    assert_eq!(RData::read(&mut d, RecordType::ZERO, 3), Ok(RData::ZERO));
    assert_eq!(d.index(), 0);
}

#[test]
fn announced_length_must_be_used_exactly() {
    let buf = vec![1u8, 2, 3, 4, 5];
    let mut d = BinDecoder::new(&buf);
    assert_eq!(
        RData::read(&mut d, RecordType::A, 5),
        Err(ProtoError::IncorrectRDataLengthRead { read: 4, len: 5 })
    );
    assert_eq!(d.index(), 4);
    let name_buf = vec![1, b'a', 0];
    assert_eq!(
        RData::read_at(&name_buf, 0, RecordType::CNAME, 2).err(),
        Some((ProtoError::IncorrectRDataLengthRead { read: 3, len: 2 }, 3))
    );
    let mut d = BinDecoder::new(&name_buf);
    assert_eq!(
        RData::read(&mut d, RecordType::CNAME, 4),
        Err(ProtoError::IncorrectRDataLengthRead { read: 3, len: 4 })
    );
    assert_eq!(d.index(), 3);
}

#[test]
fn caa_tag_rules() {
    assert_eq!(
        RData::read_at(&[0, 0, b'x'], 0, RecordType::CAA, 2).err(),
        Some((ProtoError::CaaTagLength(0), 2))
    );
    assert_eq!(
        RData::read_at(&[0, 0, b'x'], 0, RecordType::CAA, 3).err(),
        Some((ProtoError::IncorrectRDataLengthRead { read: 2, len: 3 }, 2))
    );
    assert_eq!(
        RData::read_at(&[0, 16], 0, RecordType::CAA, 2).err(),
        Some((ProtoError::CaaTagLength(16), 2))
    );
    assert_eq!(
        RData::read_at(&[0, 2, b'a', b'-'], 0, RecordType::CAA, 4).err(),
        Some((ProtoError::CaaTagCharacter(b'-'), 4))
    );
    assert_eq!(
        RData::read_at(&[0, 2, b'a', b'b'], 0, RecordType::CAA, 3).err(),
        Some((ProtoError::IncorrectRDataLengthRead { read: 4, len: 3 }, 4))
    );
    let v = RData::read_at(&[0x81, 1, b'Z', 7], 0, RecordType::CAA, 4).unwrap().0;
    assert_eq!(v, RData::CAA(CAA { issuer_critical: true, tag: b"Z".to_vec(), value: vec![7] }));
}

#[test]
fn fixed_fields_need_room() {
    assert_eq!(
        RData::read_at(&[1], 0, RecordType::SSHFP, 0).err(),
        Some((ProtoError::RDataTooShort { len: 0 }, 0))
    );
    assert_eq!(
        RData::read_at(&[1], 0, RecordType::SSHFP, 1).err(),
        Some((ProtoError::IncorrectRDataLengthRead { read: 0, len: 1 }, 0))
    );
    assert_eq!(
        RData::read_at(&[1, 2], 0, RecordType::TLSA, 0).err(),
        Some((ProtoError::RDataTooShort { len: 0 }, 0))
    );
    assert_eq!(
        RData::read_at(&[1, 2], 0, RecordType::TLSA, 2).err(),
        Some((ProtoError::IncorrectRDataLengthRead { read: 0, len: 2 }, 0))
    );
    let v = RData::read_at(&[1, 2, 3], 0, RecordType::TLSA, 3).unwrap().0;
    assert_eq!(v, RData::TLSA(TLSA { cert_usage: 1, selector: 2, matching: 3, cert_data: vec![] }));
}

#[test]
fn txt_string_that_overruns_the_data() {
    let buf = vec![3, b'a', b'b', b'c'];
    assert_eq!(
        RData::read_at(&buf, 0, RecordType::TXT, 2).err(),
        Some((ProtoError::IncorrectRDataLengthRead { read: 4, len: 2 }, 4))
    );
}

#[test]
fn too_long_text_string_is_refused_when_written() {
    let t = TXT::new(vec![b"ok".to_vec(), vec![b'x'; 256], b"late".to_vec()]);
    let mut e = BinEncoder::new();
    assert_eq!(
        RData::TXT(t.clone()).emit(&mut e),
        Err(ProtoError::CharacterDataTooLong { max: 255, len: 256 })
    );
    assert_eq!(e.into_bytes(), vec![2, b'o', b'k']);
    assert_eq!(RData::TXT(t).to_bytes(), vec![2, b'o', b'k']);
}

#[test]
fn opt_later_option_replaces_earlier_one() {
    let buf = vec![0, 8, 0, 1, 0xAA, 0, 9, 0, 0, 0, 8, 0, 2, 0xBB, 0xCC];
    let v = RData::read_at(&buf, 0, RecordType::OPT, buf.len() as u16).unwrap().0;
    assert_eq!(
        v,
        RData::OPT(OPT {
            options: vec![
                EdnsOption { code: 8, data: vec![0xBB, 0xCC] },
                EdnsOption { code: 9, data: vec![] },
            ]
        })
    );
}

#[test]
fn opt_ending_inside_an_option_has_no_options() {
    let buf = vec![0, 8, 0, 4, 1, 2];
    let v = RData::read_at(&buf, 0, RecordType::OPT, 6).unwrap();
    assert_eq!(v, (RData::OPT(OPT { options: vec![] }), 6));
    assert_eq!(
        RData::read_at(&[0, 8, 0, 5, 1], 0, RecordType::OPT, 3).err(),
        Some((ProtoError::IncorrectRDataLengthRead { read: 4, len: 3 }, 4))
    );
    assert_eq!(
        RData::read_at(&[0, 8, 0], 0, RecordType::OPT, 3).err(),
        Some((ProtoError::IncorrectRDataLengthRead { read: 2, len: 3 }, 2))
    );
}

#[test]
fn record_type_codes() {
    let known = [
        (RecordType::A, 1u16),
        (RecordType::AAAA, 28),
        (RecordType::ANY, 255),
        (RecordType::AXFR, 252),
        (RecordType::CAA, 257),
        (RecordType::CNAME, 5),
        (RecordType::IXFR, 251),
        (RecordType::MX, 15),
        (RecordType::NULL, 10),
        (RecordType::NS, 2),
        (RecordType::OPENPGPKEY, 61),
        (RecordType::OPT, 41),
        (RecordType::PTR, 12),
        (RecordType::SOA, 6),
        (RecordType::SRV, 33),
        (RecordType::SSHFP, 44),
        (RecordType::TLSA, 52),
        (RecordType::TXT, 16),
        (RecordType::ZERO, 0),
    ];
    for (rt, code) in known {
        assert_eq!(rt.code(), code);
        assert_eq!(RecordType::from_code(code), rt);
    }
    assert_eq!(RecordType::from_code(300), RecordType::Unknown(300));
    assert_eq!(RecordType::Unknown(300).code(), 300);
    for c in 0..=600u16 {
        assert_eq!(RecordType::from_code(c).code(), c);
    }
}

#[test]
fn canonical_order_is_a_total_order() {
    let s = samples();
    for x in &s {
        assert_eq!(x.cmp(x), Ordering::Equal);
        assert_eq!(x.partial_cmp(x), Some(Ordering::Equal));
        for y in &s {
            assert_eq!(x.cmp(y), y.cmp(x).reverse());
            assert_eq!(x.cmp(y) == Ordering::Equal, x.to_canonical_bytes() == y.to_canonical_bytes());
            for z in &s {
                if x.cmp(y) == Ordering::Less && y.cmp(z) == Ordering::Less {
                    assert_eq!(x.cmp(z), Ordering::Less);
                }
            }
        }
    }
}

#[test]
fn canonical_order_ignores_the_case_of_names() {
    let upper = RData::CNAME(Name::from_ascii("WWW.example.com").unwrap());
    let lower = RData::CNAME(Name::from_ascii("www.example.com").unwrap());
    assert_eq!(upper.cmp(&lower), Ordering::Equal);
    assert_eq!(RData::CNAME(name("A")).cmp(&RData::CNAME(name("a"))), Ordering::Equal);
    assert_eq!(RData::CNAME(name("B")).cmp(&RData::CNAME(name("a"))), Ordering::Greater);
}

#[test]
fn canonical_order_writes_names_in_full() {
    let com = RData::SOA(SOA::new(name("www.example.com"), name("xxx.example.com"), 1, 1, 1, 1, 1));
    let org = RData::SOA(SOA::new(name("www.example.com"), name("xxx.example.org"), 1, 1, 1, 1, 1));
    assert_eq!(com.cmp(&org), Ordering::Less);
    assert_eq!(org.cmp(&com), Ordering::Greater);
    assert_eq!(com.partial_cmp(&org), Some(Ordering::Less));
    assert!(com < org);
    assert!(org >= com);
}

#[test]
fn shorter_prefix_sorts_first() {
    let short = RData::NULL(NULL { anything: vec![0] });
    let long = RData::NULL(NULL { anything: vec![0, 0] });
    assert_eq!(short.cmp(&long), Ordering::Less);
    assert_eq!(RData::A([0, 0, 0, 1]).cmp(&RData::A([0, 0, 0, 2])), Ordering::Less);
}

#[test]
fn to_bytes_of_soa_compresses_within_the_data() {
    let soa = RData::SOA(SOA::new(name("a.org"), name("b.a.org"), 1, -2, 3, -4, 5));
    let b = soa.to_bytes();
    assert_eq!(
        b,
        vec![
            1, b'a', 3, b'o', b'r', b'g', 0, 1, b'b', 0xC0, 0x00, 0, 0, 0, 1, 0xFF, 0xFF, 0xFF,
            0xFE, 0, 0, 0, 3, 0xFF, 0xFF, 0xFF, 0xFC, 0, 0, 0, 5,
        ]
    );
    assert_eq!(read_back(&soa), soa);
}

#[test]
fn primitive_writes() {
    let mut e = BinEncoder::new();
    e.emit(7);
    e.emit_u16(0x1234);
    e.emit_u32(0xDEADBEEF);
    e.emit_vec(&[1, 2]);
    assert_eq!(e.emit_character_data(b"hi"), Ok(()));
    assert_eq!(e.len(), 1 + 2 + 4 + 2 + 3);
    assert_eq!(
        e.into_bytes(),
        vec![7, 0x12, 0x34, 0xDE, 0xAD, 0xBE, 0xEF, 1, 2, 2, b'h', b'i']
    );
}

#[test]
fn primitive_reads() {
    let b = [0x12, 0x34, 0x56, 0x78];
    assert_eq!(read_u8_at(&b, 3), Ok(0x78));
    assert_eq!(read_u8_at(&b, 4), Err(ProtoError::InsufficientBytes));
    assert_eq!(read_u16_at(&b, 1), Ok(0x3456));
    assert_eq!(read_u16_at(&b, 3), Err(ProtoError::InsufficientBytes));
    assert_eq!(read_u32_at(&b, 0), Ok(0x12345678));
    assert_eq!(read_u32_at(&b, 1), Err(ProtoError::InsufficientBytes));
    assert_eq!(read_bytes_at(&b, 1, 2), Ok(vec![0x34, 0x56]));
    assert_eq!(read_bytes_at(&b, 3, 2), Err(ProtoError::InsufficientBytes));
}

#[test]
fn names_compare_without_regard_to_case() {
    assert_eq!(name("WWW.Example.COM"), name("www.example.com"));
    assert_ne!(name("www.example.com"), name("www.example.org"));
    assert_ne!(name("a.b"), name("a"));
    assert_eq!(RData::CNAME(name("A.B")), RData::CNAME(name("a.b")));
    assert_ne!(RData::CNAME(name("a.b")), RData::NS(name("a.b")));
}

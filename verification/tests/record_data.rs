use dns_rdata::name::Name;
use dns_rdata::rdata::{MX, SOA, SRV, TXT};
use dns_rdata::record_data::RData;
use dns_rdata::record_type::RecordType;
use dns_rdata::wire::BinDecoder;
use dns_rdata::encoder::BinEncoder;

fn name(s: &str) -> Name {
    Name::from_ascii(s).unwrap()
}

fn txt(strings: Vec<String>) -> TXT {
    TXT::new(strings.into_iter().map(|s| s.into_bytes()).collect())
}

/// The octets of a dotted IPv4 address.
fn ipv4(s: &str) -> [u8; 4] {
    let parts: Vec<u8> = s.split('.').map(|p| p.parse::<u8>().unwrap()).collect();
    assert_eq!(parts.len(), 4);
    [parts[0], parts[1], parts[2], parts[3]]
}

/// The octets of an IPv6 address in colon notation, with at most one `::`.
fn ipv6(s: &str) -> [u8; 16] {
    let groups = |t: &str| -> Vec<u16> {
        if t.is_empty() {
            Vec::new()
        } else {
            t.split(':').map(|g| u16::from_str_radix(g, 16).unwrap()).collect()
        }
    };
    let (head, tail) = match s.find("::") {
        Some(i) => (groups(&s[..i]), groups(&s[i + 2..])),
        None => (groups(s), Vec::new()),
    };
    let mut all = head.clone();
    all.resize(8 - tail.len(), 0);
    all.extend(tail);
    let mut out = [0u8; 16];
    for (i, g) in all.iter().enumerate() {
        out[2 * i] = (g >> 8) as u8;
        out[2 * i + 1] = (g & 0xff) as u8;
    }
    out
}

fn a(s: &str) -> RData {
    RData::A(ipv4(s))
}

fn aaaa(s: &str) -> RData {
    RData::AAAA(ipv6(s))
}

fn get_data() -> Vec<(RData, Vec<u8>)> {
    vec![
        (
            RData::CNAME(name("www.example.com")),
            vec![
                3, b'w', b'w', b'w', 7, b'e', b'x', b'a', b'm', b'p', b'l', b'e', 3, b'c', b'o',
                b'm', 0,
            ],
        ),
        (RData::MX(MX::new(256, name("n"))), vec![1, 0, 1, b'n', 0]),
        (
            RData::NS(name("www.example.com")),
            vec![
                3, b'w', b'w', b'w', 7, b'e', b'x', b'a', b'm', b'p', b'l', b'e', 3, b'c', b'o',
                b'm', 0,
            ],
        ),
        (
            RData::PTR(name("www.example.com")),
            vec![
                3, b'w', b'w', b'w', 7, b'e', b'x', b'a', b'm', b'p', b'l', b'e', 3, b'c', b'o',
                b'm', 0,
            ],
        ),
        (
            RData::SOA(SOA::new(
                name("www.example.com"),
                name("xxx.example.com"),
                u32::max_value(),
                -1 as i32,
                -1 as i32,
                -1 as i32,
                u32::max_value(),
            )),
            vec![
                3, b'w', b'w', b'w', 7, b'e', b'x', b'a', b'm', b'p', b'l', b'e', 3, b'c', b'o',
                b'm', 0, 3, b'x', b'x', b'x', 0xC0, 0x04, 0xFF, 0xFF, 0xFF, 0xFF, 0xFF, 0xFF, 0xFF,
                0xFF, 0xFF, 0xFF, 0xFF, 0xFF, 0xFF, 0xFF, 0xFF, 0xFF, 0xFF, 0xFF, 0xFF, 0xFF,
            ],
        ),
        (
            RData::TXT(txt(vec![
                "abcdef".to_string(),
                "ghi".to_string(),
                "".to_string(),
                "j".to_string(),
            ])),
            vec![6, b'a', b'b', b'c', b'd', b'e', b'f', 3, b'g', b'h', b'i', 0, 1, b'j'],
        ),
        (a("0.0.0.0"), vec![0, 0, 0, 0]),
        (aaaa("::"), vec![0, 0, 0, 0, 0, 0, 0, 0, 0, 0, 0, 0, 0, 0, 0, 0]),
        (
            RData::SRV(SRV::new(1, 2, 3, name("www.example.com"))),
            vec![
                0x00, 0x01, 0x00, 0x02, 0x00, 0x03, 3, b'w', b'w', b'w', 7, b'e', b'x', b'a', b'm',
                b'p', b'l', b'e', 3, b'c', b'o', b'm', 0,
            ],
        ),
    ]
}

fn record_type_from_rdata(rdata: &RData) -> RecordType {
    match *rdata {
        RData::A(..) => RecordType::A,
        RData::AAAA(..) => RecordType::AAAA,
        RData::CAA(..) => RecordType::CAA,
        RData::CNAME(..) => RecordType::CNAME,
        RData::MX(..) => RecordType::MX,
        RData::NS(..) => RecordType::NS,
        RData::NULL(..) => RecordType::NULL,
        RData::OPENPGPKEY(..) => RecordType::OPENPGPKEY,
        RData::OPT(..) => RecordType::OPT,
        RData::PTR(..) => RecordType::PTR,
        RData::SOA(..) => RecordType::SOA,
        RData::SRV(..) => RecordType::SRV,
        RData::SSHFP(..) => RecordType::SSHFP,
        RData::TLSA(..) => RecordType::TLSA,
        RData::TXT(..) => RecordType::TXT,
        RData::Unknown { code, .. } => RecordType::Unknown(code),
        RData::ZERO => RecordType::ZERO,
    }
}

#[test]
fn test_order() {
    let ordered: Vec<RData> = vec![
        a("0.0.0.0"),
        aaaa("::"),
        RData::SRV(SRV::new(1, 2, 3, name("www.example.com"))),
        RData::MX(MX::new(256, name("n"))),
        RData::CNAME(name("www.example.com")),
        RData::PTR(name("www.example.com")),
        RData::NS(name("www.example.com")),
        RData::SOA(SOA::new(
            name("www.example.com"),
            name("xxx.example.com"),
            u32::max_value(),
            -1 as i32,
            -1 as i32,
            -1 as i32,
            u32::max_value(),
        )),
        RData::TXT(txt(vec![
            "abcdef".to_string(),
            "ghi".to_string(),
            "".to_string(),
            "j".to_string(),
        ])),
    ];
    let mut unordered = vec![
        RData::CNAME(name("www.example.com")),
        RData::MX(MX::new(256, name("n"))),
        RData::PTR(name("www.example.com")),
        RData::NS(name("www.example.com")),
        RData::SOA(SOA::new(
            name("www.example.com"),
            name("xxx.example.com"),
            u32::max_value(),
            -1 as i32,
            -1 as i32,
            -1 as i32,
            u32::max_value(),
        )),
        RData::TXT(txt(vec![
            "abcdef".to_string(),
            "ghi".to_string(),
            "".to_string(),
            "j".to_string(),
        ])),
        a("0.0.0.0"),
        aaaa("::"),
        RData::SRV(SRV::new(1, 2, 3, name("www.example.com"))),
    ];

    unordered.sort_by(|x, y| x.cmp(y));
    assert_eq!(ordered, unordered);
}

#[test]
fn test_read() {
    for (test_pass, (expect, binary)) in get_data().into_iter().enumerate() {
        println!("test {}: {:?}", test_pass, binary);
        let length = binary.len() as u16;
        let mut decoder = BinDecoder::new(&binary);

        assert_eq!(
            RData::read(&mut decoder, record_type_from_rdata(&expect), length).unwrap(),
            expect
        );
    }
}

#[test]
fn test_write_to() {
    for (data, binary) in get_data() {
        let mut encoder = BinEncoder::new();
        data.emit(&mut encoder).unwrap();
        assert_eq!(encoder.into_bytes(), binary);
    }
}

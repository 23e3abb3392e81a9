use x_proxy::dns::{Dns, DnsHeader, DnsQuestion, RecordClass, RecordType, ResultCode};

#[test]
fn result_code_round_trip() {
    for num in 0u8..=5 {
        let code = ResultCode::from_num(num).unwrap();
        assert_eq!(code.to_num(), num);
    }
    assert!(ResultCode::from_num(6).is_none());
    assert_eq!(ResultCode::from_num(0), Some(ResultCode::NoError));
    assert_eq!(ResultCode::from_num(3), Some(ResultCode::NxDomain));
}

#[test]
fn record_type_round_trip() {
    for num in [1u16, 2, 5, 15, 16, 28] {
        let t = RecordType::from_num(num).unwrap();
        assert_eq!(t.to_num(), num);
    }
    assert_eq!(RecordType::from_num(1), Some(RecordType::A));
    assert_eq!(RecordType::from_num(28), Some(RecordType::Aaaa));
    assert!(RecordType::from_num(3).is_none());
    assert!(RecordType::from_num(0).is_none());
}

#[test]
fn record_class_round_trip() {
    for num in 1u16..=4 {
        let c = RecordClass::from_num(num).unwrap();
        assert_eq!(c.to_num(), num);
    }
    assert_eq!(RecordClass::from_num(1), Some(RecordClass::In));
    assert!(RecordClass::from_num(0).is_none());
    assert!(RecordClass::from_num(5).is_none());
}

#[test]
fn header_starts_empty() {
    let h = DnsHeader::new();
    assert_eq!(h.id, 0);
    assert!(!h.response);
    assert_eq!(h.rescode, ResultCode::NoError);
    assert_eq!(h.questions, 0);
    assert_eq!(h.answers, 0);
    assert_eq!(h.authoritative_entries, 0);
    assert_eq!(h.additional_entries, 0);
}

#[test]
fn question_defaults_to_internet_class() {
    let q = DnsQuestion::new("example.com".to_string(), RecordType::A);
    assert_eq!(q.name, "example.com");
    assert_eq!(q.qtype, RecordType::A);
    assert_eq!(q.qclass, RecordClass::In);
}

#[test]
fn responder_declaration() {
    let d = Dns::new("dns0".to_string(), "127.0.0.1".to_string(), 5353);
    assert_eq!(d.name, "dns0");
    assert_eq!(d.host, "127.0.0.1");
    assert_eq!(d.port, 5353);
}

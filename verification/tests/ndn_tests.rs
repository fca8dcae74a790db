use udcn_transport::error::Error;
use udcn_transport::name::Name;
use udcn_transport::ndn::{reason_from_code, reason_to_code, ContentType, Data, Interest, Nack, NackReason};

#[test]
fn test_interest_creation() {
    let name = Name::from("/test/interest");
    let interest = Interest::new(name.clone());
    assert_eq!(interest.name(), &name);
    assert!(!interest.allows_prefix());
    assert!(interest.wants_fresh());
    assert_eq!(interest.get_lifetime(), 4000);

    let interest = Interest::new(name.clone())
        .can_be_prefix(true)
        .must_be_fresh(true)
        .lifetime(10_000)
        .with_nonce(42);
    assert_eq!(interest.name(), &name);
    assert!(interest.allows_prefix());
    assert!(interest.wants_fresh());
    assert_eq!(interest.get_lifetime(), 10_000);
    assert_eq!(interest.nonce(), 42);
}

#[test]
fn test_interest_builder() {
    let name = Name::from("/test/interest");
    let interest = Interest::new(name.clone())
        .can_be_prefix(true)
        .must_be_fresh(true)
        .lifetime(5000)
        .with_nonce(123);
    assert_eq!(interest.name(), &name);
    assert!(interest.allows_prefix());
    assert!(interest.wants_fresh());
    assert_eq!(interest.get_lifetime(), 5000);
    assert_eq!(interest.nonce(), 123);
}

#[test]
fn test_interest_wire_format() {
    let name = Name::from("/test/interest");
    let interest = Interest::new(name.clone())
        .can_be_prefix(true)
        .must_be_fresh(true)
        .lifetime(5000)
        .with_nonce(123);
    let wire_data = interest.to_bytes().unwrap();
    assert!(!wire_data.is_empty());
    let decoded_interest = Interest::from_bytes(&wire_data).expect("Failed to decode interest");
    assert_eq!(decoded_interest.name(), &name);
    assert_eq!(decoded_interest.allows_prefix(), interest.allows_prefix());
    assert_eq!(decoded_interest.wants_fresh(), interest.wants_fresh());
    assert_eq!(decoded_interest.get_lifetime(), interest.get_lifetime());
    assert_eq!(decoded_interest.nonce(), interest.nonce());
    assert_eq!(decoded_interest, interest);
}

#[test]
fn test_interest_matching() {
    let prefix = Name::from("/test/prefix");
    let exact_name = Name::from("/test/prefix");
    let longer_name = Name::from("/test/prefix/suffix");
    let different_name = Name::from("/test/different");

    let interest = Interest::new(exact_name.clone());
    assert!(interest.matches(&exact_name));
    assert!(!interest.matches(&longer_name));
    assert!(!interest.matches(&different_name));

    let interest = Interest::new(prefix.clone()).can_be_prefix(true);
    assert!(interest.matches(&exact_name));
    assert!(interest.matches(&longer_name));
    assert!(!interest.matches(&different_name));
}

#[test]
fn test_data_creation() {
    let name = Name::from("/test/data");
    let content = b"Hello, NDN!".to_vec();
    let data = Data::new(name.clone(), content.clone());
    assert_eq!(data.name(), &name);
    assert_eq!(data.content(), content.as_slice());
    assert_eq!(data.get_fresh_period(), 3_600_000);
    assert_eq!(data.get_content_type(), ContentType::Blob);

    let data = Data::new(name.clone(), content.clone()).fresh_period(60_000);
    assert_eq!(data.name(), &name);
    assert_eq!(data.content(), content.as_slice());
    assert_eq!(data.get_fresh_period(), 60_000);
}

#[test]
fn test_data_builder() {
    let name = Name::from("/test/data");
    let content = b"Hello, NDN!".to_vec();
    let data = Data::new(name.clone(), content.clone())
        .fresh_period(60_000)
        .content_type(ContentType::Key);
    assert_eq!(data.name(), &name);
    assert_eq!(data.content(), content.as_slice());
    assert_eq!(data.get_fresh_period(), 60_000);
    assert_eq!(data.get_content_type(), ContentType::Key);
}

#[test]
fn test_data_wire_format() {
    let name = Name::from("/test/data");
    let content = b"Hello, NDN!".to_vec();
    let data = Data::new(name.clone(), content.clone()).fresh_period(60_000);
    let wire_data = data.to_bytes().unwrap();
    assert!(!wire_data.is_empty());
    let decoded_data = Data::from_bytes(&wire_data).expect("Failed to decode data");
    assert_eq!(decoded_data.name(), &name);
    assert_eq!(decoded_data.content(), content.as_slice());
    assert_eq!(decoded_data.get_fresh_period(), data.get_fresh_period());
    assert_eq!(decoded_data, data);
}

#[test]
fn test_data_signature() {
    let name = Name::from("/test/signed-data");
    let data = Data::new(name, b"Secure content".to_vec());
    assert_eq!(data.signature_info(), &[0]);
    assert_eq!(data.signature_value(), &[0]);
    let signed = data.sign(b"key");
    assert_eq!(signed.signature_info(), &[1]);
    assert_eq!(signed.signature_value(), &[2]);
    let wire = signed.to_bytes().unwrap();
    assert_eq!(Data::from_bytes(&wire).unwrap(), signed);
}

#[test]
fn test_nack_creation() {
    let interest = Interest::new(Name::from("/test/nack"));
    let nack = Nack::new(interest.clone(), NackReason::Congestion);
    assert_eq!(nack.interest(), &interest);
    assert_eq!(nack.reason(), NackReason::Congestion);
    assert_eq!(nack.message(), "");

    let nack = Nack::new(interest.clone(), NackReason::NoRoute);
    assert_eq!(nack.reason(), NackReason::NoRoute);

    let nack = Nack::from_interest(interest.clone(), "no such producer");
    assert_eq!(nack.reason(), NackReason::NoRoute);
    assert_eq!(nack.message(), "no such producer");
}

#[test]
fn test_nack_wire_format() {
    let interest = Interest::new(Name::from("/test/nack"));
    let nack = Nack::new(interest.clone(), NackReason::Congestion);
    let wire_data = nack.to_bytes().unwrap();
    assert!(!wire_data.is_empty());
    let decoded_nack = Nack::from_bytes(&wire_data).expect("Failed to decode nack");
    assert_eq!(decoded_nack.interest().name(), interest.name());
    assert_eq!(decoded_nack.reason(), NackReason::Congestion);
    assert_eq!(decoded_nack, nack);
}

#[test]
fn content_type_and_freshness_survive_the_wire() {
    let name = Name::from("/test/meta");
    for ct in [
        ContentType::Blob,
        ContentType::Link,
        ContentType::Key,
        ContentType::Cert,
        ContentType::Manifest,
        ContentType::PrefixAnn,
        ContentType::Custom(42),
    ] {
        let data = Data::new(name.clone(), vec![1, 2, 3]).content_type(ct).fresh_period(7);
        let decoded = Data::from_bytes(&data.to_bytes().unwrap()).unwrap();
        assert_eq!(decoded.get_content_type(), ct);
        assert_eq!(decoded.get_fresh_period(), 7);
    }
    assert_eq!(ContentType::from_code(3), ContentType::Cert);
    assert_eq!(ContentType::from_code(200), ContentType::Custom(200));
    assert_eq!(ContentType::Custom(9).to_code(), 9);
}

#[test]
fn interest_wire_bytes_are_exact() {
    let interest = Interest::new(Name::from("/a")).with_nonce(0x01020304).lifetime(4000);
    let wire = interest.to_bytes().unwrap();
    assert_eq!(
        wire,
        vec![
            0x05, 21, 0x07, 3, 0x08, 1, b'a', 0x0A, 4, 1, 2, 3, 4, 0x0C, 2, 0x0F, 0xA0, 0x21, 1, 0,
            0x12, 1, 1
        ]
    );
}

#[test]
fn data_wire_bytes_are_exact() {
    let data = Data::new(Name::from("/a"), vec![9, 8]).fresh_period(0x0102);
    let wire = data.to_bytes().unwrap();
    assert_eq!(
        wire,
        vec![
            0x06, 22, 0x07, 3, 0x08, 1, b'a', 0x14, 5, 0, 0, 0, 1, 2, 0x15, 2, 9, 8, 0x16, 1, 0,
            0x17, 1, 0
        ]
    );
}

#[test]
fn nack_wire_bytes_are_exact() {
    let interest = Interest::new(Name::from("/a")).with_nonce(1);
    let inner = interest.to_bytes().unwrap();
    let nack = Nack::new(interest, NackReason::NotAuth).with_message("no");
    let wire = nack.to_bytes().unwrap();
    let mut expected = vec![0x03, (inner.len() + 4 + 4) as u8];
    expected.extend_from_slice(&inner);
    expected.extend_from_slice(&[0x0F, 2, 0x01, 0x2C, 0x10, 2, b'n', b'o']);
    assert_eq!(wire, expected);
    let back = Nack::from_bytes(&wire).unwrap();
    assert_eq!(back.reason(), NackReason::NotAuth);
    assert_eq!(back.message(), "no");
}

#[test]
fn decoder_skips_unknown_elements() {
    let wire = vec![
        0x05, 15, 0x07, 3, 0x08, 1, b'a', 0x77, 2, 1, 1, 0x0A, 4, 0, 0, 0, 7,
    ];
    let interest = Interest::from_bytes(&wire).unwrap();
    assert_eq!(interest.nonce(), 7);
    assert_eq!(interest.get_lifetime(), 4000);
    assert!(!interest.allows_prefix());
    assert!(interest.wants_fresh());
}

#[test]
fn decoder_rejects_malformed_packets() {
    assert_eq!(Interest::from_bytes(&[]), Err(Error::Parse));
    assert_eq!(Interest::from_bytes(&[0x05]), Err(Error::Parse));
    assert_eq!(Interest::from_bytes(&[0x06, 3, 0x07, 1, 0]), Err(Error::Parse));
    assert_eq!(Interest::from_bytes(&[0x05, 9, 0x07, 3, 0x08, 1, b'a']), Err(Error::Parse));
    assert_eq!(
        Interest::from_bytes(&[0x05, 7, 0x07, 3, 0x08, 1, b'a', 0x0A, 4]),
        Err(Error::Parse)
    );
    assert_eq!(Data::from_bytes(&[0x05, 2, 0x07, 0]), Err(Error::Parse));
    assert_eq!(Data::from_bytes(&[0x06, 2, 0x08, 0]), Err(Error::Parse));
    assert_eq!(Nack::from_bytes(&[0x03, 2, 0x06, 0]), Err(Error::Parse));
    assert_eq!(Nack::from_bytes(&[0x03, 255]), Err(Error::Parse));
}

#[test]
fn oversized_packets_are_refused() {
    let data = Data::new(Name::from("/big"), vec![0; 65_536]);
    assert_eq!(data.to_bytes(), Err(Error::InvalidArgument));
    let data = Data::new(Name::from("/big"), vec![0; 65_530]);
    assert_eq!(data.to_bytes(), Err(Error::InvalidArgument));
    let data = Data::new(Name::from("/big"), vec![0; 60_000]);
    let wire = data.to_bytes().unwrap();
    assert_eq!(&wire[..2], &[0x06, 253]);
    assert_eq!(Data::from_bytes(&wire).unwrap(), data);
}

#[test]
fn nack_reason_codes() {
    assert_eq!(reason_to_code(NackReason::NoRoute), 100);
    assert_eq!(reason_to_code(NackReason::Congestion), 101);
    assert_eq!(reason_to_code(NackReason::Duplicate), 102);
    assert_eq!(reason_to_code(NackReason::NoResource), 200);
    assert_eq!(reason_to_code(NackReason::NotAuth), 300);
    assert_eq!(reason_to_code(NackReason::Other(7)), 7);
    assert_eq!(reason_from_code(200), NackReason::NoResource);
    assert_eq!(reason_from_code(900), NackReason::Other(900));
    let interest = Interest::new(Name::from("/r"));
    let nack = Nack::new(interest, NackReason::Other(100));
    let back = Nack::from_bytes(&nack.to_bytes().unwrap()).unwrap();
    assert_eq!(back.reason(), NackReason::NoRoute);
}

#[test]
fn nack_text_with_invalid_utf8_is_rendered_with_replacement() {
    let interest = Interest::new(Name::from("/t")).with_nonce(5);
    let mut wire = Nack::new(interest, NackReason::Congestion).to_bytes().unwrap();
    wire.extend_from_slice(&[0x10, 2, 0xFF, b'a']);
    wire[1] += 4;
    let nack = Nack::from_bytes(&wire).unwrap();
    assert_eq!(nack.message_bytes(), &[0xFF, b'a']);
    assert_eq!(nack.message(), "\u{FFFD}a");
}

#[test]
fn test_interest_application_parameters() {
    let name = Name::from("/test/parameters");
    let params = b"application-specific parameters".to_vec();
    let interest = Interest::new(name.clone()).with_application_parameters(params.clone());
    assert!(interest.application_parameters().is_some());
    assert_eq!(interest.application_parameters().unwrap(), params.as_slice());
    let wire_data = interest.to_bytes().unwrap();
    let decoded = Interest::from_bytes(&wire_data).expect("Failed to decode interest");
    assert!(decoded.application_parameters().is_some());
    assert_eq!(decoded.application_parameters().unwrap(), params.as_slice());
    assert_eq!(decoded, interest);
    let interest = Interest::new(name.clone());
    assert!(interest.application_parameters().is_none());
    let decoded = Interest::from_bytes(&interest.to_bytes().unwrap()).unwrap();
    assert!(decoded.application_parameters().is_none());
    let empty = Interest::new(name).with_application_parameters(Vec::new());
    let decoded = Interest::from_bytes(&empty.to_bytes().unwrap()).unwrap();
    assert_eq!(decoded.application_parameters(), Some(&[][..]));
}

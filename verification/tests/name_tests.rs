use std::collections::HashSet;
use udcn_transport::error::Error;
use udcn_transport::name::{Component, Name};

#[test]
fn test_name_creation() {
    let name = Name::from("/test/path");
    assert_eq!(name.to_string(), "/test/path");
    assert_eq!(name.len(), 2);

    let components = vec![Component::from_str("test"), Component::from_str("path")];
    let name = Name::from_components(components);
    assert_eq!(name.to_string(), "/test/path");
    assert_eq!(name.len(), 2);

    let name = Name::new();
    assert_eq!(name.to_string(), "/");
    assert_eq!(name.len(), 0);
    assert!(name.is_empty());
}

#[test]
fn test_name_components() {
    let name = Name::from("/a/b/c");
    assert_eq!(name.get(0).unwrap().value(), b"a");
    assert_eq!(name.get(1).unwrap().value(), b"b");
    assert_eq!(name.get(2).unwrap().value(), b"c");
    assert!(name.get(3).is_none());

    let components: Vec<String> = name.components().iter().map(|c| c.to_string()).collect();
    assert_eq!(components, vec!["a".to_string(), "b".to_string(), "c".to_string()]);

    let first_component_bytes = name.get(0).unwrap().value();
    assert_eq!(first_component_bytes, b"a");
}

#[test]
fn test_name_manipulation() {
    let mut name = Name::from("/test");
    name.push_str("path");
    assert_eq!(name.to_string(), "/test/path");

    let suffix = Name::from("/suffix");
    for c in suffix.components() {
        name.push(c.duplicate());
    }
    assert_eq!(name.to_string(), "/test/path/suffix");

    name.truncate(1);
    assert_eq!(name.to_string(), "/test");

    name.clear();
    assert_eq!(name.to_string(), "/");
    assert!(name.is_empty());
}

#[test]
fn test_name_comparison() {
    let name1 = Name::from("/a/b/c");
    let name2 = Name::from("/a/b/c");
    let name3 = Name::from("/a/b");
    let name4 = Name::from("/a/b/d");

    assert_eq!(name1, name2);
    assert_ne!(name1, name3);
    assert_ne!(name1, name4);
    assert!(name1.same(&name2));
    assert!(!name1.same(&name3));

    assert!(name3 < name1);
    assert!(name1 < name4);
}

#[test]
fn test_name_prefix_matching() {
    let prefix = Name::from("/a/b");
    let name1 = Name::from("/a/b/c");
    let name2 = Name::from("/a/b");
    let name3 = Name::from("/a");
    let name4 = Name::from("/a/c");

    assert!(name1.has_prefix(&prefix));
    assert!(name2.has_prefix(&prefix));
    assert!(!name3.has_prefix(&prefix));
    assert!(!name4.has_prefix(&prefix));

    assert!(prefix.is_prefix_of(&name1));
    assert!(prefix.is_prefix_of(&name2));
    assert!(!prefix.is_prefix_of(&name3));
    assert!(!prefix.is_prefix_of(&name4));

    assert!(name1.starts_with(&prefix));
    assert!(!prefix.starts_with(&name1));
}

#[test]
fn test_name_from_str() {
    let name = Name::from_uri("/test/path").unwrap();
    assert_eq!(name.to_string(), "/test/path");

    let result = Name::from_uri("test/path");
    assert_eq!(result, Err(Error::InvalidArgument));
    assert_eq!(Name::from_uri(""), Err(Error::InvalidArgument));
}

#[test]
fn test_name_to_uri() {
    let name = Name::from("/test/path");
    assert_eq!(name.to_uri(), "ndn:/test/path");

    let name = Name::new();
    assert_eq!(name.to_uri(), "ndn:/");

    let mut name = Name::new();
    name.push_str("with space");
    name.push_str("with/slash");
    name.push_str("with%percent");
    assert_eq!(name.to_uri(), "ndn:/with%20space/with%2Fslash/with%25percent");
}

#[test]
fn test_name_hashing() {
    let mut names = HashSet::new();
    names.insert(Name::from("/a/b"));
    names.insert(Name::from("/a/c"));
    names.insert(Name::from("/b"));

    assert!(names.contains(&Name::from("/a/b")));
    assert!(names.contains(&Name::from("/a/c")));
    assert!(names.contains(&Name::from("/b")));
    assert!(!names.contains(&Name::from("/a")));

    names.insert(Name::from("/a/b"));
    assert_eq!(names.len(), 3);
}

#[test]
fn test_name_with_numeric_components() {
    let name = Name::from("/v1/api/123");
    assert_eq!(name.get(0).unwrap().value(), b"v1");
    assert_eq!(name.get(1).unwrap().value(), b"api");
    assert_eq!(name.get(2).unwrap().value(), b"123");
}

#[test]
fn uri_segments_that_are_empty_are_skipped() {
    let name = Name::from("/a//b/");
    assert_eq!(name.len(), 2);
    assert_eq!(name.get(0).unwrap().value(), b"a");
    assert_eq!(name.get(1).unwrap().value(), b"b");
    assert_eq!(Name::from("/").len(), 0);
}

#[test]
fn name_without_leading_slash_is_empty() {
    assert!(Name::from("nope").is_empty());
}

#[test]
fn unprintable_octets_are_escaped() {
    let mut name = Name::new();
    name.push(Component::new(vec![0x00, 0xFF, b'a', 0x7F]));
    assert_eq!(name.to_string(), "/%00%FFa%7F");
}

#[test]
fn name_tlv_round_trip() {
    let name = Name::from("/udcn/test/x");
    let wire = name.to_tlv().unwrap();
    assert_eq!(
        wire,
        vec![7, 15, 8, 4, b'u', b'd', b'c', b'n', 8, 4, b't', b'e', b's', b't', 8, 1, b'x']
    );
    assert_eq!(Name::from_tlv(&wire).unwrap(), name);
}

#[test]
fn name_tlv_rejects_malformed_input() {
    assert_eq!(Name::from_tlv(&[]), Err(Error::Parse));
    assert_eq!(Name::from_tlv(&[8, 0]), Err(Error::Parse));
    assert_eq!(Name::from_tlv(&[7, 3, 8, 4, b'a']), Err(Error::Parse));
    assert_eq!(Name::from_tlv(&[7, 2, 9, 0]), Err(Error::Parse));
    assert_eq!(Name::from_tlv(&[7, 5, 8, 1]), Err(Error::Parse));
}

#[test]
fn long_component_uses_the_long_length_form() {
    let comp = Component::new(vec![0xAB; 300]);
    let wire = comp.to_tlv().unwrap();
    assert_eq!(&wire[..4], &[8, 253, 1, 44]);
    assert_eq!(wire.len(), 304);
    assert_eq!(Component::from_tlv(&wire).unwrap(), comp);
    let short_in_long_form = [8u8, 253, 0, 1, b'z'];
    assert_eq!(Component::from_tlv(&short_in_long_form).unwrap().value(), b"z");
}

#[test]
fn oversized_component_is_refused() {
    let comp = Component::new(vec![0; 65536]);
    assert_eq!(comp.to_tlv(), Err(Error::InvalidArgument));
    let mut name = Name::new();
    name.push(comp);
    assert_eq!(name.to_tlv(), Err(Error::InvalidArgument));
}

#[test]
fn digest_is_sha256_of_the_component_octets() {
    let name = Name::from("/a/bc");
    let expected: [u8; 32] = [
        0xba, 0x78, 0x16, 0xbf, 0x8f, 0x01, 0xcf, 0xea, 0x41, 0x41, 0x40, 0xde, 0x5d, 0xae, 0x22,
        0x23, 0xb0, 0x03, 0x61, 0xa3, 0x96, 0x17, 0x7a, 0x9c, 0xb4, 0x10, 0xff, 0x61, 0xf2, 0x00,
        0x15, 0xad,
    ];
    assert_eq!(name.digest(), expected);
    assert_eq!(udcn_transport::security::hash_data(b"abc"), expected);
    assert_ne!(Name::from("/a/bd").digest(), expected);
}

#[test]
fn prefix_relation_is_reflexive_and_ordered() {
    let a = Name::from("/a");
    let ab = Name::from("/a/b");
    assert!(a.is_prefix_of(&a));
    assert!(a.is_prefix_of(&ab));
    assert!(!ab.is_prefix_of(&a));
    assert!(Name::new().is_prefix_of(&ab));
}

#[test]
fn names_are_ordered_component_by_component() {
    let names = ["/", "/a", "/a/b", "/a/b/c", "/a/b/d", "/a/c", "/ab", "/b"];
    for (i, x) in names.iter().enumerate() {
        for (j, y) in names.iter().enumerate() {
            let a = Name::from(*x);
            let b = Name::from(*y);
            assert_eq!(a.precedes(&b), i < j, "{} {}", x, y);
            assert_eq!(a < b, i < j, "{} {}", x, y);
        }
    }
}

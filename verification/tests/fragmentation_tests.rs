use udcn_transport::error::Error;
use udcn_transport::fragmentation::{
    Fragment, FragmentHeader, Fragmenter, ReassemblyContext, FRAGMENT_HEADER_SIZE, FRAGMENT_MAGIC,
};
use udcn_transport::name::Name;
use udcn_transport::ndn::Data;

fn feed(fragmenter: &mut Fragmenter, fragments: &[Vec<u8>]) -> Option<Data> {
    let mut out = None;
    for f in fragments {
        if let Some(d) = fragmenter.process_fragment(f, 0).unwrap() {
            out = Some(d);
        }
    }
    out
}

#[test]
fn test_fragment_header() {
    let header = FragmentHeader::new(0x1234, 0x5678, 0x9abc, true);
    let bytes = header.to_bytes();
    assert_eq!(bytes.len(), FRAGMENT_HEADER_SIZE);
    assert_eq!(bytes, vec![0x46, 0x44, 0x12, 0x34, 0xd6, 0x78, 0x9a, 0xbc]);
    let decoded = FragmentHeader::from_bytes(&bytes).unwrap();
    assert_eq!(decoded.magic, FRAGMENT_MAGIC);
    assert_eq!(decoded.is_final, true);
    assert_eq!(decoded.fragment_id, 0x1234);
    assert_eq!(decoded.sequence, 0x5678);
    assert_eq!(decoded.total_fragments, 0x9abc);
    assert_eq!(decoded, header);
}

#[test]
fn test_fragmentation_reassembly() {
    let mut fragmenter = Fragmenter::new(100, 0);
    let name = Name::from_uri("/test/data").unwrap();
    let data = Data::new(name, vec![0u8; 250]);
    let fragments = fragmenter.fragment(&data, 0).unwrap();
    assert!(fragments.len() >= 3);
    let reassembled = feed(&mut fragmenter, &fragments).unwrap();
    assert_eq!(reassembled.name(), data.name());
    assert_eq!(reassembled.content(), data.content());
}

#[test]
fn test_basic_fragmentation() {
    let name = Name::from("/test/large-data");
    let content = vec![0u8; 5000];
    let data = Data::new(name, content.clone());
    let mtu = 1400;
    let mut fragmenter = Fragmenter::new(mtu, 0);
    let encoded = data.to_bytes().unwrap();
    let fragments = fragmenter.fragment(&data, 0).expect("Failed to fragment data");
    assert!(fragments.len() > 1, "Data should be split into multiple fragments");
    assert!(fragments.len() <= (content.len() / (mtu - 100) + 1));
    let payload = mtu - FRAGMENT_HEADER_SIZE;
    assert_eq!(fragments.len(), (encoded.len() + payload - 1) / payload);
    for (i, fragment) in fragments.iter().enumerate() {
        let parsed = Fragment::from_bytes(fragment).unwrap();
        assert!(fragment.len() <= mtu, "Fragment exceeds MTU");
        if i < fragments.len() - 1 {
            assert!(fragment.len() <= mtu, "Fragment exceeds MTU");
            assert!(fragment.len() > mtu - 100, "Fragment is too small");
            assert_eq!(fragment.len(), mtu);
            assert_eq!(parsed.payload.len(), payload);
            assert!(!parsed.header.is_final);
        } else {
            assert!(parsed.header.is_final);
        }
        assert_eq!(parsed.header.sequence as usize, i);
        assert_eq!(parsed.header.total_fragments as usize, fragments.len());
        assert_eq!(parsed.header.fragment_id, 1);
        assert_eq!(&parsed.payload[..], &encoded[i * payload..(i * payload + parsed.payload.len())]);
    }
}

#[test]
fn test_reassembly() {
    let name = Name::from("/test/reassembly");
    let content = vec![1u8; 10000];
    let original_data = Data::new(name.clone(), content.clone());
    let mut fragmenter = Fragmenter::new(1400, 0);
    let fragments = fragmenter.fragment(&original_data, 0).expect("Failed to fragment data");
    assert!(fragments.len() > 1);
    let mut reassembly_complete = false;
    for (i, fragment) in fragments.iter().enumerate() {
        let result = fragmenter.process_fragment(fragment, 0).unwrap();
        if i == fragments.len() - 1 {
            assert!(result.is_some(), "Reassembly should complete with the last fragment");
            reassembly_complete = true;
            let reassembled_data = result.unwrap();
            assert_eq!(reassembled_data.name(), &name);
            assert_eq!(reassembled_data.content().len(), content.len());
            assert_eq!(reassembled_data.content(), original_data.content());
            assert_eq!(reassembled_data, original_data);
        } else {
            assert!(result.is_none(), "Reassembly should not complete before the last fragment");
        }
    }
    assert!(reassembly_complete, "Reassembly should have completed");
    assert_eq!(fragmenter.pending(), 0);
}

#[test]
fn test_out_of_order_reassembly() {
    let name = Name::from("/test/out-of-order");
    let content = vec![2u8; 8000];
    let original_data = Data::new(name.clone(), content.clone());
    let mut fragmenter = Fragmenter::new(1400, 0);
    let fragments = fragmenter.fragment(&original_data, 0).expect("Failed to fragment data");
    assert!(fragments.len() > 1);
    for i in (1..fragments.len()).rev() {
        let result = fragmenter.process_fragment(&fragments[i], 0).unwrap();
        assert!(result.is_none(), "Reassembly should not complete with missing fragments");
    }
    let result = fragmenter.process_fragment(&fragments[0], 0).unwrap();
    assert!(result.is_some(), "Reassembly should complete with all fragments");
    let reassembled_data = result.unwrap();
    assert_eq!(reassembled_data.name(), &name);
    assert_eq!(reassembled_data.content().len(), content.len());
    assert_eq!(reassembled_data.content(), original_data.content());
}

#[test]
fn test_duplicate_fragments() {
    let name = Name::from("/test/duplicates");
    let content = vec![3u8; 5000];
    let original_data = Data::new(name.clone(), content);
    let mut fragmenter = Fragmenter::new(1400, 0);
    let fragments = fragmenter.fragment(&original_data, 0).expect("Failed to fragment data");
    for (i, fragment) in fragments.iter().enumerate() {
        let result1 = fragmenter.process_fragment(fragment, 0).unwrap();
        let result2 = fragmenter.process_fragment(fragment, 0).unwrap();
        if i < fragments.len() - 1 {
            assert!(result1.is_none());
            assert!(result2.is_none(), "Duplicate fragment should be ignored");
        } else {
            assert!(result1.is_some(), "Reassembly should complete with the last fragment");
            assert!(result2.is_none(), "Duplicate of last fragment should be ignored");
            let reassembled_data = result1.unwrap();
            assert_eq!(reassembled_data.content(), original_data.content());
        }
    }
}

#[test]
fn test_partial_reassembly_timeout() {
    let name = Name::from("/test/timeout");
    let original_data = Data::new(name.clone(), vec![4u8; 5000]);
    let mut fragmenter = Fragmenter::new(1400, 0);
    let fragments = fragmenter.fragment(&original_data, 0).expect("Failed to fragment data");
    for i in 0..fragments.len() - 1 {
        let result = fragmenter.process_fragment(&fragments[i], 100).unwrap();
        assert!(result.is_none());
    }
    assert_eq!(fragmenter.pending(), 1);
    assert_eq!(fragmenter.cleanup_stale(30, 130), 0);
    assert_eq!(fragmenter.pending(), 1);
    assert_eq!(fragmenter.cleanup_stale(30, 131), 1);
    assert_eq!(fragmenter.pending(), 0);
    let result = fragmenter.process_fragment(&fragments[fragments.len() - 1], 131).unwrap();
    assert!(result.is_none(), "Reassembly should fail after timeout");
}

#[test]
fn test_multiple_data_reassembly() {
    let name1 = Name::from("/test/multiple/1");
    let content1 = vec![5u8; 3000];
    let data1 = Data::new(name1.clone(), content1.clone());
    let name2 = Name::from("/test/multiple/2");
    let content2 = vec![6u8; 4000];
    let data2 = Data::new(name2.clone(), content2.clone());
    let mut fragmenter = Fragmenter::new(1400, 0);
    let fragments1 = fragmenter.fragment(&data1, 0).expect("Failed to fragment data1");
    let fragments2 = fragmenter.fragment(&data2, 0).expect("Failed to fragment data2");
    let mut interleaved = Vec::new();
    for i in 0..std::cmp::max(fragments1.len(), fragments2.len()) {
        if i < fragments1.len() {
            interleaved.push(fragments1[i].clone());
        }
        if i < fragments2.len() {
            interleaved.push(fragments2[i].clone());
        }
    }
    let mut reassembled1 = false;
    let mut reassembled2 = false;
    for fragment in interleaved {
        let result = fragmenter.process_fragment(&fragment, 0).unwrap();
        if let Some(reassembled) = result {
            if reassembled.name() == &name1 {
                assert!(!reassembled1, "Should only reassemble data1 once");
                assert_eq!(reassembled.content(), content1.as_slice());
                reassembled1 = true;
            } else if reassembled.name() == &name2 {
                assert!(!reassembled2, "Should only reassemble data2 once");
                assert_eq!(reassembled.content(), content2.as_slice());
                reassembled2 = true;
            } else {
                panic!("Reassembled unexpected data");
            }
        }
    }
    assert!(reassembled1, "Should have reassembled data1");
    assert!(reassembled2, "Should have reassembled data2");
}

#[test]
fn test_fragment_serialization() {
    let name = Name::from("/test/serialize");
    let original_data = Data::new(name.clone(), vec![7u8; 100]);
    let mut fragmenter = Fragmenter::new(50, 0);
    let fragments = fragmenter.fragment(&original_data, 0).expect("Failed to fragment data");
    let fragment = Fragment::from_bytes(&fragments[0]).unwrap();
    let wire_data = fragment.to_bytes();
    assert!(!wire_data.is_empty());
    assert_eq!(wire_data, fragments[0]);
    let deserialized = Fragment::from_bytes(&wire_data).expect("Failed to deserialize fragment");
    assert_eq!(deserialized.header.sequence, fragment.header.sequence);
    assert_eq!(deserialized.header.total_fragments, fragment.header.total_fragments);
    assert_eq!(deserialized.payload, fragment.payload);
    assert_eq!(deserialized, fragment);
}

#[test]
fn test_fragment_limits() {
    let name = Name::from("/test/limits");
    let too_large = Data::new(name.clone(), vec![8u8; 100_000]);
    let mut normal_fragmenter = Fragmenter::new(1400, 0);
    assert_eq!(normal_fragmenter.fragment(&too_large, 0), Err(Error::InvalidArgument));

    let data = Data::new(name.clone(), vec![8u8; 65_500]);
    let encoded_len = data.to_bytes().unwrap().len();
    assert!(encoded_len > 65_535);
    let mut tiny_fragmenter = Fragmenter::new(9, 0);
    let result = tiny_fragmenter.fragment(&data, 0);
    assert_eq!(result, Err(Error::InvalidArgument));

    let result = normal_fragmenter.fragment(&data, 0);
    assert!(result.is_ok(), "Fragmentation with normal MTU should succeed");
    let fragments = result.unwrap();
    assert!(fragments.len() < 1000, "Should not create an excessive number of fragments");
    assert_eq!(fragments.len(), (encoded_len + 1391) / 1392);
}

#[test]
fn test_fragment_identification() {
    let name = Name::from("/test/id");
    let data1 = Data::new(name.clone(), vec![1u8; 3000]);
    let data2 = Data::new(name.clone(), vec![2u8; 3000]);
    let mut fragmenter = Fragmenter::new(1400, 0);
    let fragments1 = fragmenter.fragment(&data1, 0).expect("Failed to fragment data1");
    let fragments2 = fragmenter.fragment(&data2, 0).expect("Failed to fragment data2");
    for fragment in &fragments1[0..fragments1.len() - 1] {
        fragmenter.process_fragment(fragment, 0).unwrap();
    }
    let result = fragmenter.process_fragment(&fragments2[fragments2.len() - 1], 0).unwrap();
    assert!(result.is_none(), "Fragment from different content should be ignored");
    let result = fragmenter.process_fragment(&fragments1[fragments1.len() - 1], 0).unwrap();
    assert!(result.is_some(), "Reassembly should complete with the correct last fragment");
    let reassembled = result.unwrap();
    assert_eq!(reassembled.content(), data1.content());
}

#[test]
fn test_variable_mtu() {
    let name = Name::from("/test/variable-mtu");
    let content = vec![9u8; 10000];
    let data = Data::new(name.clone(), content.clone());
    let mut fragmenter1 = Fragmenter::new(1400, 0);
    let fragments1 = fragmenter1.fragment(&data, 0).expect("Failed to fragment with MTU 1400");
    let mut fragmenter2 = Fragmenter::new(4000, 0);
    let fragments2 = fragmenter2.fragment(&data, 0).expect("Failed to fragment with MTU 4000");
    assert!(fragments2.len() < fragments1.len(), "Larger MTU should produce fewer fragments");
    for (i, fragment) in fragments1.iter().enumerate() {
        let result = fragmenter1.process_fragment(fragment, 0).unwrap();
        if i == fragments1.len() - 1 {
            assert_eq!(result.unwrap().content(), content.as_slice());
        } else {
            assert!(result.is_none());
        }
    }
    for (i, fragment) in fragments2.iter().enumerate() {
        let result = fragmenter2.process_fragment(fragment, 0).unwrap();
        if i == fragments2.len() - 1 {
            assert_eq!(result.unwrap().content(), content.as_slice());
        } else {
            assert!(result.is_none());
        }
    }
}

#[test]
fn test_fragment_name_encoding() {
    let name = Name::from("/test/fragment/with/many/components");
    let data = Data::new(name.clone(), vec![10u8; 3000]);
    let mut fragmenter = Fragmenter::new(1400, 0);
    let fragments = fragmenter.fragment(&data, 0).expect("Failed to fragment data");
    let reassembled = feed(&mut fragmenter, &fragments).unwrap();
    assert_eq!(reassembled.name().to_string(), name.to_string());
}

#[test]
fn reassembly_fails_with_one_fragment_missing() {
    let data = Data::new(Name::from("/test/missing"), vec![1u8; 5000]);
    let mut fragmenter = Fragmenter::new(1400, 0);
    let fragments = fragmenter.fragment(&data, 0).unwrap();
    for skip in 0..fragments.len() {
        let mut receiver = Fragmenter::new(1400, 0);
        for (i, f) in fragments.iter().enumerate() {
            if i != skip {
                assert!(receiver.process_fragment(f, 0).unwrap().is_none());
            }
        }
        assert_eq!(receiver.pending(), 1);
    }
}

#[test]
fn fragment_with_wrong_magic_is_refused() {
    let mut fragmenter = Fragmenter::with_default_mtu(0);
    let mut bad = FragmentHeader::new(1, 0, 1, true).to_bytes();
    bad[1] = 0x45;
    bad.push(1);
    assert_eq!(fragmenter.process_fragment(&bad, 0), Err(Error::Parse));
    assert_eq!(fragmenter.process_fragment(&[0x46, 0x44, 0, 0], 0), Err(Error::Parse));
    assert_eq!(FragmentHeader::from_bytes(&bad), Err(Error::Parse));
    assert_eq!(fragmenter.pending(), 0);
}

#[test]
fn fragment_out_of_range_or_conflicting_is_refused() {
    let mut fragmenter = Fragmenter::with_default_mtu(0);
    let mut out_of_range = FragmentHeader::new(7, 3, 3, false).to_bytes();
    out_of_range.push(1);
    assert_eq!(fragmenter.process_fragment(&out_of_range, 0), Err(Error::Parse));
    let mut zero_total = FragmentHeader::new(7, 0, 0, false).to_bytes();
    zero_total.push(1);
    assert_eq!(fragmenter.process_fragment(&zero_total, 0), Err(Error::Parse));

    let mut first = FragmentHeader::new(7, 0, 3, false).to_bytes();
    first.push(1);
    assert_eq!(fragmenter.process_fragment(&first, 0), Ok(None));
    assert_eq!(fragmenter.process_fragment(&first, 0), Ok(None));
    let mut conflicting = FragmentHeader::new(7, 0, 3, false).to_bytes();
    conflicting.push(2);
    assert_eq!(fragmenter.process_fragment(&conflicting, 0), Err(Error::Parse));
    let mut other_total = FragmentHeader::new(7, 1, 4, false).to_bytes();
    other_total.push(2);
    assert_eq!(fragmenter.process_fragment(&other_total, 0), Err(Error::Parse));
    assert_eq!(fragmenter.pending(), 1);
}

#[test]
fn reassembled_octets_that_are_no_data_are_refused() {
    let mut fragmenter = Fragmenter::with_default_mtu(0);
    let mut only = FragmentHeader::new(9, 0, 1, true).to_bytes();
    only.extend_from_slice(&[1, 2, 3]);
    assert_eq!(fragmenter.process_fragment(&only, 0), Err(Error::Parse));
    assert_eq!(fragmenter.pending(), 0);
}

#[test]
fn reassembly_context_collects_in_sequence_order() {
    let mut ctx = ReassemblyContext::new(5, 3, 10);
    assert_eq!(ctx.fragment_id(), 5);
    assert_eq!(ctx.started_at(), 10);
    assert_eq!(ctx.reassemble(), Err(Error::Parse));
    assert_eq!(ctx.add_fragment(2, vec![5, 6]), Ok(()));
    assert_eq!(ctx.add_fragment(0, vec![1, 2]), Ok(()));
    assert!(!ctx.is_complete());
    assert_eq!(ctx.reassemble(), Err(Error::Parse));
    assert_eq!(ctx.add_fragment(3, vec![9]), Err(Error::Parse));
    assert_eq!(ctx.add_fragment(0, vec![1, 2]), Ok(()));
    assert_eq!(ctx.add_fragment(0, vec![1, 3]), Err(Error::Parse));
    assert_eq!(ctx.add_fragment(1, vec![3, 4]), Ok(()));
    assert!(ctx.is_complete());
    assert_eq!(ctx.reassemble(), Ok(vec![1, 2, 3, 4, 5, 6]));
}

#[test]
fn fragment_ids_wrap_around() {
    let data = Data::new(Name::from("/w"), vec![0u8; 20]);
    let mut fragmenter = Fragmenter::new(1400, 0);
    let bytes = data.to_bytes().unwrap();
    let mut last_id = 0;
    for _ in 0..65_536 {
        let frags = fragmenter.split(&bytes).unwrap();
        last_id = FragmentHeader::from_bytes(&frags[0]).unwrap().fragment_id;
    }
    assert_eq!(last_id, 0);
    let frags = fragmenter.split(&bytes).unwrap();
    assert_eq!(FragmentHeader::from_bytes(&frags[0]).unwrap().fragment_id, 1);
}

#[test]
fn mtu_is_raised_to_the_smallest_viable_one() {
    assert_eq!(Fragmenter::new(3, 0).mtu(), 9);
    assert_eq!(Fragmenter::with_default_mtu(0).mtu(), 1400);
    let mut f = Fragmenter::new(1400, 0);
    f.update_mtu(0, 5);
    assert_eq!(f.mtu(), 9);
    f.update_mtu(9000, 5);
    assert_eq!(f.mtu(), 9000);
}

#[test]
fn predicted_mtu_follows_the_95th_percentile() {
    let mut f = Fragmenter::new(1400, 0);
    assert_eq!(f.predict_optimal_mtu(), 1400);
    for size in [300usize, 100, 200] {
        let data = Data::new(Name::from("/p"), vec![0u8; size]);
        f.fragment(&data, 0).unwrap();
    }
    let largest = Data::new(Name::from("/p"), vec![0u8; 300]).to_bytes().unwrap().len();
    assert_eq!(largest, 326);
    assert_eq!(f.predict_optimal_mtu(), 400);
    let mut g = Fragmenter::new(1400, 0);
    g.fragment(&Data::new(Name::from("/p"), vec![0u8; 1]), 0).unwrap();
    assert_eq!(g.predict_optimal_mtu(), 108);
}

#[test]
fn mtu_adapts_only_after_the_interval_and_a_large_enough_change() {
    let mut f = Fragmenter::new(1400, 0);
    let data = Data::new(Name::from("/p"), vec![0u8; 300]);
    f.fragment(&data, 29).unwrap();
    assert_eq!(f.mtu(), 1400);
    f.fragment(&data, 30).unwrap();
    assert_eq!(f.mtu(), 400);
    f.fragment(&data, 100).unwrap();
    assert_eq!(f.mtu(), 400);
}

#[test]
fn fragment_of_a_stale_reassembly_fails_as_timeout() {
    let data = Data::new(Name::from("/test/late"), vec![4u8; 5000]);
    let mut fragmenter = Fragmenter::new(1400, 0);
    assert_eq!(fragmenter.stale_threshold(), 30);
    let fragments = fragmenter.fragment(&data, 0).unwrap();
    assert_eq!(fragmenter.process_fragment(&fragments[0], 100), Ok(None));
    assert_eq!(fragmenter.process_fragment(&fragments[1], 130), Ok(None));
    assert_eq!(fragmenter.process_fragment(&fragments[2], 131), Err(Error::ReassemblyTimeout));
    assert_eq!(fragmenter.pending(), 0);
    fragmenter.set_stale_threshold(5);
    assert_eq!(fragmenter.process_fragment(&fragments[0], 200), Ok(None));
    assert_eq!(fragmenter.process_fragment(&fragments[1], 206), Err(Error::ReassemblyTimeout));
    let mut receiver = Fragmenter::new(1400, 0);
    for f in &fragments[..fragments.len() - 1] {
        assert_eq!(receiver.process_fragment(f, 10), Ok(None));
    }
    assert_eq!(receiver.process_fragment(&fragments[fragments.len() - 1], 40).unwrap().unwrap(), data);
}

#[test]
fn sequence_numbers_have_fifteen_bits() {
    let header = FragmentHeader::new(0xffff, 0x7fff, 0x8000, false);
    let bytes = header.to_bytes();
    assert_eq!(bytes, vec![0x46, 0x44, 0xff, 0xff, 0x7f, 0xff, 0x80, 0x00]);
    assert_eq!(FragmentHeader::from_bytes(&bytes), Ok(header));
    let last = FragmentHeader::new(1, 0x7fff, 0x8000, true);
    assert_eq!(FragmentHeader::from_bytes(&last.to_bytes()), Ok(last));
    let data = Data::new(Name::from("/n"), vec![0u8; 40_000]);
    assert_eq!(Fragmenter::new(9, 0).fragment(&data, 0), Err(Error::InvalidArgument));
    let small = Data::new(Name::from("/n"), vec![0u8; 30_000]);
    let frags = Fragmenter::new(9, 0).fragment(&small, 0).unwrap();
    assert!(frags.iter().all(|f| f.len() == 9));
}

#[test]
fn stale_objects_are_named_when_dropped() {
    let mut receiver = Fragmenter::new(1400, 0);
    let mut sender = Fragmenter::new(1400, 0);
    let a = sender.fragment(&Data::new(Name::from("/a"), vec![1u8; 3000]), 0).unwrap();
    let b = sender.fragment(&Data::new(Name::from("/b"), vec![2u8; 3000]), 0).unwrap();
    let c = sender.fragment(&Data::new(Name::from("/c"), vec![3u8; 3000]), 0).unwrap();
    assert_eq!(receiver.process_fragment(&b[0], 10), Ok(None));
    assert_eq!(receiver.process_fragment(&a[0], 20), Ok(None));
    assert_eq!(receiver.process_fragment(&c[0], 50), Ok(None));
    assert_eq!(receiver.expire_stale(30, 60), vec![1, 2]);
    assert_eq!(receiver.pending(), 1);
    assert_eq!(receiver.expire_stale(30, 60), Vec::<u16>::new());
    assert_eq!(receiver.process_fragment(&a[1], 60), Ok(None));
    assert_eq!(receiver.process_fragment(&a[2], 60), Ok(None));
    assert_eq!(receiver.pending(), 2);
}

use udcn_transport::cache::{ContentStore, DummyCounter, DummyGauge};
use udcn_transport::name::Name;
use udcn_transport::ndn::Data;

#[test]
fn test_content_store_basic() {
    let mut cs = ContentStore::new(10);
    let name = Name::from_uri("/test/data").unwrap();
    let data = Data::new(name.clone(), vec![1, 2, 3, 4]);
    cs.insert(name.clone(), data.clone(), 0);
    let retrieved = cs.get(&name, 0);
    assert!(retrieved.is_some());
    let retrieved_data = retrieved.unwrap();
    assert_eq!(retrieved_data.name(), data.name());
    assert_eq!(retrieved_data.content(), data.content());
}

#[test]
fn test_content_store_expiration() {
    let mut cs = ContentStore::new(10);
    let name = Name::from_uri("/test/data").unwrap();
    let data = Data::new(name.clone(), vec![1, 2, 3, 4]);
    cs.insert_with_ttl(name.clone(), data.clone(), 1, 100);
    assert!(cs.get(&name, 100).is_some());
    assert!(cs.get(&name, 101).is_some());
    assert!(cs.get(&name, 102).is_none());
    assert_eq!(cs.len(), 0);
}

#[test]
fn test_content_store_eviction() {
    let mut cs = ContentStore::new(3);
    let names = vec![
        Name::from_uri("/test/data1").unwrap(),
        Name::from_uri("/test/data2").unwrap(),
        Name::from_uri("/test/data3").unwrap(),
        Name::from_uri("/test/data4").unwrap(),
    ];
    for i in 0..3 {
        let data = Data::new(names[i].clone(), vec![i as u8]);
        cs.insert(names[i].clone(), data, 0);
    }
    for i in 0..3 {
        assert!(cs.get(&names[i], 0).is_some());
    }
    let data = Data::new(names[3].clone(), vec![3]);
    cs.insert(names[3].clone(), data, 0);
    assert!(cs.get(&names[3], 0).is_some());
    assert!(cs.len() == 3);
}

#[test]
fn test_cache_insertion_and_retrieval() {
    let mut cache = ContentStore::new(10);
    let name1 = Name::from("/test/a");
    let content1 = b"content a".to_vec();
    let data1 = Data::new(name1.clone(), content1.clone());
    let name2 = Name::from("/test/b");
    let content2 = b"content b".to_vec();
    let data2 = Data::new(name2.clone(), content2.clone());
    cache.insert(name1.clone(), data1.clone(), 0);
    cache.insert(name2.clone(), data2.clone(), 0);
    let retrieved1 = cache.get(&name1, 0).expect("Data should be in the cache");
    assert_eq!(retrieved1.name(), &name1);
    assert_eq!(retrieved1.content(), content1.as_slice());
    let retrieved2 = cache.get(&name2, 0).expect("Data should be in the cache");
    assert_eq!(retrieved2.name(), &name2);
    assert_eq!(retrieved2.content(), content2.as_slice());
    let name3 = Name::from("/test/c");
    assert!(cache.get(&name3, 0).is_none(), "Data should not be in the cache");
}

#[test]
fn test_cache_eviction() {
    let mut cache = ContentStore::new(2);
    let name1 = Name::from("/test/a");
    let name2 = Name::from("/test/b");
    let name3 = Name::from("/test/c");
    cache.insert(name1.clone(), Data::new(name1.clone(), b"content a".to_vec()), 0);
    cache.insert(name2.clone(), Data::new(name2.clone(), b"content b".to_vec()), 0);
    cache.insert(name3.clone(), Data::new(name3.clone(), b"content c".to_vec()), 0);
    assert_eq!(cache.len(), 2);
    assert!(cache.contains(&name1));
    assert!(!cache.contains(&name2));
    assert!(cache.get(&name3, 0).is_some(), "Third entry should be in cache");
}

#[test]
fn test_cache_update_access_time() {
    let mut cache = ContentStore::new(2);
    let name1 = Name::from("/test/a");
    let name2 = Name::from("/test/b");
    let name3 = Name::from("/test/c");
    cache.insert(name1.clone(), Data::new(name1.clone(), b"content a".to_vec()), 0);
    cache.insert(name2.clone(), Data::new(name2.clone(), b"content b".to_vec()), 0);
    let _ = cache.get(&name1, 0);
    cache.insert(name3.clone(), Data::new(name3.clone(), b"content c".to_vec()), 0);
    assert!(!cache.contains(&name1));
    assert!(cache.contains(&name2));
    assert!(cache.get(&name3, 0).is_some(), "Third entry should be in cache");
}

#[test]
fn test_cache_size() {
    let mut cache = ContentStore::new(5);
    assert_eq!(cache.len(), 0);
    assert!(cache.is_empty());
    for i in 0..3 {
        let name = Name::from(format!("/test/{}", i).as_str());
        let data = Data::new(name.clone(), format!("content {}", i).into_bytes());
        cache.insert(name, data, 0);
    }
    assert_eq!(cache.len(), 3);
    assert!(!cache.is_empty());
    for i in 3..5 {
        let name = Name::from(format!("/test/{}", i).as_str());
        let data = Data::new(name.clone(), format!("content {}", i).into_bytes());
        cache.insert(name, data, 0);
    }
    assert_eq!(cache.len(), 5);
    let name = Name::from("/test/5");
    let data = Data::new(name.clone(), b"content 5".to_vec());
    cache.insert(name, data, 0);
    assert_eq!(cache.len(), 5);
}

#[test]
fn test_cache_clear() {
    let mut cache = ContentStore::new(10);
    for i in 0..5 {
        let name = Name::from(format!("/test/{}", i).as_str());
        let data = Data::new(name.clone(), format!("content {}", i).into_bytes());
        cache.insert(name, data, 0);
    }
    assert_eq!(cache.len(), 5);
    cache.clear();
    assert_eq!(cache.len(), 0);
    assert!(cache.is_empty());
    let name = Name::from("/test/0");
    assert!(cache.get(&name, 0).is_none());
}

#[test]
fn test_cache_remove() {
    let mut cache = ContentStore::new(10);
    for i in 0..5 {
        let name = Name::from(format!("/test/{}", i).as_str());
        let data = Data::new(name.clone(), format!("content {}", i).into_bytes());
        cache.insert(name, data, 0);
    }
    let name = Name::from("/test/2");
    let removed = cache.remove(&name);
    assert!(removed, "Entry should have been removed");
    assert_eq!(cache.len(), 4);
    assert!(cache.get(&name, 0).is_none());
    let name = Name::from("/test/nonexistent");
    let removed = cache.remove(&name);
    assert!(!removed, "Non-existent entry should not report removal");
    assert_eq!(cache.len(), 4);
}

#[test]
fn test_cache_expiration() {
    let mut cache = ContentStore::new(10);
    cache.set_default_ttl(2);
    assert_eq!(cache.default_ttl(), 2);
    let name = Name::from("/test/expiring");
    let data = Data::new(name.clone(), b"expiring content".to_vec());
    cache.insert(name.clone(), data, 10);
    assert!(cache.get(&name, 10).is_some());
    assert!(cache.get(&name, 13).is_none(), "Entry should have expired");
    let name = Name::from("/test/fresh");
    let data = Data::new(name.clone(), b"fresh content".to_vec());
    cache.insert(name.clone(), data, 13);
    assert!(cache.get(&name, 13).is_some(), "Fresh entry should be retrievable");
}

#[test]
fn entry_is_served_until_its_time_to_live_has_passed() {
    let mut cache = ContentStore::new(4);
    let name = Name::from("/ttl");
    cache.insert_with_ttl(name.clone(), Data::new(name.clone(), vec![1]), 5, 1000);
    assert_eq!(cache.get_ttl(&name, 1000), Some(5));
    assert_eq!(cache.get_ttl(&name, 1003), Some(2));
    assert_eq!(cache.get_ttl(&name, 1005), Some(0));
    assert_eq!(cache.get_ttl(&name, 1006), None);
    assert!(cache.get(&name, 1004).is_some());
    assert!(cache.get(&name, 1005).is_some());
    assert!(cache.get(&name, 1006).is_none());
    assert!(!cache.contains(&name));
    assert_eq!(cache.get_ttl(&Name::from("/none"), 0), None);
}

#[test]
fn expire_old_entries_removes_exactly_the_expired() {
    let mut cache = ContentStore::new(10);
    for (i, ttl) in [1u64, 10, 2, 20].iter().enumerate() {
        let name = Name::from(format!("/e/{}", i).as_str());
        cache.insert_with_ttl(name.clone(), Data::new(name, vec![i as u8]), *ttl, 0);
    }
    assert_eq!(cache.expire_old_entries(2), 1);
    assert_eq!(cache.expire_old_entries(5), 1);
    assert_eq!(cache.expire_old_entries(5), 0);
    assert_eq!(cache.len(), 2);
    assert!(cache.contains(&Name::from("/e/1")));
    assert!(cache.contains(&Name::from("/e/3")));
}

#[test]
fn store_never_exceeds_its_capacity() {
    for capacity in [0usize, 1, 2, 7, 25] {
        let mut cache = ContentStore::new(capacity);
        for i in 0..60 {
            let name = Name::from(format!("/c/{}", i % 40).as_str());
            cache.insert(name.clone(), Data::new(name.clone(), vec![i as u8]), 0);
            if i % 3 == 0 {
                let _ = cache.get(&name, 0);
            }
            assert!(cache.len() <= capacity);
        }
    }
}

#[test]
fn reinserting_a_name_replaces_its_entry() {
    let mut cache = ContentStore::new(2);
    let name = Name::from("/r");
    cache.insert(name.clone(), Data::new(name.clone(), vec![1]), 0);
    cache.insert_with_ttl(name.clone(), Data::new(name.clone(), vec![2]), 9, 50);
    assert_eq!(cache.len(), 1);
    assert_eq!(cache.get(&name, 50).unwrap().content(), &[2]);
    assert_eq!(cache.get_ttl(&name, 52), Some(7));
}

#[test]
fn tier_one_decides_the_victim() {
    let mut cache = ContentStore::new(20);
    let names: Vec<Name> = (0..21).map(|i| Name::from(format!("/v/{}", i).as_str())).collect();
    for n in names.iter().take(20) {
        cache.insert(n.clone(), Data::new(n.clone(), vec![0]), 0);
    }
    assert!(cache.get(&names[18], 0).is_some());
    cache.insert(names[20].clone(), Data::new(names[20].clone(), vec![0]), 0);
    assert!(!cache.contains(&names[19]));
    assert!(cache.contains(&names[18]));
    assert!(cache.contains(&names[0]));
    assert_eq!(cache.len(), 20);
}

#[test]
fn default_store_has_the_default_limits() {
    let cache = ContentStore::with_default_capacity();
    assert_eq!(cache.default_ttl(), 3_600_000);
    assert!(cache.is_empty());
    DummyCounter.inc();
    DummyGauge.set_milli(1500);
}

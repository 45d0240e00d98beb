use astarte_core::codec::{decode_stored, encode_individual};
use astarte_core::store::{AstarteDatabase, AstarteError, MemoryStore, StoredProp};
use astarte_core::types::{Aggregation, AstarteType};

#[test]
fn test_db() {
    let mut db = MemoryStore::new();

    let ty = AstarteType::Integer(23);
    let ser = encode_individual(&ty);

    db.clear().unwrap();

    // non existing
    assert_eq!(db.load_prop("com.test", "/test", 1).unwrap(), None);

    db.store_prop("com.test", "/test", &ser, 1).unwrap();
    assert_eq!(db.load_prop("com.test", "/test", 1).unwrap().unwrap(), ty);

    // major version mismatch
    assert_eq!(db.load_prop("com.test", "/test", 2).unwrap(), None);

    // after mismatch the path should be deleted
    assert_eq!(db.load_prop("com.test", "/test", 1).unwrap(), None);

    // delete

    db.store_prop("com.test", "/test", &ser, 1).unwrap();
    assert_eq!(db.load_prop("com.test", "/test", 1).unwrap().unwrap(), ty);

    db.delete_prop("com.test", "/test").unwrap();

    assert_eq!(db.load_prop("com.test", "/test", 1).unwrap(), None);

    // unset

    db.store_prop("com.test", "/test", &ser, 1).unwrap();
    assert_eq!(db.load_prop("com.test", "/test", 1).unwrap().unwrap(), ty);

    db.store_prop("com.test", "/test", &[], 1).unwrap();

    assert_eq!(
        db.load_prop("com.test", "/test", 1).unwrap().unwrap(),
        AstarteType::Unset
    );

    // clear

    db.store_prop("com.test", "/test", &ser, 1).unwrap();
    assert_eq!(db.load_prop("com.test", "/test", 1).unwrap().unwrap(), ty);

    db.clear().unwrap();

    assert_eq!(db.load_prop("com.test", "/test", 1).unwrap(), None);

    // load all props
    db.store_prop("com.test", "/test", &ser, 1).unwrap();
    db.store_prop("com.test2", "/test", &ser, 1).unwrap();
    assert_eq!(
        db.load_all_props().unwrap(),
        vec![
            StoredProp {
                interface: "com.test".into(),
                path: "/test".into(),
                value: ser.clone(),
                interface_major: 1,
            },
            StoredProp {
                interface: "com.test2".into(),
                path: "/test".into(),
                value: ser.clone(),
                interface_major: 1,
            }
        ]
    );
}

#[test]
fn round_trip_all_scalars() {
    let mut db = MemoryStore::new();
    let values = vec![
        AstarteType::Boolean(true),
        AstarteType::Boolean(false),
        AstarteType::Integer(-42),
        AstarteType::Integer(i32::MAX),
        AstarteType::Integer(i32::MIN),
        AstarteType::LongInteger(-1),
        AstarteType::LongInteger(i64::MAX),
        AstarteType::LongInteger(i64::MIN),
        AstarteType::Binary(vec![0, 1, 2, 255]),
        AstarteType::Binary(vec![]),
        AstarteType::Unset,
    ];
    for (n, ty) in values.into_iter().enumerate() {
        let path = format!("/p{}", n);
        let ser = encode_individual(&ty);
        db.store_prop("com.rt", &path, &ser, 7).unwrap();
        assert_eq!(db.load_prop("com.rt", &path, 7).unwrap().unwrap(), ty);
    }
}

#[test]
fn exact_encodings() {
    assert_eq!(encode_individual(&AstarteType::Unset), Vec::<u8>::new());
    assert_eq!(encode_individual(&AstarteType::Boolean(true)), vec![1, 1]);
    assert_eq!(encode_individual(&AstarteType::Boolean(false)), vec![1, 0]);
    assert_eq!(
        encode_individual(&AstarteType::Integer(23)),
        vec![2, 23, 0, 0, 0]
    );
    assert_eq!(
        encode_individual(&AstarteType::Integer(-1)),
        vec![2, 255, 255, 255, 255]
    );
    assert_eq!(
        encode_individual(&AstarteType::LongInteger(258)),
        vec![3, 2, 1, 0, 0, 0, 0, 0, 0]
    );
    assert_eq!(
        encode_individual(&AstarteType::Binary(vec![9, 8])),
        vec![4, 9, 8]
    );
}

#[test]
fn decode_rejects_malformed() {
    assert_eq!(decode_stored(&[0xff]), None);
    assert_eq!(decode_stored(&[1, 2]), None);
    assert_eq!(decode_stored(&[2, 0, 0]), None);
    assert_eq!(decode_stored(&[3, 0]), None);
    assert_eq!(
        decode_stored(&[5, 7]),
        Some(Aggregation::Object(vec![7]))
    );
    assert_eq!(
        decode_stored(&[]),
        Some(Aggregation::Individual(AstarteType::Unset))
    );
}

#[test]
fn load_surfaces_decode_and_invariant_errors() {
    let mut db = MemoryStore::new();

    // A payload that does not decode.
    db.store_prop("com.bad", "/garbage", &[0xff, 1, 2], 1).unwrap();
    match db.load_prop("com.bad", "/garbage", 1) {
        Err(AstarteError::Decode(_)) => {}
        other => panic!("expected a decode error, got {:?}", other),
    }

    // An aggregate payload where only scalars are allowed.
    db.store_prop("com.bad", "/object", &[5, 1, 2], 1).unwrap();
    match db.load_prop("com.bad", "/object", 1) {
        Err(AstarteError::Reported(_)) => {}
        other => panic!("expected an invariant violation, got {:?}", other),
    }
}

#[test]
fn delete_nonexistent_succeeds() {
    let mut db = MemoryStore::new();
    db.delete_prop("com.none", "/missing").unwrap();
    db.store_prop("com.a", "/x", &[1, 1], 1).unwrap();
    db.delete_prop("com.none", "/missing").unwrap();
    assert_eq!(
        db.load_prop("com.a", "/x", 1).unwrap().unwrap(),
        AstarteType::Boolean(true)
    );
}

#[test]
fn clear_wipes_everything() {
    let mut db = MemoryStore::new();
    let ser = encode_individual(&AstarteType::Integer(5));
    db.store_prop("com.a", "/x", &ser, 1).unwrap();
    db.store_prop("com.b", "/y", &ser, 2).unwrap();
    db.clear().unwrap();
    assert_eq!(db.load_all_props().unwrap(), Vec::<StoredProp>::new());
    assert_eq!(db.load_prop("com.a", "/x", 1).unwrap(), None);
    assert_eq!(db.load_prop("com.b", "/y", 2).unwrap(), None);
}

#[test]
fn store_replaces_in_place() {
    let mut db = MemoryStore::new();
    let first = encode_individual(&AstarteType::Integer(1));
    let second = encode_individual(&AstarteType::Integer(2));
    db.store_prop("com.a", "/x", &first, 1).unwrap();
    db.store_prop("com.a", "/x", &second, 3).unwrap();
    let all = db.load_all_props().unwrap();
    assert_eq!(all.len(), 1);
    assert_eq!(all[0].value, second);
    assert_eq!(all[0].interface_major, 3);
    assert_eq!(
        db.load_prop("com.a", "/x", 3).unwrap().unwrap(),
        AstarteType::Integer(2)
    );
}

use symbolserver::error::Error;
use symbolserver::memdb::MemDb;
use symbolserver::sdk::SdkInfo;
use symbolserver::uuids::uuid_to_string;
use symbolserver::writer::Writer;

const U_ARM64: [u8; 16] = [
    0x63, 0xd3, 0x2d, 0xdb, 0x09, 0x5d, 0x39, 0x74, 0xaf, 0xc9, 0x8a, 0x6c, 0xf7, 0xc8, 0xbb, 0xd6,
];
const U_ARMV7: [u8; 16] = [
    0x11, 0x22, 0x33, 0x44, 0x55, 0x66, 0x77, 0x88, 0x99, 0xaa, 0xbb, 0xcc, 0xdd, 0xee, 0xff, 0x00,
];

fn info() -> SdkInfo {
    SdkInfo::from_path("/x/iOS DeviceSupport/10.2.3 (14C93)").unwrap()
}

fn syms(list: &[(u64, &str)]) -> Vec<(u64, String)> {
    list.iter().map(|(a, s)| (*a, s.to_string())).collect()
}

fn foo_bar_db() -> Vec<u8> {
    let mut w = Writer::new(info());
    let s = syms(&[(0x1000, "foo"), (0x1040, "bar")]);
    w.add_variant("System/Library/Foo.dylib", "arm64", &U_ARM64, &s).unwrap();
    w.add_variant("System/Library/Foo.dylib", "armv7", &U_ARMV7, &s).unwrap();
    w.finish().unwrap()
}

fn field(b: &[u8], at: usize) -> usize {
    let mut v: u64 = 0;
    for k in (0..8).rev() {
        v = v * 256 + b[at + k] as u64;
    }
    v as usize
}

#[test]
fn round_trip_single_dylib() {
    let db = MemDb::from_vec(foo_bar_db()).unwrap();
    for u in [U_ARM64, U_ARMV7] {
        let s = db.lookup_by_uuid(&u, 0x1000).unwrap();
        assert_eq!(s.symbol(), "foo");
        assert_eq!(s.object_name(), "System/Library/Foo.dylib");
        assert_eq!(s.object_uuid(), u);
        assert_eq!(s.addr(), 0x1000);
        let s = db.lookup_by_uuid(&u, 0x1040).unwrap();
        assert_eq!(s.symbol(), "bar");
    }
    assert!(db.lookup_by_uuid(&U_ARM64, 0x1020).is_none());
}

#[test]
fn header_carries_sdk_info() {
    let db = MemDb::from_vec(foo_bar_db()).unwrap();
    assert_eq!(db.info().name(), "iOS");
    assert_eq!(db.info().version_major(), 10);
    assert_eq!(db.info().version_minor(), 2);
    assert_eq!(db.info().version_patchlevel(), 3);
    assert_eq!(db.info().build(), "14C93");
}

#[test]
fn exact_address_only() {
    let db = MemDb::from_vec(foo_bar_db()).unwrap();
    assert!(db.lookup_by_uuid(&U_ARM64, 0x1000).is_some());
    assert!(db.lookup_by_uuid(&U_ARM64, 0x0fff).is_none());
    assert!(db.lookup_by_uuid(&U_ARM64, 0x1001).is_none());
}

#[test]
fn unknown_uuid_is_none() {
    let db = MemDb::from_vec(foo_bar_db()).unwrap();
    let other = [7u8; 16];
    assert!(db.lookup_by_uuid(&other, 0x1000).is_none());
    assert!(matches!(db.lookup_impl(&other, 0x1000), Ok(None)));
    assert_eq!(db.find_uuid_fuzzy(&uuid_to_string(&other)).unwrap(), None);
}

#[test]
fn alias_lookup() {
    let db = MemDb::from_vec(foo_bar_db()).unwrap();
    assert_eq!(db.find_uuid_fuzzy("System/Library/Foo.dylib:arm64").unwrap(), Some(U_ARM64));
    assert_eq!(db.find_uuid_fuzzy("System/Library/Foo.dylib:armv7").unwrap(), Some(U_ARMV7));
    assert_eq!(db.find_uuid_fuzzy(&uuid_to_string(&U_ARM64)).unwrap(), Some(U_ARM64));
    assert_eq!(db.find_uuid_fuzzy("System/Library/Foo.dylib:x86_64").unwrap(), None);
    assert_eq!(db.find_uuid_fuzzy("no-colon-here").unwrap(), None);
    let s = db.lookup_by_object_name("System/Library/Foo.dylib", "armv7", 0x1040).unwrap();
    assert_eq!(s.symbol(), "bar");
    assert_eq!(s.object_uuid(), U_ARMV7);
}

#[test]
fn uuid_text_form() {
    assert_eq!(uuid_to_string(&U_ARM64), "63d32ddb-095d-3974-afc9-8a6cf7c8bbd6");
}

#[test]
fn uuid_table_sorted_by_bytes() {
    let b = foo_bar_db();
    let start = field(&b, 32);
    assert_eq!(field(&b, 40), 2);
    assert_eq!(&b[start..start + 16], &U_ARMV7[..]);
    assert_eq!(&b[start + 20..start + 36], &U_ARM64[..]);
}

#[test]
fn version_rejection() {
    for v in [0u8, 2u8] {
        let mut b = foo_bar_db();
        b[0] = v;
        assert!(matches!(MemDb::from_vec(b), Err(Error::UnsupportedMemDbVersion)));
    }
    assert!(matches!(MemDb::from_vec(vec![1, 0, 0, 0]), Err(Error::BadMemDb)));
}

#[test]
fn index_out_of_bounds_is_bad_memdb() {
    let mut b = foo_bar_db();
    let vs = field(&b, 48);
    b[vs + 2] = 0xff;
    b[vs + 3] = 0xff;
    let db = MemDb::from_vec(b).unwrap();
    assert!(matches!(db.lookup_impl(&U_ARMV7, 0x1000), Err(Error::BadMemDb)));
    assert!(db.lookup_by_uuid(&U_ARMV7, 0x1000).is_none());
    assert!(matches!(db.iter_symbols(&U_ARMV7), Err(Error::BadMemDb)));
}

#[test]
fn first_symbol_at_an_address_wins() {
    let mut w = Writer::new(info());
    let s = syms(&[(0x2000, "second"), (0x1000, "first"), (0x2000, "later")]);
    w.add_variant("a.dylib", "arm64", &U_ARM64, &s).unwrap();
    let db = MemDb::from_vec(w.finish().unwrap()).unwrap();
    assert_eq!(db.lookup_by_uuid(&U_ARM64, 0x2000).unwrap().symbol(), "second");
    let all = db.iter_symbols(&U_ARM64).unwrap();
    let addrs: Vec<u64> = all.iter().map(|s| s.addr()).collect();
    assert_eq!(addrs, vec![0x1000, 0x2000]);
    assert!(db.iter_symbols(&U_ARMV7).unwrap().is_empty());
}

#[test]
fn same_uuid_last_wins() {
    let mut w = Writer::new(info());
    w.add_variant("a.dylib", "arm64", &U_ARM64, &syms(&[(0x10, "old")])).unwrap();
    w.add_variant("b.dylib", "arm64", &U_ARM64, &syms(&[(0x10, "new")])).unwrap();
    assert_eq!(w.image_count(), 1);
    let db = MemDb::from_vec(w.finish().unwrap()).unwrap();
    let s = db.lookup_by_uuid(&U_ARM64, 0x10).unwrap();
    assert_eq!(s.symbol(), "new");
    assert_eq!(s.object_name(), "b.dylib");
}

#[test]
fn address_overflow_rejected() {
    let mut w = Writer::new(info());
    let r = w.add_variant("a.dylib", "arm64", &U_ARM64, &syms(&[(1u64 << 40, "big")]));
    assert!(matches!(r, Err(Error::AddressOverflow(_))));
    assert_eq!(w.image_count(), 0);
    let r = w.add_variant("a.dylib", "arm64", &U_ARM64, &syms(&[((1u64 << 40) - 1, "top")]));
    assert!(r.is_ok());
}

#[test]
fn symbol_strings_are_interned() {
    let mut w = Writer::new(info());
    let s = syms(&[(0x1000, "foo"), (0x1040, "bar")]);
    w.add_variant("x", "arm64", &U_ARM64, &s).unwrap();
    w.add_variant("x", "armv7", &U_ARMV7, &s).unwrap();
    assert_eq!(w.symbol_count(), 2);
}

#[test]
fn compressed_string_is_bad_memdb() {
    let mut b = foo_bar_db();
    let ss = field(&b, 64);
    b[ss + 7] |= 0x80;
    let db = MemDb::from_vec(b).unwrap();
    assert!(matches!(db.lookup_impl(&U_ARMV7, 0x1000), Err(Error::BadMemDb)));
}

#[test]
fn non_ascii_names_round_trip() {
    let mut w = Writer::new(info());
    let s = syms(&[(0x40, "café_ß"), (0x10, "π")]);
    w.add_variant("Bibliothèque.dylib", "arm64", &U_ARM64, &s).unwrap();
    let bytes = w.finish().unwrap();
    let db = MemDb::from_slice(&bytes).unwrap();
    let a = db.lookup_by_uuid(&U_ARM64, 0x40).unwrap();
    assert_eq!(a.symbol(), "café_ß");
    assert_eq!(a.object_name(), "Bibliothèque.dylib");
    assert_eq!(db.lookup_by_uuid(&U_ARM64, 0x10).unwrap().symbol(), "π");
    assert_eq!(db.find_uuid_fuzzy("Bibliothèque.dylib:arm64").unwrap(), Some(U_ARM64));
}

#[test]
fn bad_utf8_symbol_is_bad_memdb() {
    let mut b = foo_bar_db();
    let ss = field(&b, 64);
    let mut off: u64 = 0;
    for k in (0..5).rev() {
        off = off * 256 + b[ss + k] as u64;
    }
    b[off as usize] = 0xff;
    let db = MemDb::from_vec(b).unwrap();
    assert!(matches!(db.lookup_impl(&U_ARMV7, 0x1000), Err(Error::BadMemDb)));
}

#[test]
fn writer_table_full_and_success() {
    let mut w = Writer::new(info());
    assert!(w.add_variant("a", "arm64", &U_ARM64, &syms(&[])).is_ok());
    assert!(w.finish().is_ok());
}

#[test]
fn unreadable_sdk_strings_read_as_empty() {
    let mut b = foo_bar_db();
    b[16] = 0xff;
    b[17] = 0xff;
    b[18] = 0xff;
    b[19] = 0xff;
    let db = MemDb::from_vec(b).unwrap();
    assert_eq!(db.info().name(), "");
    assert_eq!(db.info().build(), "14C93");
    assert_eq!(db.lookup_by_uuid(&U_ARM64, 0x1000).unwrap().symbol(), "foo");
}

#[test]
fn other_uuid_text_forms() {
    let db = MemDb::from_vec(foo_bar_db()).unwrap();
    assert_eq!(db.find_uuid_fuzzy("63D32DDB-095D-3974-AFC9-8A6CF7C8BBD6").unwrap(), Some(U_ARM64));
    assert_eq!(db.find_uuid_fuzzy("63d32ddb095d3974afc98a6cf7c8bbd6").unwrap(), Some(U_ARM64));
    assert_eq!(db.find_uuid_fuzzy("{63d32ddb-095d-3974-afc9-8a6cf7c8bbd6}").unwrap(), Some(U_ARM64));
    assert_eq!(db.find_uuid_fuzzy("urn:uuid:63d32ddb-095d-3974-afc9-8a6cf7c8bbd6").unwrap(), Some(U_ARM64));
    assert_eq!(db.find_uuid_fuzzy("00000000-0000-0000-0000-000000000000").unwrap(), None);
}

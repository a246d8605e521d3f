use pk2::format::entry::{
    DirectoryOrFile, NonEmptyEntry, PK2_FILE_ENTRY_SIZE, PackEntry, RawPackFileEntry, TY_DIRECTORY,
    TY_FILE, InvalidPackEntryType,
};
use pk2::{BlockOffset, ChainOffset, FILETIME, StreamOffset};

fn raw(ty: u8, position: u64, size: u32, next_block: u64) -> RawPackFileEntry {
    let mut entry = RawPackFileEntry {
        ty,
        name: [0; 81],
        access: FILETIME::default(),
        create: FILETIME::default(),
        modify: FILETIME::default(),
        position,
        size,
        next_block,
        padding: [0, 0],
    };
    entry.name[..6].copy_from_slice(b"foobar");
    entry
}

#[test]
fn entry_pack_entry_read_empty() {
    let mut buf = [0u8; PK2_FILE_ENTRY_SIZE];
    assert_eq!(PackEntry::parse(&buf).unwrap(), PackEntry::new_empty(None));
    buf[PK2_FILE_ENTRY_SIZE - 10..][..8].copy_from_slice(&u64::to_le_bytes(1337));

    assert_eq!(PackEntry::parse(&buf).unwrap(), PackEntry::new_empty(BlockOffset::new(1337)));
}

#[test]
fn entry_pack_entry_read_directory() {
    let entry = raw(TY_DIRECTORY, 12345, 0, 63459);
    assert_eq!(
        PackEntry::parse(&entry.to_bytes()).unwrap(),
        PackEntry {
            entry: Some(NonEmptyEntry {
                kind: DirectoryOrFile::Directory { pos_children: ChainOffset::new(12345).unwrap() },
                name: "foobar".into(),
                access_time: FILETIME::default(),
                create_time: FILETIME::default(),
                modify_time: FILETIME::default(),
            }),
            next_block: BlockOffset::new(63459)
        }
    );
}

#[test]
fn entry_pack_entry_read_file() {
    let entry = raw(TY_FILE, 12345, 10000, 63459);
    assert_eq!(
        PackEntry::parse(&entry.to_bytes()).unwrap(),
        PackEntry {
            entry: Some(NonEmptyEntry {
                kind: DirectoryOrFile::File {
                    pos_data: StreamOffset::new(12345).unwrap(),
                    size: 10000
                },
                name: "foobar".into(),
                access_time: FILETIME::default(),
                create_time: FILETIME::default(),
                modify_time: FILETIME::default(),
            }),
            next_block: BlockOffset::new(63459)
        }
    );
}

#[test]
fn parse_rejects_unknown_type_byte() {
    let entry = raw(3, 12345, 0, 0);
    assert_eq!(PackEntry::parse(&entry.to_bytes()), Err(InvalidPackEntryType(3)));
}

#[test]
fn parse_rejects_zero_position() {
    let entry = raw(TY_FILE, 0, 10, 0);
    assert_eq!(PackEntry::parse(&entry.to_bytes()), Err(InvalidPackEntryType(TY_FILE)));
}

#[test]
fn raw_entry_layout() {
    let entry = raw(TY_FILE, 0x0102_0304_0506_0708, 0x0A0B_0C0D, 0x1112_1314_1516_1718);
    let b = entry.to_bytes();
    assert_eq!(b[0], TY_FILE);
    assert_eq!(&b[1..7], b"foobar");
    assert_eq!(&b[106..114], &[8, 7, 6, 5, 4, 3, 2, 1]);
    assert_eq!(&b[114..118], &[0x0D, 0x0C, 0x0B, 0x0A]);
    assert_eq!(&b[118..126], &[0x18, 0x17, 0x16, 0x15, 0x14, 0x13, 0x12, 0x11]);
}

#[test]
fn write_then_parse_gives_back_the_entry() {
    let times = FILETIME::from_tick_count(0x0123_4567_89AB_CDEF);
    let mut e = PackEntry::new_file("data.bin", StreamOffset::new(4096).unwrap(), 77, BlockOffset::new(9000));
    if let Some(ne) = e.as_non_empty_mut() {
        ne.access_time = times;
    }
    let mut buf = [0u8; PK2_FILE_ENTRY_SIZE];
    e.write_to(&mut buf);
    assert_eq!(PackEntry::parse(&buf).unwrap(), e);

    let d = PackEntry::new_directory("dir", ChainOffset::new(2816).unwrap(), None);
    let mut buf = [0u8; PK2_FILE_ENTRY_SIZE];
    d.write_to(&mut buf);
    assert_eq!(PackEntry::parse(&buf).unwrap(), d);
}

#[test]
fn euc_kr_name_roundtrip() {
    let e = PackEntry::new_file("\u{d55c}\u{ae00}.txt", StreamOffset::new(300).unwrap(), 1, None);
    let mut buf = [0u8; PK2_FILE_ENTRY_SIZE];
    e.write_to(&mut buf);
    assert_eq!(&buf[1..5], &[0xC7, 0xD1, 0xB1, 0xDB]);
    assert_eq!(&buf[5..9], b".txt");
    assert_eq!(buf[9], 0);
    assert_eq!(PackEntry::parse(&buf).unwrap().name(), Some("\u{d55c}\u{ae00}.txt"));
}

#[test]
fn empty_entry_writes_zeroes_and_link() {
    let e = PackEntry::new_empty(BlockOffset::new(0x1234));
    let mut buf = [0xAAu8; PK2_FILE_ENTRY_SIZE];
    e.write_to(&mut buf);
    assert_eq!(buf[0], 0);
    assert_eq!(&buf[118..126], &u64::to_le_bytes(0x1234));
    assert_eq!(PackEntry::parse(&buf).unwrap(), e);
}

#[test]
fn entry_accessors() {
    let mut f = PackEntry::new_file("Readme.TXT", StreamOffset::new(500).unwrap(), 12, None);
    assert!(f.is_file());
    assert!(!f.is_directory());
    assert!(!f.is_empty());
    assert!(f.name_eq_ignore_ascii_case("readme.txt"));
    assert!(!f.name_eq_ignore_ascii_case("readme.tx"));
    assert_eq!(f.children(), None);
    assert_eq!(f.as_non_empty().unwrap().file_data(), Some((StreamOffset::new(500).unwrap(), 12)));
    f.set_next_block(BlockOffset::new(777).unwrap());
    assert_eq!(f.next_block(), BlockOffset::new(777));
    let old = f.clear();
    assert!(old.is_file());
    assert!(f.is_empty());
    assert_eq!(f.next_block(), BlockOffset::new(777));
    assert_eq!(f.name(), None);

    let d = PackEntry::new_directory("dir", ChainOffset::new(2816).unwrap(), None);
    assert!(d.is_directory());
    assert_eq!(d.children(), ChainOffset::new(2816));
    assert_eq!(d.as_non_empty().unwrap().directory_children_offset(), ChainOffset::new(2816));
}

#[test]
fn set_name_and_file_data() {
    let mut f = PackEntry::new_file("a", StreamOffset::new(500).unwrap(), 12, None);
    let ne = f.as_non_empty_mut().unwrap();
    assert_eq!(ne.set_name("b"), Ok(()));
    assert_eq!(ne.set_name(&"x".repeat(82)), Err(()));
    assert_eq!(ne.name(), "b");
    assert_eq!(ne.set_file_data(StreamOffset::new(900).unwrap(), 3), Ok(()));
    assert_eq!(ne.file_data(), Some((StreamOffset::new(900).unwrap(), 3)));

    let mut d = PackEntry::new_directory("d", ChainOffset::new(2816).unwrap(), None);
    let nd = d.as_non_empty_mut().unwrap();
    assert_eq!(nd.set_file_data(StreamOffset::new(900).unwrap(), 3), Err(()));
    assert!(nd.is_directory());
}

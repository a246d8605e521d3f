use pk2::blowfish::Blowfish;
use pk2::format::block_chain::{PK2_FILE_BLOCK_SIZE, PackBlock};
use pk2::format::entry::{PK2_FILE_ENTRY_SIZE, PackEntry};
use pk2::io::{allocate_empty_block, append_data, write_block, write_entry_at};
use pk2::{BlockOffset, ChainOffset, StreamOffset};

#[test]
fn append_data_lands_at_the_end() {
    let (offset, w) = append_data(4096, b"hello").unwrap();
    assert_eq!(offset, StreamOffset(4096));
    assert_eq!(w.offset, 4096);
    assert_eq!(w.data, b"hello");
    assert!(append_data(0, b"x").is_none());
}

#[test]
fn written_entry_is_encrypted_entry_bytes() {
    let bf = Blowfish::new(b"169841").unwrap();
    let e = PackEntry::new_directory("d", ChainOffset(5000), None);
    let mut plain = [0u8; PK2_FILE_ENTRY_SIZE];
    e.write_to(&mut plain);

    let w = write_entry_at(None, StreamOffset(300), &e);
    assert_eq!(w.offset, 300);
    assert_eq!(w.data, plain);

    let w = write_entry_at(Some(&bf), StreamOffset(300), &e);
    assert_ne!(w.data, plain);
    let mut back = w.data.clone();
    bf.decrypt(&mut back).unwrap();
    assert_eq!(back, plain);
}

#[test]
fn written_block_is_encrypted_block_bytes() {
    let bf = Blowfish::new(b"key1").unwrap();
    let mut block = PackBlock::default();
    block.set(4, PackEntry::new_directory("x", ChainOffset(9000), None));
    let mut plain = [0u8; PK2_FILE_BLOCK_SIZE];
    block.write_to(&mut plain);
    let w = write_block(Some(&bf), BlockOffset(2816), &block);
    assert_eq!(w.offset, 2816);
    let mut back = w.data.clone();
    bf.decrypt(&mut back).unwrap();
    assert_eq!(back, plain);
}

#[test]
fn empty_block_allocation() {
    let (offset, block, w) = allocate_empty_block(None, 9000).unwrap();
    assert_eq!(offset, BlockOffset(9000));
    assert!(block.entries().iter().all(|e| e.is_empty() && e.next_block().is_none()));
    assert_eq!(w.offset, 9000);
    assert_eq!(w.data, vec![0u8; PK2_FILE_BLOCK_SIZE]);
    assert!(allocate_empty_block(None, 0).is_none());
}

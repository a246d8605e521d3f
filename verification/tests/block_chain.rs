use pk2::format::block_chain::{PK2_FILE_BLOCK_SIZE, PackBlock, PackBlockChain};
use pk2::format::entry::PackEntry;
use pk2::{BlockOffset, ChainLookupError, ChainOffset, StreamOffset};

#[test]
fn pack_block_parse_empty_block() {
    let buffer = [0u8; PK2_FILE_BLOCK_SIZE];
    let block = PackBlock::parse(&buffer).unwrap();
    for entry in block.entries() {
        assert!(entry.is_empty());
    }
}

#[test]
fn pack_block_write_read_roundtrip() {
    let mut block = PackBlock::default();

    block.set(0, PackEntry::new_directory("testdir", ChainOffset::new(1000).unwrap(), None));
    block.set(1, PackEntry::new_file("testfile.txt", StreamOffset::new(2000).unwrap(), 500, None));
    block.set(19, PackEntry::new_empty(BlockOffset::new(5000)));

    let mut buffer = [0u8; PK2_FILE_BLOCK_SIZE];
    block.write_to(&mut buffer);

    let parsed = PackBlock::parse(&buffer).unwrap();

    assert!(parsed.get(0).unwrap().is_directory());
    assert_eq!(parsed.get(0).unwrap().name(), Some("testdir"));
    assert!(parsed.get(1).unwrap().is_file());
    assert_eq!(parsed.get(1).unwrap().name(), Some("testfile.txt"));
    assert!(parsed.get(2).unwrap().is_empty());
    assert_eq!(parsed.get(19).unwrap().next_block(), BlockOffset::new(5000));
}

#[test]
fn pack_block_chain_chain_index() {
    let block = PackBlock::default();
    let offset = BlockOffset::new(1234).unwrap();
    let chain = PackBlockChain::from_blocks(vec![(offset, block)]);

    assert_eq!(chain.chain_index(), ChainOffset::new(1234).unwrap());
}

#[test]
fn pack_block_chain_get_entry() {
    let mut block = PackBlock::default();
    block.set(5, PackEntry::new_file("test", StreamOffset::new(100).unwrap(), 50, None));

    let chain = PackBlockChain::from_blocks(vec![(BlockOffset::new(256).unwrap(), block)]);

    let entry = chain.get(5);
    assert!(entry.is_some());
    assert_eq!(entry.unwrap().name(), Some("test"));
}

#[test]
fn pack_block_chain_get_entry_across_blocks() {
    let mut block1 = PackBlock::default();
    let mut block2 = PackBlock::default();

    block1.set(0, PackEntry::new_file("first", StreamOffset::new(100).unwrap(), 10, None));
    block2.set(0, PackEntry::new_file("second", StreamOffset::new(200).unwrap(), 20, None));

    let chain = PackBlockChain::from_blocks(vec![
        (BlockOffset::new(256).unwrap(), block1),
        (BlockOffset::new(3000).unwrap(), block2),
    ]);

    assert_eq!(chain.get(0).unwrap().name(), Some("first"));
    assert_eq!(chain.get(20).unwrap().name(), Some("second"));
}

#[test]
fn pack_block_chain_get_entry_out_of_bounds() {
    let block = PackBlock::default();
    let chain = PackBlockChain::from_blocks(vec![(BlockOffset::new(256).unwrap(), block)]);

    assert!(chain.get(20).is_none());
    assert!(chain.get(100).is_none());
}

#[test]
fn pack_block_chain_get_mut() {
    let block = PackBlock::default();
    let mut chain = PackBlockChain::from_blocks(vec![(BlockOffset::new(256).unwrap(), block)]);

    {
        let entry = chain.get_mut(3).unwrap();
        *entry = PackEntry::new_file("modified", StreamOffset::new(999).unwrap(), 100, None);
    }

    assert_eq!(chain.get(3).unwrap().name(), Some("modified"));
}

#[test]
fn pack_block_chain_contains_entry_index() {
    let block = PackBlock::default();
    let chain = PackBlockChain::from_blocks(vec![(BlockOffset::new(256).unwrap(), block)]);

    assert!(chain.contains_entry_index(0));
    assert!(chain.contains_entry_index(19));
    assert!(!chain.contains_entry_index(20));
    assert!(!chain.contains_entry_index(100));
}

#[test]
fn pack_block_chain_stream_offset_for_entry() {
    let block = PackBlock::default();
    let base_offset = BlockOffset::new(256).unwrap();
    let chain = PackBlockChain::from_blocks(vec![(base_offset, block)]);

    assert_eq!(chain.stream_offset_for_entry(0), Some(StreamOffset::new(256).unwrap()));
    assert_eq!(chain.stream_offset_for_entry(1), Some(StreamOffset::new(384).unwrap()));
    assert_eq!(chain.stream_offset_for_entry(5), Some(StreamOffset::new(896).unwrap()));
    assert!(chain.stream_offset_for_entry(20).is_none());
}

#[test]
fn pack_block_chain_stream_offset_for_entry_multi_block() {
    let block1 = PackBlock::default();
    let block2 = PackBlock::default();
    let offset1 = BlockOffset::new(256).unwrap();
    let offset2 = BlockOffset::new(5000).unwrap();

    let chain = PackBlockChain::from_blocks(vec![(offset1, block1), (offset2, block2)]);

    assert_eq!(chain.stream_offset_for_entry(0), Some(StreamOffset::new(256).unwrap()));
    assert_eq!(chain.stream_offset_for_entry(20), Some(StreamOffset::new(5000).unwrap()));
    assert_eq!(chain.stream_offset_for_entry(21), Some(StreamOffset::new(5128).unwrap()));
}

#[test]
fn pack_block_chain_find_block_chain_index_of() {
    let mut block = PackBlock::default();
    let child_chain = ChainOffset::new(9999).unwrap();
    block.set(3, PackEntry::new_directory("subdir", child_chain, None));

    let chain = PackBlockChain::from_blocks(vec![(BlockOffset::new(256).unwrap(), block)]);

    assert_eq!(chain.find_block_chain_index_of("subdir"), Ok(child_chain));
}

#[test]
fn pack_block_chain_find_block_chain_index_of_case_insensitive() {
    let mut block = PackBlock::default();
    let child_chain = ChainOffset::new(9999).unwrap();
    block.set(3, PackEntry::new_directory("SubDir", child_chain, None));

    let chain = PackBlockChain::from_blocks(vec![(BlockOffset::new(256).unwrap(), block)]);

    assert_eq!(chain.find_block_chain_index_of("subdir"), Ok(child_chain));
    assert_eq!(chain.find_block_chain_index_of("SUBDIR"), Ok(child_chain));
    assert_eq!(chain.find_block_chain_index_of("SubDir"), Ok(child_chain));
}

#[test]
fn pack_block_chain_find_block_chain_index_of_not_found() {
    let block = PackBlock::default();
    let chain = PackBlockChain::from_blocks(vec![(BlockOffset::new(256).unwrap(), block)]);

    assert_eq!(chain.find_block_chain_index_of("nonexistent"), Err(ChainLookupError::NotFound));
}

#[test]
fn pack_block_chain_find_block_chain_index_of_file_not_directory() {
    let mut block = PackBlock::default();
    block.set(0, PackEntry::new_file("myfile", StreamOffset::new(100).unwrap(), 50, None));

    let chain = PackBlockChain::from_blocks(vec![(BlockOffset::new(256).unwrap(), block)]);

    assert_eq!(chain.find_block_chain_index_of("myfile"), Err(ChainLookupError::NotFound));
}

#[test]
fn pack_block_chain_last_entry_mut() {
    let block = PackBlock::default();
    let mut chain = PackBlockChain::from_blocks(vec![(BlockOffset::new(256).unwrap(), block)]);

    let last = chain.last_entry_mut();
    *last = PackEntry::new_file("last", StreamOffset::new(999).unwrap(), 1, None);

    assert_eq!(chain.get(19).unwrap().name(), Some("last"));
}

#[test]
fn pack_block_chain_push_and_link() {
    let mut block1 = PackBlock::default();
    block1.set(0, PackEntry::new_file("first", StreamOffset::new(100).unwrap(), 10, None));

    let mut chain = PackBlockChain::from_blocks(vec![(BlockOffset::new(256).unwrap(), block1)]);

    let mut block2 = PackBlock::default();
    block2.set(0, PackEntry::new_file("second", StreamOffset::new(200).unwrap(), 20, None));
    let new_offset = BlockOffset::new(5000).unwrap();

    chain.push_and_link(new_offset, block2);

    assert_eq!(chain.num_entries(), 40);
    assert_eq!(chain.get(19).unwrap().next_block(), Some(new_offset));
    assert_eq!(chain.get(20).unwrap().name(), Some("second"));
}

#[test]
fn block_parse_reports_first_bad_entry() {
    let mut buffer = [0u8; PK2_FILE_BLOCK_SIZE];
    buffer[3 * 128] = 9;
    buffer[7 * 128] = 5;
    assert_eq!(PackBlock::parse(&buffer).unwrap_err().0, 9);
}

#[test]
fn block_write_places_each_entry_in_its_slot() {
    let mut block = PackBlock::default();
    block.set(7, PackEntry::new_file("x", StreamOffset::new(300).unwrap(), 1, None));
    let mut buffer = [0u8; PK2_FILE_BLOCK_SIZE];
    block.write_to(&mut buffer);
    assert_eq!(buffer[7 * 128], 2);
    assert_eq!(buffer[7 * 128 + 1], b'x');
    assert!(buffer[..7 * 128].iter().all(|b| *b == 0));
    assert!(buffer[8 * 128..].iter().all(|b| *b == 0));
}

#[test]
fn push_keeps_linked_block() {
    let mut block1 = PackBlock::default();
    block1.set(19, PackEntry::new_empty(BlockOffset::new(5000)));
    let mut chain = PackBlockChain::from_blocks(vec![(BlockOffset::new(256).unwrap(), block1)]);
    chain.push(BlockOffset::new(5000).unwrap(), PackBlock::default());
    assert_eq!(chain.num_entries(), 40);
    assert_eq!(chain.stream_offset_for_entry(39), Some(StreamOffset::new(5000 + 19 * 128).unwrap()));
    assert_eq!(chain.entries().len(), 40);
}

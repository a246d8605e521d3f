use pk2::format::block_chain::{PK2_FILE_BLOCK_SIZE, PackBlock, PackBlockChain};
use pk2::format::chain_index::{ChainIndex, ChainIndexParser, PK2_ROOT_OFFSET};
use pk2::format::entry::PackEntry;
use pk2::{BlockOffset, ChainLookupError, ChainOffset, StreamOffset};

const PK2_ROOT_CHAIN_OFFSET: ChainOffset = ChainOffset(PK2_ROOT_OFFSET);
const PK2_ROOT_BLOCK_OFFSET: BlockOffset = BlockOffset(PK2_ROOT_OFFSET);

fn make_empty_block() -> PackBlock {
    PackBlock::default()
}

fn make_root_block_with_entries(entries: Vec<(usize, PackEntry)>) -> PackBlock {
    let mut block = PackBlock::default();
    block.set(0, PackEntry::new_directory(".", ChainOffset::new(256).unwrap(), None));
    block.set(1, PackEntry::new_directory("..", ChainOffset::new(256).unwrap(), None));
    for (idx, entry) in entries {
        block.set(idx, entry);
    }
    block
}

fn dir_block(own: ChainOffset, parent: ChainOffset, extra: Vec<(usize, PackEntry)>) -> PackBlock {
    let mut block = make_empty_block();
    block.set(0, PackEntry::new_directory(".", own, None));
    block.set(1, PackEntry::new_directory("..", parent, None));
    for (idx, entry) in extra {
        block.set(idx, entry);
    }
    block
}

fn single(offset: u64, block: PackBlock) -> PackBlockChain {
    PackBlockChain::from_blocks(vec![(BlockOffset::new(offset).unwrap(), block)])
}

/// root -> dir1 (5000) -> dir2 (8000)
fn nested_index() -> (ChainIndex, ChainOffset, ChainOffset) {
    let mut index = ChainIndex::new();
    let dir1_offset = ChainOffset::new(5000).unwrap();
    let dir2_offset = ChainOffset::new(8000).unwrap();
    let root_block =
        make_root_block_with_entries(vec![(2, PackEntry::new_directory("dir1", dir1_offset, None))]);
    let dir1_block = dir_block(
        dir1_offset,
        PK2_ROOT_CHAIN_OFFSET,
        vec![(2, PackEntry::new_directory("dir2", dir2_offset, None))],
    );
    index.insert(PK2_ROOT_CHAIN_OFFSET, PackBlockChain::from_blocks(vec![(PK2_ROOT_BLOCK_OFFSET, root_block)]));
    index.insert(dir1_offset, single(5000, dir1_block));
    index.insert(dir2_offset, single(8000, make_empty_block()));
    (index, dir1_offset, dir2_offset)
}

#[test]
fn chain_index_insert_and_get() {
    let mut index = ChainIndex::new();
    let chain_offset = ChainOffset::new(256).unwrap();
    let chain = single(256, make_empty_block());

    index.insert(chain_offset, chain);

    assert!(index.get(chain_offset).is_some());
}

#[test]
fn chain_index_get_mut() {
    let mut index = ChainIndex::new();
    let chain_offset = ChainOffset::new(256).unwrap();
    index.insert(chain_offset, single(256, make_empty_block()));

    let chain_mut = index.get_mut(chain_offset);
    assert!(chain_mut.is_some());
}

#[test]
fn chain_index_get_entry() {
    let mut index = ChainIndex::new();
    let chain_offset = ChainOffset::new(256).unwrap();
    let mut block = make_empty_block();
    block.set(5, PackEntry::new_file("test.txt", StreamOffset::new(1000).unwrap(), 100, None));
    index.insert(chain_offset, single(256, block));

    let entry = index.get_entry(chain_offset, 5);
    assert!(entry.is_some());
    assert_eq!(entry.unwrap().name(), Some("test.txt"));
}

#[test]
fn chain_index_get_entry_mut() {
    let mut index = ChainIndex::new();
    let chain_offset = ChainOffset::new(256).unwrap();
    index.insert(chain_offset, single(256, make_empty_block()));

    {
        let entry = index.get_entry_mut(chain_offset, 3).unwrap();
        *entry = PackEntry::new_file("modified.txt", StreamOffset::new(500).unwrap(), 50, None);
    }

    assert_eq!(index.get_entry(chain_offset, 3).unwrap().name(), Some("modified.txt"));
}

#[test]
fn chain_index_get_entry_invalid_chain() {
    let index = ChainIndex::new();
    let invalid_offset = ChainOffset::new(9999).unwrap();
    assert!(index.get_entry(invalid_offset, 0).is_none());
}

#[test]
fn chain_index_get_entry_invalid_index() {
    let mut index = ChainIndex::new();
    let chain_offset = ChainOffset::new(256).unwrap();
    index.insert(chain_offset, single(256, make_empty_block()));

    assert!(index.get_entry(chain_offset, 100).is_none());
}

#[test]
fn resolve_path_to_block_chain_index_at_single_component() {
    let mut index = ChainIndex::new();
    let subdir_offset = ChainOffset::new(5000).unwrap();
    let root_block = make_root_block_with_entries(vec![(
        2,
        PackEntry::new_directory("subdir", subdir_offset, None),
    )]);
    index.insert(PK2_ROOT_CHAIN_OFFSET, PackBlockChain::from_blocks(vec![(PK2_ROOT_BLOCK_OFFSET, root_block)]));
    index.insert(subdir_offset, single(5000, make_empty_block()));

    let result = index.resolve_path_to_block_chain_index_at(PK2_ROOT_CHAIN_OFFSET, "subdir");
    assert_eq!(result, Ok(subdir_offset));
}

#[test]
fn resolve_path_to_block_chain_index_at_nested_path() {
    let (index, _, dir2_offset) = nested_index();
    let result = index.resolve_path_to_block_chain_index_at(PK2_ROOT_CHAIN_OFFSET, "dir1/dir2");
    assert_eq!(result, Ok(dir2_offset));
}

#[test]
fn resolve_path_to_block_chain_index_at_case_insensitive() {
    let mut index = ChainIndex::new();
    let subdir_offset = ChainOffset::new(5000).unwrap();
    let root_block = make_root_block_with_entries(vec![(
        2,
        PackEntry::new_directory("SubDir", subdir_offset, None),
    )]);
    index.insert(PK2_ROOT_CHAIN_OFFSET, PackBlockChain::from_blocks(vec![(PK2_ROOT_BLOCK_OFFSET, root_block)]));
    index.insert(subdir_offset, single(5000, make_empty_block()));

    assert_eq!(
        index.resolve_path_to_block_chain_index_at(PK2_ROOT_CHAIN_OFFSET, "subdir"),
        Ok(subdir_offset)
    );
    assert_eq!(
        index.resolve_path_to_block_chain_index_at(PK2_ROOT_CHAIN_OFFSET, "SUBDIR"),
        Ok(subdir_offset)
    );
}

#[test]
fn resolve_path_to_block_chain_index_at_not_found() {
    let mut index = ChainIndex::new();
    let root_block = make_root_block_with_entries(vec![]);
    index.insert(PK2_ROOT_CHAIN_OFFSET, PackBlockChain::from_blocks(vec![(PK2_ROOT_BLOCK_OFFSET, root_block)]));

    let result = index.resolve_path_to_block_chain_index_at(PK2_ROOT_CHAIN_OFFSET, "nonexistent");
    assert_eq!(result, Err(ChainLookupError::NotFound));
}

#[test]
fn resolve_path_to_block_chain_index_at_empty_component() {
    let mut index = ChainIndex::new();
    let dir1_offset = ChainOffset::new(5000).unwrap();
    let root_block =
        make_root_block_with_entries(vec![(2, PackEntry::new_directory("dir1", dir1_offset, None))]);
    let dir1_block = dir_block(dir1_offset, PK2_ROOT_CHAIN_OFFSET, vec![]);
    index.insert(PK2_ROOT_CHAIN_OFFSET, PackBlockChain::from_blocks(vec![(PK2_ROOT_BLOCK_OFFSET, root_block)]));
    index.insert(dir1_offset, single(5000, dir1_block));

    let result = index.resolve_path_to_block_chain_index_at(PK2_ROOT_CHAIN_OFFSET, "dir1//dir2");
    assert_eq!(result, Err(ChainLookupError::InvalidPath));
}

#[test]
fn resolve_path_to_block_chain_index_at_backslash_separator() {
    let (index, _, dir2_offset) = nested_index();
    let result = index.resolve_path_to_block_chain_index_at(PK2_ROOT_CHAIN_OFFSET, "dir1\\dir2");
    assert_eq!(result, Ok(dir2_offset));
}

#[test]
fn resolve_path_to_parent_simple() {
    let mut index = ChainIndex::new();
    let root_block = make_root_block_with_entries(vec![]);
    index.insert(PK2_ROOT_CHAIN_OFFSET, PackBlockChain::from_blocks(vec![(PK2_ROOT_BLOCK_OFFSET, root_block)]));

    let result = index.resolve_path_to_parent(PK2_ROOT_CHAIN_OFFSET, "dir/file.txt");
    assert!(result.is_err());
}

#[test]
fn resolve_path_to_parent_no_slash() {
    let index = ChainIndex::new();
    let result = index.resolve_path_to_parent(PK2_ROOT_CHAIN_OFFSET, "file.txt");
    assert_eq!(result, Ok((PK2_ROOT_CHAIN_OFFSET, "file.txt")));
}

#[test]
fn resolve_path_to_parent_empty_path() {
    let index = ChainIndex::new();
    let result = index.resolve_path_to_parent(PK2_ROOT_CHAIN_OFFSET, "");
    assert_eq!(result, Err(ChainLookupError::InvalidPath));
}

#[test]
fn resolve_path_to_parent_trailing_slash() {
    let index = ChainIndex::new();
    let result = index.resolve_path_to_parent(PK2_ROOT_CHAIN_OFFSET, "dir/");
    assert_eq!(result, Err(ChainLookupError::InvalidPath));
}

#[test]
fn resolve_path_to_entry_and_parent_file() {
    let mut index = ChainIndex::new();
    let root_block = make_root_block_with_entries(vec![(
        2,
        PackEntry::new_file("test.txt", StreamOffset::new(10000).unwrap(), 500, None),
    )]);
    index.insert(PK2_ROOT_CHAIN_OFFSET, PackBlockChain::from_blocks(vec![(PK2_ROOT_BLOCK_OFFSET, root_block)]));

    let result = index.resolve_path_to_entry_and_parent(PK2_ROOT_CHAIN_OFFSET, "root/test.txt");
    assert!(result.is_err());
}

#[test]
fn resolve_path_to_entry_and_parent_in_subdir() {
    let mut index = ChainIndex::new();
    let subdir_offset = ChainOffset::new(5000).unwrap();
    let root_block = make_root_block_with_entries(vec![(
        2,
        PackEntry::new_directory("subdir", subdir_offset, None),
    )]);
    let subdir_block = dir_block(
        subdir_offset,
        PK2_ROOT_CHAIN_OFFSET,
        vec![(2, PackEntry::new_file("myfile.txt", StreamOffset::new(10000).unwrap(), 200, None))],
    );
    index.insert(PK2_ROOT_CHAIN_OFFSET, PackBlockChain::from_blocks(vec![(PK2_ROOT_BLOCK_OFFSET, root_block)]));
    index.insert(subdir_offset, single(5000, subdir_block));

    let result = index.resolve_path_to_entry_and_parent(PK2_ROOT_CHAIN_OFFSET, "subdir/myfile.txt");
    assert!(result.is_ok());
    let (parent_chain, entry_idx, entry) = result.unwrap();
    assert_eq!(parent_chain, subdir_offset);
    assert_eq!(entry_idx, 2);
    assert_eq!(entry.name(), Some("myfile.txt"));
}

#[test]
fn resolve_path_to_entry_and_parent_not_found() {
    let mut index = ChainIndex::new();
    let subdir_offset = ChainOffset::new(5000).unwrap();
    let root_block = make_root_block_with_entries(vec![(
        2,
        PackEntry::new_directory("subdir", subdir_offset, None),
    )]);
    let subdir_block = dir_block(subdir_offset, PK2_ROOT_CHAIN_OFFSET, vec![]);
    index.insert(PK2_ROOT_CHAIN_OFFSET, PackBlockChain::from_blocks(vec![(PK2_ROOT_BLOCK_OFFSET, root_block)]));
    index.insert(subdir_offset, single(5000, subdir_block));

    let result =
        index.resolve_path_to_entry_and_parent(PK2_ROOT_CHAIN_OFFSET, "subdir/nonexistent.txt");
    assert_eq!(result.map(|(c, i, _)| (c, i)), Err(ChainLookupError::NotFound));
}

#[test]
fn validate_dir_path_until_all_exists() {
    let (index, _, _) = nested_index();
    let result = index.validate_dir_path_until(PK2_ROOT_CHAIN_OFFSET, "dir1/dir2");
    assert!(result.is_ok());
    assert!(result.unwrap().is_none());
}

#[test]
fn validate_dir_path_until_partial() {
    let mut index = ChainIndex::new();
    let dir1_offset = ChainOffset::new(5000).unwrap();
    let root_block =
        make_root_block_with_entries(vec![(2, PackEntry::new_directory("dir1", dir1_offset, None))]);
    let dir1_block = dir_block(dir1_offset, PK2_ROOT_CHAIN_OFFSET, vec![]);
    index.insert(PK2_ROOT_CHAIN_OFFSET, PackBlockChain::from_blocks(vec![(PK2_ROOT_BLOCK_OFFSET, root_block)]));
    index.insert(dir1_offset, single(5000, dir1_block));

    let result = index.validate_dir_path_until(PK2_ROOT_CHAIN_OFFSET, "dir1/dir2/dir3");
    assert!(result.is_ok());
    let (chain, remaining) = result.unwrap().unwrap();
    let mut remaining = remaining.into_iter();
    assert_eq!(chain, dir1_offset);
    assert_eq!(remaining.next(), Some("dir2"));
    assert_eq!(remaining.next(), Some("dir3"));
    assert_eq!(remaining.next(), None);
}

#[test]
fn validate_dir_path_until_none_exist() {
    let mut index = ChainIndex::new();
    let root_block = make_root_block_with_entries(vec![]);
    index.insert(PK2_ROOT_CHAIN_OFFSET, PackBlockChain::from_blocks(vec![(PK2_ROOT_BLOCK_OFFSET, root_block)]));

    let result = index.validate_dir_path_until(PK2_ROOT_CHAIN_OFFSET, "new1/new2/new3");
    assert!(result.is_ok());
    let (chain, remaining) = result.unwrap().unwrap();
    let mut remaining = remaining.into_iter();
    assert_eq!(chain, PK2_ROOT_CHAIN_OFFSET);
    assert_eq!(remaining.next(), Some("new1"));
    assert_eq!(remaining.next(), Some("new2"));
    assert_eq!(remaining.next(), Some("new3"));
}

#[test]
fn validate_dir_path_until_invalid_path() {
    let mut index = ChainIndex::new();
    let dir1_offset = ChainOffset::new(5000).unwrap();
    let root_block =
        make_root_block_with_entries(vec![(2, PackEntry::new_directory("dir1", dir1_offset, None))]);
    let dir1_block = dir_block(dir1_offset, PK2_ROOT_CHAIN_OFFSET, vec![]);
    index.insert(PK2_ROOT_CHAIN_OFFSET, PackBlockChain::from_blocks(vec![(PK2_ROOT_BLOCK_OFFSET, root_block)]));
    index.insert(dir1_offset, single(5000, dir1_block));

    let result = index.validate_dir_path_until(PK2_ROOT_CHAIN_OFFSET, "dir1//dir2");
    assert!(matches!(result, Err(ChainLookupError::InvalidPath)));
}

#[test]
fn chain_index_parser_wants_read_at() {
    let offsets = vec![(PK2_ROOT_CHAIN_OFFSET, PK2_ROOT_BLOCK_OFFSET)];
    let parser = ChainIndexParser::new(ChainIndex::new(), offsets);

    assert_eq!(parser.wants_read_at(), Some(PK2_ROOT_BLOCK_OFFSET));
}

#[test]
fn chain_index_parser_wants_read_at_empty() {
    let parser = ChainIndexParser::new(ChainIndex::new(), vec![]);

    assert!(parser.wants_read_at().is_none());
}

#[test]
fn chain_index_parser_abandon() {
    let offsets = vec![
        (PK2_ROOT_CHAIN_OFFSET, PK2_ROOT_BLOCK_OFFSET),
        (ChainOffset::new(5000).unwrap(), BlockOffset::new(5000).unwrap()),
    ];
    let parser = ChainIndexParser::new(ChainIndex::new(), offsets.clone());

    let abandoned = parser.abandon();
    assert_eq!(abandoned.len(), 2);
}

#[test]
fn chain_index_parser_progress_empty_block() {
    let offsets = vec![(PK2_ROOT_CHAIN_OFFSET, PK2_ROOT_BLOCK_OFFSET)];
    let mut parser = ChainIndexParser::new(ChainIndex::new(), offsets);

    let buffer = [0u8; PK2_FILE_BLOCK_SIZE];
    let remaining = parser.progress(&buffer).unwrap();

    assert_eq!(remaining, 0);

    let index = parser.into_index();
    assert!(index.get(PK2_ROOT_CHAIN_OFFSET).is_some());
}

#[test]
fn chain_index_parser_progress_discovers_subdirs() {
    let offsets = vec![(PK2_ROOT_CHAIN_OFFSET, PK2_ROOT_BLOCK_OFFSET)];
    let mut parser = ChainIndexParser::new(ChainIndex::new(), offsets);

    let mut block = PackBlock::default();
    let subdir_offset = ChainOffset::new(5000).unwrap();
    block.set(0, PackEntry::new_directory(".", PK2_ROOT_CHAIN_OFFSET, None));
    block.set(1, PackEntry::new_directory("..", PK2_ROOT_CHAIN_OFFSET, None));
    block.set(2, PackEntry::new_directory("subdir", subdir_offset, None));

    let mut buffer = [0u8; PK2_FILE_BLOCK_SIZE];
    block.write_to(&mut buffer);

    let remaining = parser.progress(&buffer).unwrap();

    assert_eq!(remaining, 1);
    assert_eq!(parser.wants_read_at(), Some(BlockOffset::new(5000).unwrap()));
}

#[test]
fn parser_follows_block_links_before_subdirectories() {
    let mut parser =
        ChainIndexParser::new(ChainIndex::new(), vec![(PK2_ROOT_CHAIN_OFFSET, PK2_ROOT_BLOCK_OFFSET)]);
    let mut first = PackBlock::default();
    first.set(2, PackEntry::new_directory("sub", ChainOffset::new(9000).unwrap(), None));
    first.set(19, PackEntry::new_empty(BlockOffset::new(6000)));
    let mut buffer = [0u8; PK2_FILE_BLOCK_SIZE];
    first.write_to(&mut buffer);
    assert_eq!(parser.progress(&buffer), Ok(2));
    // subdirectories are read first (last pushed), then the linked block
    assert_eq!(parser.wants_read_at(), BlockOffset::new(9000));
    assert!(parser.can_progress());
    let empty = [0u8; PK2_FILE_BLOCK_SIZE];
    assert_eq!(parser.progress(&empty), Ok(1));
    assert_eq!(parser.wants_read_at(), BlockOffset::new(6000));
    assert!(parser.can_progress());
    assert_eq!(parser.progress(&empty), Ok(0));
    let index = parser.into_index();
    assert_eq!(index.get(PK2_ROOT_CHAIN_OFFSET).unwrap().num_entries(), 40);
    assert!(index.contains(ChainOffset::new(9000).unwrap()));
}

#[test]
fn parser_drops_a_block_that_does_not_parse() {
    let mut parser =
        ChainIndexParser::new(ChainIndex::new(), vec![(PK2_ROOT_CHAIN_OFFSET, PK2_ROOT_BLOCK_OFFSET)]);
    let mut buffer = [0u8; PK2_FILE_BLOCK_SIZE];
    buffer[0] = 7;
    assert_eq!(parser.progress(&buffer).unwrap_err().0, 7);
    assert_eq!(parser.wants_read_at(), None);
}

#[test]
fn parser_cannot_progress_onto_an_unlinked_block() {
    let mut index = ChainIndex::new();
    index.insert(PK2_ROOT_CHAIN_OFFSET, single(256, PackBlock::default()));
    let parser = ChainIndexParser::new(index, vec![(PK2_ROOT_CHAIN_OFFSET, BlockOffset::new(7000).unwrap())]);
    assert!(!parser.can_progress());
}

#[test]
fn chain_list_holds_every_chain() {
    let (index, dir1, dir2) = nested_index();
    let mut heads: Vec<u64> = index.chain_list().iter().map(|c| c.chain_index().0).collect();
    heads.sort();
    assert_eq!(heads, vec![PK2_ROOT_OFFSET, dir1.0, dir2.0]);
}

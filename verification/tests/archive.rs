use pk2::archive::{check_root, create_file, delete_file, index_fits, open_directory, open_file, OpenError};
use pk2::blowfish::Blowfish;
use pk2::format::block_chain::{PK2_FILE_BLOCK_SIZE, PackBlock, PackBlockChain};
use pk2::format::chain_index::{ChainIndex, ChainIndexParser, PK2_ROOT_OFFSET};
use pk2::format::entry::PackEntry;
use pk2::format::header::{PACK_HEADER_LEN, PackHeader};
use pk2::io::{WriteOp, write_block, write_chain_entry};
use pk2::{BlockOffset, ChainLookupError, ChainOffset};

const ROOT: ChainOffset = ChainOffset(PK2_ROOT_OFFSET);

struct Archive {
    stream: Vec<u8>,
    index: ChainIndex,
    bf: Option<Blowfish>,
}

fn apply(stream: &mut Vec<u8>, ops: Vec<WriteOp>) {
    for op in ops {
        let start = op.offset as usize;
        let end = start + op.data.len();
        if stream.len() < end {
            stream.resize(end, 0);
        }
        stream[start..end].copy_from_slice(&op.data);
    }
}

fn read_index(stream: &[u8], bf: Option<&Blowfish>) -> ChainIndex {
    let mut parser =
        ChainIndexParser::new(ChainIndex::new(), vec![(ROOT, BlockOffset(PK2_ROOT_OFFSET))]);
    while let Some(offset) = parser.wants_read_at() {
        let start = offset.0 as usize;
        let mut buf = [0u8; PK2_FILE_BLOCK_SIZE];
        buf.copy_from_slice(&stream[start..start + PK2_FILE_BLOCK_SIZE]);
        if let Some(bf) = bf {
            bf.decrypt(&mut buf).unwrap();
        }
        assert!(parser.can_progress());
        parser.progress(&buf).unwrap();
    }
    parser.into_index()
}

fn new_archive(key: &[u8]) -> Archive {
    let bf = if key.is_empty() { None } else { Some(Blowfish::new(key).unwrap()) };
    let header = match &bf {
        Some(b) => PackHeader::new_encrypted(b),
        None => PackHeader::default(),
    };
    let mut out = [0u8; PACK_HEADER_LEN];
    header.write_into(&mut out);
    let mut stream = out.to_vec();
    let mut block = PackBlock::default();
    block.set(0, PackEntry::new_directory(".", ROOT, None));
    let w = write_block(bf.as_ref(), BlockOffset(PK2_ROOT_OFFSET), &block);
    apply(&mut stream, vec![w]);
    let index = read_index(&stream, bf.as_ref());
    Archive { stream, index, bf }
}

impl Archive {
    /// Creates the file and stores its entry, as the archive handle does once the file is
    /// flushed.
    fn create(&mut self, path: &str) -> Result<(ChainOffset, usize), OpenError> {
        let len = self.stream.len() as u64;
        let (c, i, ops, new_len) = create_file(&mut self.index, self.bf.as_ref(), len, path)?;
        apply(&mut self.stream, ops);
        assert_eq!(self.stream.len() as u64, new_len);
        let w = write_chain_entry(self.bf.as_ref(), self.index.get(c).unwrap(), i);
        apply(&mut self.stream, vec![w]);
        Ok((c, i))
    }

    fn delete(&mut self, path: &str) -> Result<(), OpenError> {
        let w = delete_file(&mut self.index, self.bf.as_ref(), path)?;
        apply(&mut self.stream, vec![w]);
        Ok(())
    }

    fn reread(&self) -> ChainIndex {
        read_index(&self.stream, self.bf.as_ref())
    }
}

#[test]
fn create_then_open_file() {
    let mut a = new_archive(b"");
    let (c, i) = a.create("/a.txt").unwrap();
    assert_eq!((c, i), (ROOT, 1));
    assert_eq!(open_file(&a.index, "/a.txt"), Ok((ROOT, 1)));
    assert_eq!(open_file(&a.reread(), "/a.txt"), Ok((ROOT, 1)));
    let e = a.index.get_entry(c, i).unwrap();
    assert!(e.is_file());
    assert_eq!(e.name(), Some("a.txt"));
}

#[test]
fn create_file_fails_if_exists() {
    let mut a = new_archive(b"test");
    a.create("/exists.txt").unwrap();
    let len = a.stream.len() as u64;
    assert_eq!(
        create_file(&mut a.index, a.bf.as_ref(), len, "/exists.txt").map(|r| (r.0, r.1)),
        Err(OpenError::AlreadyExists)
    );
    assert_eq!(
        create_file(&mut a.index, a.bf.as_ref(), len, "/EXISTS.TXT").map(|r| (r.0, r.1)),
        Err(OpenError::AlreadyExists)
    );
}

#[test]
fn create_directory_path_that_exists_fails() {
    let mut a = new_archive(b"");
    a.create("/dir/f.txt").unwrap();
    let len = a.stream.len() as u64;
    assert_eq!(
        create_file(&mut a.index, a.bf.as_ref(), len, "/dir").map(|r| (r.0, r.1)),
        Err(OpenError::AlreadyExists)
    );
}

#[test]
fn create_nested_creates_directories() {
    for key in [&b""[..], &b"169841"[..]] {
        let mut a = new_archive(key);
        let before = a.stream.len();
        let (c, i) = a.create("/a/b/c/deep.txt").unwrap();
        // one new block per new directory
        assert_eq!(a.stream.len(), before + 3 * PK2_FILE_BLOCK_SIZE);
        assert_eq!(c, ChainOffset((before + 2 * PK2_FILE_BLOCK_SIZE) as u64));
        assert_eq!(i, 2);
        for index in [&a.index, &a.reread()] {
            assert_eq!(open_file(index, "/a/b/c/deep.txt"), Ok((c, i)));
            assert!(matches!(open_directory(index, "/a/b"), Ok(Some(_))));
            assert_eq!(
                index.resolve_path_to_block_chain_index_at(c, ".."),
                Ok(ChainOffset((before + PK2_FILE_BLOCK_SIZE) as u64))
            );
            assert_eq!(index.resolve_path_to_block_chain_index_at(c, "."), Ok(c));
        }
    }
}

#[test]
fn create_under_a_file_name_makes_a_directory_that_the_file_shadows() {
    let mut a = new_archive(b"");
    a.create("/x").unwrap();
    let (c, i) = a.create("/x/y.txt").unwrap();
    assert_eq!(i, 2);
    assert_ne!(c, ROOT);
    assert_eq!(
        open_file(&a.index, "/x/y.txt"),
        Err(OpenError::Lookup(ChainLookupError::NotFound))
    );
    assert_eq!(open_file(&a.index, "/x"), Ok((ROOT, 1)));
}

#[test]
fn create_in_existing_directory_uses_first_empty_entry() {
    let mut a = new_archive(b"");
    a.create("/d/one.txt").unwrap();
    let len = a.stream.len();
    let (c, i) = a.create("/d/two.txt").unwrap();
    assert_eq!(a.stream.len(), len);
    assert_eq!(i, 3);
    assert_eq!(open_file(&a.reread(), "/d/two.txt"), Ok((c, i)));
}

#[test]
fn full_chain_gets_a_linked_block() {
    let mut a = new_archive(b"secret");
    for k in 1..20 {
        a.create(&format!("/f{k}.bin")).unwrap();
    }
    assert_eq!(a.index.get(ROOT).unwrap().num_entries(), 20);
    let len = a.stream.len() as u64;
    let (c, i, ops, new_len) = create_file(&mut a.index, a.bf.as_ref(), len, "/f20.bin").unwrap();
    assert_eq!((c, i), (ROOT, 20));
    assert_eq!(ops.len(), 2);
    assert_eq!(ops[0].offset, len);
    assert_eq!(ops[0].data.len(), PK2_FILE_BLOCK_SIZE);
    assert_eq!(ops[1].offset, PK2_ROOT_OFFSET + 19 * 128);
    assert_eq!(new_len, len + PK2_FILE_BLOCK_SIZE as u64);
    assert_eq!(a.index.get(ROOT).unwrap().get(19).unwrap().next_block(), Some(BlockOffset(len)));
    apply(&mut a.stream, ops);
    let w = write_chain_entry(a.bf.as_ref(), a.index.get(c).unwrap(), i);
    apply(&mut a.stream, vec![w]);
    let index = a.reread();
    assert_eq!(index.get(ROOT).unwrap().num_entries(), 40);
    assert_eq!(open_file(&index, "/f20.bin"), Ok((ROOT, 20)));
    assert_eq!(open_file(&index, "/f19.bin"), Ok((ROOT, 19)));
}

#[test]
fn delete_file_then_open_fails() {
    let mut a = new_archive(b"test");
    a.create("/todelete.txt").unwrap();
    assert!(open_file(&a.index, "/todelete.txt").is_ok());
    a.delete("/todelete.txt").unwrap();
    assert_eq!(
        open_file(&a.index, "/todelete.txt"),
        Err(OpenError::Lookup(ChainLookupError::NotFound))
    );
    assert_eq!(
        open_file(&a.reread(), "/todelete.txt"),
        Err(OpenError::Lookup(ChainLookupError::NotFound))
    );
}

#[test]
fn delete_nonexistent_file_fails() {
    let mut a = new_archive(b"test");
    assert_eq!(a.delete("/nonexistent.txt"), Err(OpenError::Lookup(ChainLookupError::NotFound)));
}

#[test]
fn delete_directory_fails() {
    let mut a = new_archive(b"");
    a.create("/dir/f.txt").unwrap();
    assert_eq!(a.delete("/dir"), Err(OpenError::ExpectedFile));
    assert_eq!(a.delete("/"), Err(OpenError::ExpectedFile));
}

#[test]
fn open_errors() {
    let mut a = new_archive(b"");
    a.create("/dir/f.txt").unwrap();
    assert_eq!(open_file(&a.index, "dir/f.txt"), Err(OpenError::InvalidPath));
    assert_eq!(open_file(&a.index, "/"), Err(OpenError::ExpectedFile));
    assert_eq!(open_file(&a.index, "/dir"), Err(OpenError::ExpectedFile));
    assert_eq!(open_directory(&a.index, "/"), Ok(None));
    assert_eq!(open_directory(&a.index, "/dir/f.txt"), Err(OpenError::ExpectedDirectory));
    assert_eq!(open_directory(&a.index, "/nope"), Err(OpenError::Lookup(ChainLookupError::NotFound)));
    assert_eq!(open_file(&a.index, "/dir//f.txt"), Err(OpenError::Lookup(ChainLookupError::InvalidPath)));
}

#[test]
fn case_insensitive_file_lookup() {
    let mut a = new_archive(b"");
    let (c, i) = a.create("/Dir/File.TXT").unwrap();
    assert_eq!(open_file(&a.index, "/dir/file.txt"), Ok((c, i)));
    assert_eq!(open_file(&a.index, "/DIR/FILE.txt"), Ok((c, i)));
}

#[test]
fn create_with_empty_component_is_invalid_input() {
    let mut a = new_archive(b"");
    a.create("/a/x.txt").unwrap();
    let len = a.stream.len() as u64;
    assert_eq!(
        create_file(&mut a.index, None, len, "/a//b.txt").map(|r| (r.0, r.1)),
        Err(OpenError::InvalidInput(ChainLookupError::InvalidPath))
    );
    assert_eq!(
        create_file(&mut a.index, None, len, "/").map(|r| (r.0, r.1)),
        Err(OpenError::InvalidInput(ChainLookupError::InvalidPath))
    );
    assert_eq!(
        create_file(&mut a.index, None, len, "a.txt").map(|r| (r.0, r.1)),
        Err(OpenError::InvalidPath)
    );
}

#[test]
fn create_needing_a_block_in_an_empty_stream_fails() {
    let mut a = new_archive(b"");
    assert_eq!(
        create_file(&mut a.index, None, 0, "/x/y.txt").map(|r| (r.0, r.1)),
        Err(OpenError::EmptyStream)
    );
}

#[test]
fn check_root_strips_the_slash() {
    assert_eq!(check_root("/a/b"), Some("a/b"));
    assert_eq!(check_root("/"), Some(""));
    assert_eq!(check_root("a"), None);
    assert_eq!(check_root(""), None);
}

#[test]
fn index_fits_checks_block_offsets() {
    let a = new_archive(b"");
    assert!(index_fits(&a.index, 10));
    let mut index = read_index(&a.stream, None);
    index.insert(
        ChainOffset(9000),
        PackBlockChain::from_blocks(vec![(BlockOffset(u64::MAX - 100), PackBlock::default())]),
    );
    assert!(!index_fits(&index, 0));
    let mut index = read_index(&a.stream, None);
    index.insert(ChainOffset(9000), PackBlockChain::from_blocks(vec![(BlockOffset(0), PackBlock::default())]));
    assert!(!index_fits(&index, 0));
    assert!(!index_fits(&a.index, usize::MAX / 10));
}

#[test]
fn created_directories_keep_their_names() {
    let mut a = new_archive(b"");
    a.create("/MixedCase/sub/f.txt").unwrap();
    for index in [&a.index, &a.reread()] {
        let (c, i) = open_directory(index, "/mixedcase").unwrap().unwrap();
        assert_eq!(index.get_entry(c, i).unwrap().name(), Some("MixedCase"));
        let (c, i) = open_directory(index, "/MIXEDCASE/SUB").unwrap().unwrap();
        assert_eq!(index.get_entry(c, i).unwrap().name(), Some("sub"));
    }
}

use pk2::archive::{create_file, open_file, OpenError};
use pk2::blowfish::Blowfish;
use pk2::file_handle::{accepted_write_len, flush_file, remaining_len, seek_position, SeekFrom};
use pk2::format::block_chain::{PK2_FILE_BLOCK_SIZE, PackBlock};
use pk2::format::chain_index::{ChainIndex, ChainIndexParser, PK2_ROOT_OFFSET};
use pk2::format::entry::PackEntry;
use pk2::format::header::{PACK_HEADER_LEN, PackHeader};
use pk2::io::{WriteOp, write_block};
use pk2::{BlockOffset, ChainOffset, FILETIME, StreamOffset};

const ROOT: ChainOffset = ChainOffset(PK2_ROOT_OFFSET);

fn apply(stream: &mut Vec<u8>, ops: Vec<WriteOp>) {
    for op in ops {
        let start = op.offset as usize;
        let end = start + op.data.len();
        if stream.len() < end {
            stream.resize(end, 0);
        }
        stream[start..end].copy_from_slice(&op.data);
    }
}

fn read_index(stream: &[u8], bf: Option<&Blowfish>) -> ChainIndex {
    let mut parser =
        ChainIndexParser::new(ChainIndex::new(), vec![(ROOT, BlockOffset(PK2_ROOT_OFFSET))]);
    while let Some(offset) = parser.wants_read_at() {
        let start = offset.0 as usize;
        let mut buf = [0u8; PK2_FILE_BLOCK_SIZE];
        buf.copy_from_slice(&stream[start..start + PK2_FILE_BLOCK_SIZE]);
        if let Some(bf) = bf {
            bf.decrypt(&mut buf).unwrap();
        }
        parser.progress(&buf).unwrap();
    }
    parser.into_index()
}

fn new_archive(bf: Option<&Blowfish>) -> (Vec<u8>, ChainIndex) {
    let header = match bf {
        Some(b) => PackHeader::new_encrypted(b),
        None => PackHeader::default(),
    };
    let mut out = [0u8; PACK_HEADER_LEN];
    header.write_into(&mut out);
    let mut stream = out.to_vec();
    let mut block = PackBlock::default();
    block.set(0, PackEntry::new_directory(".", ROOT, None));
    apply(&mut stream, vec![write_block(bf, BlockOffset(PK2_ROOT_OFFSET), &block)]);
    let index = read_index(&stream, bf);
    (stream, index)
}

fn file_bytes(stream: &[u8], index: &ChainIndex, path: &str) -> Vec<u8> {
    let (c, i) = open_file(index, path).unwrap();
    let (pos, size) = index.get_entry(c, i).unwrap().as_non_empty().unwrap().file_data().unwrap();
    stream[pos.0 as usize..pos.0 as usize + size as usize].to_vec()
}

#[test]
fn seek_positions() {
    assert_eq!(seek_position(SeekFrom::Start(5), 0, 10), Some(5));
    assert_eq!(seek_position(SeekFrom::Current(3), 2, 10), Some(5));
    assert_eq!(seek_position(SeekFrom::Current(-3), 8, 10), Some(5));
    assert_eq!(seek_position(SeekFrom::End(-3), 0, 10), Some(7));
    assert_eq!(seek_position(SeekFrom::End(-1), 7, 10), Some(9));
    assert_eq!(seek_position(SeekFrom::End(0), 0, 10), Some(10));
}

#[test]
fn seek_past_end_is_allowed() {
    assert_eq!(seek_position(SeekFrom::Start(100), 0, 5), Some(100));
    assert_eq!(seek_position(SeekFrom::End(7), 0, 5), Some(12));
}

#[test]
fn seek_negative_fails() {
    assert_eq!(seek_position(SeekFrom::Current(-100), 0, 4), None);
    assert_eq!(seek_position(SeekFrom::End(i64::MIN), 0, 0), None);
    assert_eq!(seek_position(SeekFrom::End(i64::MIN), 1u64 << 63, 1u64 << 63), Some(0));
    assert_eq!(seek_position(SeekFrom::Current(1), u64::MAX, 0), None);
}

#[test]
fn write_lengths() {
    assert_eq!(accepted_write_len(0, 5), 5);
    assert_eq!(accepted_write_len(u32::MAX as usize - 2, 5), 2);
    assert_eq!(accepted_write_len(u32::MAX as usize, 1), 0);
    assert_eq!(accepted_write_len(1, usize::MAX), 0);
}

#[test]
fn remaining_lengths() {
    assert_eq!(remaining_len(10, 0), 10);
    assert_eq!(remaining_len(10, 4), 6);
    assert_eq!(remaining_len(10, 10), 0);
    assert_eq!(remaining_len(10, 100), 0);
}

#[test]
fn write_and_read_back() {
    for bf in [None, Some(Blowfish::new(b"test").unwrap())] {
        let bf = bf.as_ref();
        let (mut stream, mut index) = new_archive(bf);
        let len = stream.len() as u64;
        let (c, i, ops, _) = create_file(&mut index, bf, len, "/test.txt").unwrap();
        apply(&mut stream, ops);
        let len = stream.len() as u64;
        let time = FILETIME::from_tick_count(0x01D0_0000_0000_0000);
        let ops = flush_file(&mut index, bf, c, i, b"Hello, World!", len, Some(time)).unwrap();
        assert_eq!(ops[0].offset, len);
        apply(&mut stream, ops);
        let reread = read_index(&stream, bf);
        assert_eq!(file_bytes(&stream, &reread, "/test.txt"), b"Hello, World!");
        let e = reread.get_entry(c, i).unwrap().as_non_empty().unwrap();
        assert_eq!(e.modify_time, time);
        assert_eq!(e.create_time, FILETIME::default());
    }
}

#[test]
fn shorter_data_is_written_in_place_and_longer_data_moves() {
    let (mut stream, mut index) = new_archive(None);
    let len = stream.len() as u64;
    let (c, i, ops, _) = create_file(&mut index, None, len, "/t.bin").unwrap();
    apply(&mut stream, ops);
    let len = stream.len() as u64;
    apply(&mut stream, flush_file(&mut index, None, c, i, b"0123456789", len, None).unwrap());
    let first = index.get_entry(c, i).unwrap().as_non_empty().unwrap().file_data().unwrap();
    assert_eq!(first, (StreamOffset(len), 10));

    let len = stream.len() as u64;
    apply(&mut stream, flush_file(&mut index, None, c, i, b"abc", len, None).unwrap());
    assert_eq!(stream.len() as u64, len);
    let second = index.get_entry(c, i).unwrap().as_non_empty().unwrap().file_data().unwrap();
    assert_eq!(second, (first.0, 3));
    assert_eq!(file_bytes(&stream, &read_index(&stream, None), "/t.bin"), b"abc");

    let len = stream.len() as u64;
    apply(&mut stream, flush_file(&mut index, None, c, i, b"0123456789AB", len, None).unwrap());
    let third = index.get_entry(c, i).unwrap().as_non_empty().unwrap().file_data().unwrap();
    assert_eq!(third, (StreamOffset(len), 12));
    assert_eq!(file_bytes(&stream, &read_index(&stream, None), "/t.bin"), b"0123456789AB");
}

#[test]
fn empty_data_stores_nothing() {
    let (mut stream, mut index) = new_archive(None);
    let len = stream.len() as u64;
    let (c, i, ops, _) = create_file(&mut index, None, len, "/e").unwrap();
    apply(&mut stream, ops);
    let ops = flush_file(&mut index, None, c, i, b"", 4096, Some(FILETIME::from_tick_count(1))).unwrap();
    assert!(ops.is_empty());
    assert_eq!(index.get_entry(c, i).unwrap().as_non_empty().unwrap().modify_time, FILETIME::default());
}

#[test]
fn moving_data_needs_a_stream() {
    let (mut stream, mut index) = new_archive(None);
    let len = stream.len() as u64;
    let (c, i, ops, _) = create_file(&mut index, None, len, "/e").unwrap();
    apply(&mut stream, ops);
    let time = FILETIME::from_tick_count(42);
    assert_eq!(flush_file(&mut index, None, c, i, b"x", 0, Some(time)).unwrap_err(), OpenError::EmptyStream);
    let e = index.get_entry(c, i).unwrap().as_non_empty().unwrap();
    assert_eq!(e.modify_time, time);
    assert_eq!(e.file_data(), Some((StreamOffset(PK2_ROOT_OFFSET), 0)));
}

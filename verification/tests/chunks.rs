use skimmer::feed::Chunk;
use skimmer::feed::Feed;
use skimmer::feed::IntoReader;
use skimmer::feed::Read;
use skimmer::feed::SliceReader;
use skimmer::symbol::Char;

#[test]
fn test_chunk_contains() {
    let mut chunk = Chunk::with_capacity("test string".len());
    chunk.push_slice(&"test string".as_bytes());

    let ch = Char::new(&[b's']);

    assert!(!chunk.contains_at(&ch, 0));
    assert!(!chunk.contains_at(&ch, 1));
    assert!(chunk.contains_at(&ch, 2));
    assert!(!chunk.contains_at(&ch, 3));
    assert!(!chunk.contains_at(&ch, 4));
    assert!(chunk.contains_at(&ch, 5));
    assert!(!chunk.contains_at(&ch, 6));
    assert!(!chunk.contains_at(&ch, 7));
    assert!(!chunk.contains_at(&ch, 8));
    assert!(!chunk.contains_at(&ch, 9));
    assert!(!chunk.contains_at(&ch, 10));
    assert!(!chunk.contains_at(&ch, 11));
    assert!(!chunk.contains_at(&ch, 12));
    assert!(!chunk.contains_at(&ch, 13));
}

#[test]
fn test_chunk_skip() {
    let mut chunk = Chunk::with_capacity("test string".len());
    chunk.push_slice(&"test string".as_bytes());

    assert_eq!(chunk.len(), "test string".len());

    chunk.skip = "test ".len();

    assert_eq!(chunk.len(), "string".len());
}

#[test]
fn test_chunk_to_vec() {
    let mut chunk = Chunk::with_capacity("test string".len());
    chunk.push_slice(&"test string".as_bytes());

    assert_eq!(chunk.len(), "test string".len());

    chunk.skip = "test ".len();

    assert_eq!(chunk.len(), "string".len());

    let v: Vec<u8> = chunk.to_vec();
    assert_eq!(v.len(), "string".len());
    assert_eq!(&v[..], "string".as_bytes());
}

#[test]
fn test_chunk_truncate() {
    let mut chunk = Chunk::with_capacity("test string".len());
    chunk.push_slice(&"test string".as_bytes());

    assert_eq!(chunk.len(), "test string".len());

    chunk.skip = "test ".len();

    chunk.truncate(3);

    assert_eq!(chunk.len(), "str".len());
    assert_eq!(chunk.as_slice(), "str".as_bytes());
}

#[test]
fn test_chunk_split_off() {
    let src = "test string";

    let mut chunk = Chunk::with_capacity(src.len());
    chunk.push_slice(&src.as_bytes());

    assert_eq!(chunk.as_slice(), src.as_bytes());

    let off = chunk.split_off("test ".len());

    assert_eq!("test ".len(), chunk.len());

    assert_eq!(chunk.as_slice(), "test ".as_bytes());
    assert_eq!(off.as_slice(), "string".as_bytes());

    let mut chunk = Chunk::with_capacity(3);
    chunk.push_vec(vec![1, 2, 3]);
    let chunk2 = chunk.split_off(1);

    assert_eq!(chunk.as_slice(), [1]);
    assert_eq!(chunk2.as_slice(), [2, 3]);

    let src = "subtle split_off test";
    let mut chunk = Chunk::with_capacity(src.len());
    chunk.push_slice(&src.as_bytes());

    chunk.skip = "subtle ".len();

    let chunk2 = chunk.split_off("split_off".len());

    assert_eq!(chunk.as_slice(), "split_off".as_bytes());
    assert_eq!(chunk2.as_slice(), " test".as_bytes());

    let src = "123456789";

    let mut chunk = Chunk::with_capacity(src.len());
    chunk.push_slice(&src.as_bytes());
    let chunk2 = chunk.split_off(4);

    assert_eq!(chunk.as_slice(), "1234".as_bytes());
    assert_eq!(chunk2.as_slice(), "56789".as_bytes());

    let mut chunk = Chunk::with_capacity(src.len());
    chunk.push_slice(&src.as_bytes());
    let chunk2 = chunk.split_off(5);

    assert_eq!(chunk.as_slice(), "12345".as_bytes());
    assert_eq!(chunk2.as_slice(), "6789".as_bytes());

    let mut chunk = Chunk::with_capacity(src.len());
    chunk.push_slice(&src.as_bytes());
    chunk.skip = 4;
    let chunk2 = chunk.split_off(2);

    assert_eq!(chunk.as_slice(), "56".as_bytes());
    assert_eq!(chunk2.as_slice(), "789".as_bytes());

    let mut chunk = Chunk::with_capacity(src.len());
    chunk.push_slice(&src.as_bytes());
    chunk.skip = 4;
    let chunk2 = chunk.split_off(3);

    assert_eq!(chunk.as_slice(), "567".as_bytes());
    assert_eq!(chunk2.as_slice(), "89".as_bytes());
}

#[test]
fn test_chunk_wipe_skipped() {
    let src = "123456789";

    let mut chunk = Chunk::with_capacity(src.len());
    chunk.push_slice(src.as_bytes());
    chunk.skip = 1;

    assert_eq!(1, chunk.skip);
    assert_eq!(chunk.as_slice(), "23456789".as_bytes());

    chunk.wipe_skipped();
    assert_eq!(0, chunk.skip);
    assert_eq!(chunk.as_slice(), "23456789".as_bytes());

    let mut chunk = Chunk::with_capacity(src.len());
    chunk.push_slice(src.as_bytes());
    chunk.skip = 4;

    assert_eq!(4, chunk.skip);
    assert_eq!(chunk.as_slice(), "56789".as_bytes());

    chunk.wipe_skipped();
    assert_eq!(0, chunk.skip);
    assert_eq!(chunk.as_slice(), "56789".as_bytes());

    let mut chunk = Chunk::with_capacity(src.len());
    chunk.push_slice(src.as_bytes());
    chunk.skip = 5;

    assert_eq!(5, chunk.skip);
    assert_eq!(chunk.as_slice(), "6789".as_bytes());

    chunk.wipe_skipped();
    assert_eq!(0, chunk.skip);
    println!("Chunk is '{}'", String::from_utf8(chunk.clone().to_vec()).unwrap());
    assert_eq!(chunk.as_slice(), "6789".as_bytes());
}

#[test]
fn test_slice_reader() {
    let src = "1234567890";

    let mut reader = SliceReader::new(&src.as_bytes());

    let chunk = reader.consume(4);
    assert_eq!(chunk.as_slice(), "1234".as_bytes());

    let chunk = reader.consume(4);
    assert_eq!(chunk.as_slice(), "5678".as_bytes());

    let chunk = reader.consume(4);
    assert_eq!(chunk.as_slice(), "90".as_bytes());

    let mut reader = SliceReader::new(&src.as_bytes());

    assert_eq!(2, reader.skip(2));
    let chunk = reader.consume(4);
    assert_eq!(chunk.as_slice(), "3456".as_bytes());

    assert_eq!(true, reader.has(1));
    assert_eq!(true, reader.has(2));
    assert_eq!(true, reader.has(4));
    assert_eq!(false, reader.has(5));

    assert_eq!(2, reader.skip(2));
    let chunk = reader.consume(4);
    assert_eq!(chunk.as_slice(), "90".as_bytes());

    assert_eq!(false, reader.has(1));

    assert_eq!(0, reader.skip(2));
    let chunk = reader.consume(4);
    assert_eq!(chunk.as_slice(), "".as_bytes());

    let mut reader = SliceReader::new(&src.as_bytes());

    if let Some(slice) = reader.slice(2) {
        assert_eq!(slice, "12".as_bytes());
    } else {
        assert!(false, "Unexpected result!");
    }

    if let Some(slice) = reader.slice_at(2, 2) {
        assert_eq!(slice, "34".as_bytes());
    } else {
        assert!(false, "Unexpected result!");
    }

    assert_eq!(2, reader.skip(2));

    if let Some(slice) = reader.slice(4) {
        assert_eq!(slice, "3456".as_bytes());
    } else {
        assert!(false, "Unexpected result!");
    }

    if let Some(slice) = reader.slice_at(2, 2) {
        assert_eq!(slice, "56".as_bytes());
    } else {
        assert!(false, "Unexpected result!");
    }

    if let Some(slice) = reader.slice_at(7, 1) {
        assert_eq!(slice, "0".as_bytes());
    } else {
        assert!(false, "Unexpected result!");
    }

    if let Some(_) = reader.slice_at(8, 1) {
        assert!(false, "Unexpected result!")
    }
}

#[test]
fn test_feed_shift() {
    let src = "1234567890";

    let mut feed = Feed::with_capacity(src.len());
    feed.push_slice(src.as_bytes());

    assert_eq!(feed.shift(10).as_slice(), "1234567890".as_bytes());

    let mut feed = Feed::with_capacity(src.len());
    feed.push_slice(src.as_bytes());

    assert_eq!(feed.shift(4).as_slice(), "1234".as_bytes());

    let mut feed = Feed::with_capacity(src.len());
    feed.push_slice(src.as_bytes());

    assert_eq!(feed.shift(8).as_slice(), "12345678".as_bytes());

    let mut feed = Feed::with_capacity(src.len());
    feed.push_slice(src.as_bytes());

    assert_eq!(feed.shift(0).as_slice(), "".as_bytes());
}

#[test]
fn test_feed_skip() {
    let src = "1234567890";

    let mut feed = Feed::with_capacity(src.len());
    feed.push_slice(src.as_bytes());

    assert_eq!(feed.as_slice(), "1234567890".as_bytes());

    assert_eq!(1, feed.skip(1));
    assert_eq!(feed.as_slice(), "234567890".as_bytes());

    assert_eq!(9, feed.skip(20));
    assert_eq!(feed.as_slice(), "".as_bytes());

    assert_eq!(0, feed.skip(1));
    assert_eq!(feed.as_slice(), "".as_bytes());
}

#[test]
fn feed_builders_and_push_vec() {
    let mut feed = Feed::new().wipe_min_threshold(0).wipe_max_threshold(0);
    feed.push_vec(vec![b'a', b'b']);
    feed.push_slice(b"cd");
    assert_eq!(feed.len(), 4);
    assert_eq!(feed.as_slice(), b"abcd");
    assert_eq!(2, feed.skip(2));
    assert_eq!(feed.as_slice(), b"cd");
}

#[test]
fn chunk_capacity_and_bytes() {
    let mut chunk = Chunk::with_capacity(16);
    assert!(chunk.capacity() >= chunk.len());
    chunk.push_byte(b'x');
    chunk.push_byte(b'y');
    assert_eq!(chunk.len(), 2);
    assert_eq!(chunk.skipped(), 0);
    assert_eq!(chunk.as_slice(), b"xy");
    assert!(chunk.capacity() >= 2);
    chunk.clear();
    assert_eq!(chunk.len(), 0);
}

#[test]
fn bytes_reader_consumes() {
    let mut reader = skimmer::feed::BytesReader::new(b"hello world".to_vec());
    assert!(reader.has(11));
    assert!(!reader.has(12));
    let chunk = reader.consume(5);
    assert_eq!(chunk.as_slice(), b"hello");
    assert_eq!(reader.skip(1), 1);
    let chunk = reader.consume(99);
    assert_eq!(chunk.as_slice(), b"world");
}

#[test]
fn feed_carriers_and_chunk_from() {
    let mut r = "feed text".into_reader();
    assert_eq!(r.slice(9), Some(&b"feed text"[..]));

    let mut r = String::from("owned feed").into_reader();
    assert_eq!(r.slice(10), Some(&b"owned feed"[..]));

    let mut r = vec![1u8, 2, 3].into_reader();
    assert_eq!(r.slice(3), Some(&[1u8, 2, 3][..]));

    let chunk = Chunk::from(vec![b'a', b'b']);
    assert_eq!(chunk.len(), 2);
    assert_eq!(chunk.as_slice(), b"ab");
}

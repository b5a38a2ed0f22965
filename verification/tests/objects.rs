use std::io::Read;
use rusty_git::kind::BlobKind;
use rusty_git::objects::{
    encode_object, find_blob, hash_object, locate_object, write_to_git, Object, ObjectError,
};

fn text(v: &[u8]) -> String {
    String::from_utf8(v.to_vec()).unwrap()
}

#[test]
fn empty_blob_has_gits_name() {
    assert_eq!(text(&hash_object(BlobKind::Blob, b"")), "e69de29bb2d1d6434b8b29ae775ad8c2e48c5391");
}

#[test]
fn hello_blob_has_gits_name() {
    assert_eq!(text(&hash_object(BlobKind::Blob, b"hello\n")), "ce013625030ba8dba906f756967f9e9ca394464a");
    assert_eq!(
        text(&hash_object(BlobKind::Blob, b"hello world\n")),
        "3b18e512dba79e4c8300dd08aeb37f8e728b8dad"
    );
}

#[test]
fn empty_tree_has_gits_name() {
    assert_eq!(text(&hash_object(BlobKind::Tree, b"")), "4b825dc642cb6eb9a060e54bf8d69288fbee4904");
}

#[test]
fn object_bytes_have_header() {
    assert_eq!(encode_object(BlobKind::Blob, b"abc"), b"blob 3\0abc".to_vec());
    assert_eq!(encode_object(BlobKind::Commit, b""), b"commit 0\0".to_vec());
    assert_eq!(encode_object(BlobKind::Tree, &[7u8; 12]).len(), "tree 12\0".len() + 12);
}

#[test]
fn kind_names() {
    assert_eq!(BlobKind::Blob.to_string(), "blob");
    assert_eq!(BlobKind::Commit.to_string(), "commit");
    assert_eq!(BlobKind::Tree.to_string(), "tree");
    assert_eq!(BlobKind::from_name(b"tree"), Some(BlobKind::Tree));
    assert_eq!(BlobKind::from_name(b"tag"), None);
}

#[test]
fn stored_object_reads_back() {
    let content = b"some file\nwith two lines\n";
    let sha = hash_object(BlobKind::Blob, content);
    let file = write_to_git(&sha, BlobKind::Blob, content).unwrap();
    assert_eq!(file.dir, sha[..2].to_vec());
    assert_eq!(file.file, sha[2..].to_vec());
    assert_ne!(file.data, encode_object(BlobKind::Blob, content));
    let obj = Object::read(&file.data).unwrap();
    assert_eq!(obj.kind, BlobKind::Blob);
    assert_eq!(obj.size, b"25".to_vec());
    assert_eq!(obj.buffer, content.to_vec());
}

#[test]
fn parse_reads_header_and_content() {
    let obj = Object::parse(b"commit 3\0abcdef").unwrap();
    assert_eq!(obj.kind, BlobKind::Commit);
    assert_eq!(obj.size, b"3".to_vec());
    assert_eq!(obj.buffer, b"abc".to_vec());
    let short = Object::parse(b"blob 10\0abc").unwrap();
    assert_eq!(short.buffer, b"abc".to_vec());
    let plus = Object::parse(b"blob +2\0abc").unwrap();
    assert_eq!(plus.size, b"+2".to_vec());
    assert_eq!(plus.buffer, b"ab".to_vec());
}

#[test]
fn parse_errors() {
    assert_eq!(Object::parse(b"blob 3").err(), Some(ObjectError::MissingNul));
    assert_eq!(Object::parse(b"blob\xff 3\0abc").err(), Some(ObjectError::InvalidUtf8));
    assert_eq!(Object::parse(b"blob3\0abc").err(), Some(ObjectError::MissingSpace));
    assert_eq!(Object::parse(b"tag 3\0abc").err(), Some(ObjectError::UnknownKind));
    assert_eq!(Object::parse("bl\u{e9}b 3\0abc".as_bytes()).err(), Some(ObjectError::UnknownKind));
    assert_eq!(Object::parse(b"blob x\0abc").err(), Some(ObjectError::BadSize));
    assert_eq!(Object::parse(b"blob -3\0abc").err(), Some(ObjectError::BadSize));
    assert_eq!(Object::parse(b"blob \0abc").err(), Some(ObjectError::BadSize));
    assert_eq!(
        Object::parse(b"blob 99999999999999999999999\0abc").err(),
        Some(ObjectError::BadSize)
    );
    assert_eq!(Object::read(b"not zlib at all").err(), Some(ObjectError::Corrupt));
}

#[test]
fn locate_needs_four_characters() {
    assert_eq!(locate_object(b"abc").err(), Some(ObjectError::ShortName));
    let (dir, prefix) = locate_object(b"ce0136").unwrap();
    assert_eq!(dir, b"ce".to_vec());
    assert_eq!(prefix, b"0136".to_vec());
}

#[test]
fn find_blob_picks_the_one_match() {
    let names = vec![b"0136aa".to_vec(), b"ffff".to_vec(), b"0137".to_vec()];
    assert_eq!(find_blob(b"0136", &names, &vec![true, true, true]), Ok(0));
    assert_eq!(find_blob(b"013", &names, &vec![true, true, true]), Err(ObjectError::Ambiguous));
    assert_eq!(find_blob(b"013", &names, &vec![false, true, true]), Ok(2));
    assert_eq!(find_blob(b"0136", &names, &vec![false, true, true]), Err(ObjectError::NotFound));
    assert_eq!(find_blob(b"abcd", &vec![], &vec![]), Err(ObjectError::NotFound));
}

#[test]
fn abbreviation_finds_stored_object() {
    let content = b"abbreviated\n";
    let sha = hash_object(BlobKind::Blob, content);
    let file = write_to_git(&sha, BlobKind::Blob, content).unwrap();
    let (dir, prefix) = locate_object(&sha[..7]).unwrap();
    assert_eq!(dir, file.dir);
    let names = vec![b"0000".to_vec(), file.file.clone()];
    assert_eq!(find_blob(&prefix, &names, &vec![true, true]), Ok(1));
}

#[test]
fn stored_bytes_inflate_to_the_object() {
    let content = b"inflate me";
    let sha = hash_object(BlobKind::Blob, content);
    let file = write_to_git(&sha, BlobKind::Blob, content).unwrap();
    let mut out = Vec::new();
    flate2::read::ZlibDecoder::new(&file.data[..]).read_to_end(&mut out).unwrap();
    assert_eq!(out, encode_object(BlobKind::Blob, content));
}

#[test]
fn broken_stream_after_header_keeps_what_came_out() {
    let mut x: u32 = 12345;
    let content: Vec<u8> = (0..100000)
        .map(|_| {
            x = x.wrapping_mul(1103515245).wrapping_add(12345);
            (x >> 16) as u8
        })
        .collect();
    let sha = hash_object(BlobKind::Blob, &content);
    let mut data = write_to_git(&sha, BlobKind::Blob, &content).unwrap().data;
    let n = data.len();
    data[n - 1] ^= 0xff;
    let obj = Object::read(&data).unwrap();
    assert_eq!(obj.kind, BlobKind::Blob);
    assert_eq!(obj.size, b"100000".to_vec());
    assert!(obj.buffer.len() <= content.len());
    assert_eq!(obj.buffer, content[..obj.buffer.len()].to_vec());
}

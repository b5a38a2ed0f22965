use rusty_git::kind::BlobKind;
use rusty_git::objects::{hash_object, Object};
use rusty_git::tree::{
    check_file_type, format_entry_with_size, hash_tree, ls_tree, parse_tree_entry, write_tree,
    FileObject, FileTypeError, LsAction, LsError, TreeError, TreeOptions,
};

fn text(v: &[u8]) -> String {
    String::from_utf8(v.to_vec()).unwrap()
}

fn sample() -> (Vec<FileObject>, Vec<u8>, Vec<u8>) {
    let blob = hash_object(BlobKind::Blob, b"hello\n");
    let sub = hash_object(BlobKind::Tree, b"");
    let files = vec![
        FileObject::new(0o100644, blob.clone(), b"hello.txt".to_vec()),
        FileObject::new(0o40755, sub.clone(), b"src".to_vec()),
    ];
    (files, blob, sub)
}

fn as_tree(content: Vec<u8>) -> Object {
    let size = content.len().to_string().into_bytes();
    Object { size, kind: BlobKind::Tree, buffer: content }
}

#[test]
fn file_object_new_keeps_fields() {
    let f = FileObject::new(0o100644, b"ab".to_vec(), b"x".to_vec());
    assert_eq!(f.mode, 0o100644);
    assert_eq!(f.sha, b"ab".to_vec());
    assert_eq!(f.name, b"x".to_vec());
}

#[test]
fn tree_content_layout() {
    let (files, blob, _) = sample();
    let tree = hash_tree(&files).unwrap();
    let mut expected = b"100644 hello.txt\0".to_vec();
    expected.extend(hex::decode(&blob).unwrap());
    expected.extend(b"40755 src\0");
    expected.extend(hex::decode(b"4b825dc642cb6eb9a060e54bf8d69288fbee4904").unwrap());
    assert_eq!(tree.content, expected);
    assert_eq!(tree.sha, hash_object(BlobKind::Tree, &expected));
    assert_eq!(write_tree(&files).unwrap(), tree.sha);
}

#[test]
fn bad_object_name_is_refused() {
    let files = vec![
        FileObject::new(0o100644, b"00".to_vec(), b"a".to_vec()),
        FileObject::new(0o100644, b"zz".to_vec(), b"b".to_vec()),
        FileObject::new(0o100644, b"abc".to_vec(), b"c".to_vec()),
    ];
    assert_eq!(hash_tree(&files).err(), Some(TreeError::BadSha(1)));
    let odd = vec![FileObject::new(0o100644, b"abc".to_vec(), b"c".to_vec())];
    assert_eq!(write_tree(&odd).err(), Some(TreeError::BadSha(0)));
}

#[test]
fn empty_tree() {
    let t = hash_tree(&vec![]).unwrap();
    assert!(t.content.is_empty());
    assert_eq!(text(&t.sha), "4b825dc642cb6eb9a060e54bf8d69288fbee4904");
}

#[test]
fn file_types() {
    assert_eq!(check_file_type(40000), Ok(BlobKind::Tree));
    assert_eq!(check_file_type(40755), Ok(BlobKind::Tree));
    assert_eq!(check_file_type(100644), Ok(BlobKind::Blob));
    assert_eq!(check_file_type(100755), Ok(BlobKind::Blob));
    assert_eq!(check_file_type(120000), Ok(BlobKind::Blob));
    assert_eq!(check_file_type(120777), Ok(BlobKind::Blob));
    assert_eq!(check_file_type(104755), Ok(BlobKind::Blob));
    assert_eq!(check_file_type(160000), Err(FileTypeError::UnknownType));
    assert_eq!(check_file_type(170000), Err(FileTypeError::UnknownType));
    assert_eq!(check_file_type(100648), Err(FileTypeError::NotOctal));
    assert_eq!(check_file_type(0), Err(FileTypeError::UnknownType));
}

#[test]
fn ls_tree_reads_back_written_tree() {
    let (files, blob, sub) = sample();
    let tree = as_tree(hash_tree(&files).unwrap().content);
    let listing = ls_tree(None, &tree);
    assert_eq!(listing.error, None);
    assert_eq!(listing.actions.len(), 2);
    match &listing.actions[0] {
        LsAction::Print(l) => {
            assert_eq!(*l, [b"100644 blob ".to_vec(), blob.clone(), b"    hello.txt".to_vec()].concat())
        }
        _ => panic!("expected a line"),
    }
    match &listing.actions[1] {
        LsAction::Print(l) => {
            assert_eq!(*l, [b"40755 tree ".to_vec(), sub.clone(), b"    src".to_vec()].concat())
        }
        _ => panic!("expected a line"),
    }
}

#[test]
fn ls_tree_options() {
    let (files, blob, sub) = sample();
    let tree = as_tree(hash_tree(&files).unwrap().content);
    let names = ls_tree(Some(TreeOptions::NamesOnly), &tree);
    assert!(matches!(&names.actions[0], LsAction::Print(l) if *l == b"hello.txt".to_vec()));
    let only = ls_tree(Some(TreeOptions::OnlyTrees), &tree);
    assert!(matches!(only.actions[0], LsAction::Skip));
    assert!(matches!(&only.actions[1], LsAction::Print(_)));
    let rec = ls_tree(Some(TreeOptions::Recurse), &tree);
    assert!(matches!(&rec.actions[0], LsAction::Print(_)));
    assert!(matches!(&rec.actions[1], LsAction::Recurse(h) if *h == sub));
    let sized = ls_tree(Some(TreeOptions::ShowSize), &tree);
    match &sized.actions[0] {
        LsAction::ShowSize(e) => {
            assert_eq!(e.hash, blob);
            assert_eq!(e.mode, 100644);
            assert_eq!(e.kind, BlobKind::Blob);
            assert_eq!(
                format_entry_with_size(e, b"6"),
                [b"100644 blob ".to_vec(), blob.clone(), b" 6    hello.txt".to_vec()].concat()
            );
        }
        _ => panic!("expected a size request"),
    }
}

#[test]
fn ls_tree_refuses_blob() {
    let obj = Object { size: b"0".to_vec(), kind: BlobKind::Blob, buffer: vec![] };
    let listing = ls_tree(None, &obj);
    assert!(listing.actions.is_empty());
    assert_eq!(listing.error, Some(LsError::NotATree(BlobKind::Blob)));
}

#[test]
fn ls_tree_errors_after_good_entries() {
    let mut content = b"100644 a\0".to_vec();
    content.extend([1u8; 20]);
    content.extend(b"nospace\0");
    let listing = ls_tree(None, &as_tree(content.clone()));
    assert_eq!(listing.actions.len(), 1);
    assert_eq!(listing.error, Some(LsError::MissingSpace));
    let mut bad_mode = b"1x0644 a\0".to_vec();
    bad_mode.extend([1u8; 20]);
    assert_eq!(ls_tree(None, &as_tree(bad_mode)).error, Some(LsError::BadMode));
    let mut bad_type = b"170000 a\0".to_vec();
    bad_type.extend([1u8; 20]);
    assert_eq!(
        ls_tree(None, &as_tree(bad_type)).error,
        Some(LsError::BadFileType(FileTypeError::UnknownType))
    );
}

#[test]
fn short_object_name_is_padded() {
    let content = b"40000 d\0\xab\xcd".to_vec();
    let (entry, next) = parse_tree_entry(&content, 0).unwrap().unwrap();
    assert_eq!(next, content.len());
    assert_eq!(text(&entry.hash), format!("abcd{}", "0".repeat(36)));
    assert_eq!(entry.name, b"d".to_vec());
    assert!(parse_tree_entry(&content, next).is_none());
}

#[test]
fn tree_entries_are_sorted_by_name() {
    let blob = hash_object(BlobKind::Blob, b"x");
    let sub = hash_object(BlobKind::Tree, b"");
    let files = vec![
        FileObject::new(0o100644, blob.clone(), b"b".to_vec()),
        FileObject::new(0o40755, sub.clone(), b"a".to_vec()),
        FileObject::new(0o100644, blob.clone(), b"a.txt".to_vec()),
    ];
    let tree = hash_tree(&files).unwrap();
    let listing = ls_tree(Some(TreeOptions::NamesOnly), &as_tree(tree.content.clone()));
    let names: Vec<Vec<u8>> = listing
        .actions
        .iter()
        .map(|a| match a {
            LsAction::Print(l) => l.clone(),
            _ => panic!("expected a name"),
        })
        .collect();
    assert_eq!(names, vec![b"a.txt".to_vec(), b"a".to_vec(), b"b".to_vec()]);
    let reordered = vec![
        FileObject::new(0o100644, blob.clone(), b"a.txt".to_vec()),
        FileObject::new(0o100644, blob.clone(), b"b".to_vec()),
        FileObject::new(0o40755, sub.clone(), b"a".to_vec()),
    ];
    assert_eq!(hash_tree(&reordered).unwrap().sha, tree.sha);
    assert_eq!(tree.sha.len(), 40);
}

#[test]
fn ignored_entries_leave_the_tree_alone() {
    let (files, _, _) = sample();
    let plain = hash_tree(&files).unwrap();
    let mut more = vec![FileObject::new(0o40755, b"not hex".to_vec(), b".git".to_vec())];
    more.extend(sample().0);
    more.push(FileObject::new(0o100644, Vec::new(), b"target".to_vec()));
    let with_ignored = hash_tree(&more).unwrap();
    assert_eq!(with_ignored.content, plain.content);
    assert_eq!(with_ignored.sha, plain.sha);
}

#[test]
fn link_and_setuid_entries_are_listed() {
    let blob = hash_object(BlobKind::Blob, b"target");
    let files = vec![
        FileObject::new(0o120777, blob.clone(), b"link".to_vec()),
        FileObject::new(0o104755, blob.clone(), b"tool".to_vec()),
    ];
    let tree = hash_tree(&files).unwrap();
    let listing = ls_tree(None, &as_tree(tree.content));
    assert_eq!(listing.error, None);
    match (&listing.actions[0], &listing.actions[1]) {
        (LsAction::Print(a), LsAction::Print(b)) => {
            assert_eq!(*a, [b"120777 blob ".to_vec(), blob.clone(), b"    link".to_vec()].concat());
            assert_eq!(*b, [b"104755 blob ".to_vec(), blob.clone(), b"    tool".to_vec()].concat());
        }
        _ => panic!("expected two lines"),
    }
}

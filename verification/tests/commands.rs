use rusty_git::cat::{cat_file, check_cat_option, CatAction, CatError, CatOptions};
use rusty_git::cli::{cat_option_from_flags, tree_option_from_flags};
use rusty_git::commit::commit_tree;
use rusty_git::index::{git_status, IndexError};
use rusty_git::kind::BlobKind;
use rusty_git::objects::{hash_object, write_to_git, Object};
use rusty_git::tree::TreeOptions;

fn printed(a: Result<CatAction, CatError>) -> Vec<u8> {
    match a {
        Ok(CatAction::Print(b)) => b,
        _ => panic!("expected printed bytes"),
    }
}

#[test]
fn cat_after_write() {
    let content = b"hello\n";
    let sha = hash_object(BlobKind::Blob, content);
    let file = write_to_git(&sha, BlobKind::Blob, content).unwrap();
    let obj = Object::read(&file.data).unwrap();
    assert_eq!(printed(cat_file(CatOptions::PrettyPrint, &obj)), content.to_vec());
    assert_eq!(printed(cat_file(CatOptions::ShowSize, &obj)), b"6".to_vec());
    assert_eq!(printed(cat_file(CatOptions::ShowType, &obj)), b"blob".to_vec());
}

#[test]
fn cat_kinds() {
    let commit = Object { size: b"+2".to_vec(), kind: BlobKind::Commit, buffer: b"ab".to_vec() };
    assert_eq!(printed(cat_file(CatOptions::ShowType, &commit)), b"commit".to_vec());
    assert_eq!(printed(cat_file(CatOptions::ShowSize, &commit)), b"2".to_vec());
    assert_eq!(printed(cat_file(CatOptions::PrettyPrint, &commit)), b"ab".to_vec());
    let tree = Object { size: b"0".to_vec(), kind: BlobKind::Tree, buffer: vec![] };
    assert!(matches!(cat_file(CatOptions::PrettyPrint, &tree), Ok(CatAction::ListTree)));
    assert_eq!(printed(cat_file(CatOptions::ShowType, &tree)), b"tree".to_vec());
}

#[test]
fn cat_errors() {
    assert_eq!(check_cat_option(None).err(), Some(CatError::MissingOption));
    assert_eq!(check_cat_option(Some(CatOptions::ShowSize)).ok(), Some(CatOptions::ShowSize));
    let short = Object { size: b"5".to_vec(), kind: BlobKind::Blob, buffer: b"abc".to_vec() };
    assert_eq!(cat_file(CatOptions::ShowSize, &short).err(), Some(CatError::Truncated));
    let bad = Object { size: b"five".to_vec(), kind: BlobKind::Blob, buffer: b"abc".to_vec() };
    assert_eq!(cat_file(CatOptions::ShowType, &bad).err(), Some(CatError::BadSize));
}

#[test]
fn flags_choose_options() {
    assert_eq!(cat_option_from_flags(true, true, true), Some(CatOptions::PrettyPrint));
    assert_eq!(cat_option_from_flags(false, true, true), Some(CatOptions::ShowSize));
    assert_eq!(cat_option_from_flags(false, false, true), Some(CatOptions::ShowType));
    assert_eq!(cat_option_from_flags(false, false, false), None);
    assert_eq!(tree_option_from_flags(true, true, true, true), Some(TreeOptions::OnlyTrees));
    assert_eq!(tree_option_from_flags(false, true, true, true), Some(TreeOptions::ShowSize));
    assert_eq!(tree_option_from_flags(false, false, true, true), Some(TreeOptions::Recurse));
    assert_eq!(tree_option_from_flags(false, false, false, true), Some(TreeOptions::NamesOnly));
    assert_eq!(tree_option_from_flags(false, false, false, false), None);
}

#[test]
fn commit_layout() {
    let tree = b"4b825dc642cb6eb9a060e54bf8d69288fbee4904";
    let c = commit_tree(tree, None, 1700000000, 7200, b"first");
    let expected = b"tree 4b825dc642cb6eb9a060e54bf8d69288fbee4904\n\
author sh7toot <sh7toot@github.com> 1700000000 +02:00\n\
committer sh7toot <sh7toot@github.com> 1700000000 +02:00\n\nfirst";
    assert_eq!(c.content, expected.to_vec());
    assert_eq!(c.sha, hash_object(BlobKind::Commit, expected));
}

#[test]
fn commit_with_parent_and_odd_zone() {
    let c = commit_tree(b"t", Some(b"p"), -5, -(5 * 3600 + 30 * 60 + 15), b"m");
    let expected = b"tree t\nparent p\nauthor sh7toot <sh7toot@github.com> -5 -05:30:15\n\
committer sh7toot <sh7toot@github.com> -5 -05:30:15\n\nm";
    assert_eq!(c.content, expected.to_vec());
    let z = commit_tree(b"t", None, 0, 0, b"");
    assert!(z.content.ends_with(b" 0 +00:00\n\n"));
}

#[test]
fn commit_chain_names_its_parent() {
    let tree = b"4b825dc642cb6eb9a060e54bf8d69288fbee4904";
    let first = commit_tree(tree, None, 10, 0, b"one");
    let second = commit_tree(tree, Some(&first.sha), 20, 0, b"two");
    let mut line = b"parent ".to_vec();
    line.extend(&first.sha);
    line.push(b'\n');
    let lines: Vec<&[u8]> = second.content.split(|b| *b == b'\n').collect();
    assert_eq!(lines[1], &line[..line.len() - 1]);
    assert_eq!(first.sha.len(), 40);
    assert_eq!(second.sha.len(), 40);
}

#[test]
fn cat_reads_back_stored_commit_type() {
    let content = b"tree t\n";
    let sha = hash_object(BlobKind::Commit, content);
    let file = write_to_git(&sha, BlobKind::Commit, content).unwrap();
    let obj = Object::read(&file.data).unwrap();
    assert_eq!(printed(cat_file(CatOptions::ShowType, &obj)), b"commit".to_vec());
}

fn index_with(names: &[&[u8]], count: u32) -> Vec<u8> {
    let mut d = b"DIRC\0\0\0\x02".to_vec();
    d.extend(count.to_be_bytes());
    for n in names {
        d.extend([0u8; 62]);
        d.extend(*n);
        d.push(0);
        d.extend([0u8; 7]);
    }
    d
}

#[test]
fn status_reads_names() {
    let d = index_with(&[b"a.txt", b"dir/b"], 2);
    let l = git_status(&d);
    assert_eq!(l.header, Some(d[..12].to_vec()));
    assert_eq!(l.count, 2);
    assert_eq!(l.names, vec![b"a.txt".to_vec(), b"dir/b".to_vec()]);
    assert_eq!(l.error, None);
}

#[test]
fn status_errors() {
    let short = git_status(b"DIRC");
    assert_eq!(short.header, None);
    assert_eq!(short.error, Some(IndexError::Truncated));
    let d = index_with(&[b"a.txt"], 3);
    let l = git_status(&d);
    assert_eq!(l.names, vec![b"a.txt".to_vec()]);
    assert_eq!(l.error, Some(IndexError::Truncated));
    let mut e = index_with(&[], 1);
    e.extend([0u8; 62]);
    assert_eq!(git_status(&e).error, Some(IndexError::EmptyName));
    let mut t = index_with(&[], 1);
    t.extend([0u8; 62]);
    t.extend(b"abc");
    let lt = git_status(&t);
    assert_eq!(lt.names, vec![b"ab".to_vec()]);
    assert_eq!(lt.error, Some(IndexError::Truncated));
}

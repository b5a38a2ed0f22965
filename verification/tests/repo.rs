use rusty_git::repo::{
    assert_wd_is_repo, get_wd, git_add, init_repo, is_ignored, should_initialize, trim_git, walk_step, RepoError,
    WalkStep,
};

#[test]
fn init_layout() {
    let l = init_repo(b"/home/me", None);
    assert_eq!(l.wd, b"/home/me".to_vec());
    assert_eq!(l.git_dir, b"/home/me/.git".to_vec());
    assert_eq!(l.heads_dir, b"/home/me/.git/refs/heads".to_vec());
    assert_eq!(l.objects_dir, b"/home/me/.git/objects".to_vec());
    assert_eq!(l.head_file, b"/home/me/.git/HEAD".to_vec());
    assert_eq!(l.head_content, b"ref: refs/heads/main\n".to_vec());
}

#[test]
fn init_name_is_a_directory_inside() {
    assert_eq!(init_repo(b"/home/me", Some(b".")).wd, b"/home/me".to_vec());
    assert_eq!(init_repo(b"/home/me", Some(b"proj")).wd, b"/home/me/proj".to_vec());
    assert_eq!(init_repo(b"/home/me", Some(b"proj")).git_dir, b"/home/me/proj/.git".to_vec());
    assert_eq!(init_repo(b"/", Some(b"proj")).wd, b"/proj".to_vec());
    assert_eq!(init_repo(b"/home/me", Some(b"/srv/x")).wd, b"/srv/x".to_vec());
}

#[test]
fn new_head_is_a_repo() {
    let l = init_repo(b"/x", None);
    assert_eq!(assert_wd_is_repo(&l.head_content), Ok(()));
    assert_eq!(assert_wd_is_repo(b"ref: refs/heads/main\n"), Ok(()));
    assert_eq!(assert_wd_is_repo(b"ref: refs/hea"), Err(RepoError::BadHead));
    assert_eq!(assert_wd_is_repo(b""), Err(RepoError::BadHead));
}

#[test]
fn ignored_names() {
    for n in ["target", ".git", ".gitignore", ".env"] {
        assert!(is_ignored(n.as_bytes()));
    }
    for n in ["src", "targets", ".gi", "", "README.md"] {
        assert!(!is_ignored(n.as_bytes()));
    }
}

#[test]
fn wd_search() {
    let anc = vec![b"/a/b/c".to_vec(), b"/a/b".to_vec(), b"/a".to_vec(), b"/".to_vec()];
    assert_eq!(get_wd(&anc, &vec![false, true, true, false]), Ok(b"/a/b".to_vec()));
    assert_eq!(get_wd(&anc, &vec![true, false, false, false]), Ok(b"/a/b/c".to_vec()));
    assert_eq!(get_wd(&anc, &vec![false, false, false, true]), Err(RepoError::NotARepository));
    assert_eq!(get_wd(&vec![], &vec![]), Err(RepoError::NotARepository));
}

#[test]
fn wd_inside_git_dir_is_trimmed() {
    let anc = vec![b"/a/.git".to_vec(), b"/a".to_vec(), b"/".to_vec()];
    assert_eq!(get_wd(&anc, &vec![true, true, false]), Ok(b"/a".to_vec()));
    assert_eq!(trim_git(b"/x/.git/.git"), b"/x".to_vec());
    assert_eq!(trim_git(b".git"), b".git".to_vec());
}

#[test]
fn add_lists_only_for_dot() {
    assert!(git_add(&vec![b".".to_vec()]));
    assert!(git_add(&vec![b".".to_vec(), b"x".to_vec()]));
    assert!(!git_add(&vec![b"file.txt".to_vec()]));
}

#[test]
fn walk_skips_ignored_entries() {
    assert_eq!(walk_step(b"src", true, false), WalkStep::Descend);
    assert_eq!(walk_step(b"main.rs", false, true), WalkStep::Take);
    assert_eq!(walk_step(b"target", true, false), WalkStep::Skip);
    assert_eq!(walk_step(b".env", false, true), WalkStep::Skip);
    assert_eq!(walk_step(b"socket", false, false), WalkStep::Skip);
}

#[test]
fn second_init_changes_nothing() {
    let l = init_repo(b"/x", Some(b"proj"));
    assert!(should_initialize(None));
    assert!(should_initialize(Some(b"garbage")));
    assert!(!should_initialize(Some(&l.head_content)));
}

//! The repository around the object store: where it is, how it is laid out,
//! and which files it tracks.

use vstd::prelude::*;
use crate::text::{bytes_eq, has_prefix, push_all, starts_with};

verus! {

/// Why the working directory is not a repository.
#[derive(Clone, Copy, Debug, PartialEq, Eq, Structural)]
pub enum RepoError {
    /// No `.git` directory was found above the working directory.
    NotARepository,
    /// The `HEAD` file does not begin as a repository's does.
    BadHead,
}

/// The suffix `/.git` that names a repository's directory.
pub open spec fn git_suffix() -> Seq<u8> {
    seq![47u8, 46u8, 103u8, 105u8, 116u8]
}

/// The text that a new repository's `HEAD` holds: `ref: refs/heads/main`
/// and a newline, the branch that commits go to.
pub open spec fn head_text() -> Seq<u8> {
    seq![114u8, 101u8, 102u8, 58u8, 32u8, 114u8, 101u8, 102u8, 115u8, 47u8, 104u8, 101u8, 97u8, 100u8, 115u8, 47u8, 109u8, 97u8, 105u8, 110u8, 10u8]
}

/// The beginning that a repository's `HEAD` must have.
pub open spec fn head_prefix() -> Seq<u8> {
    seq![114u8, 101u8, 102u8, 58u8, 32u8, 114u8, 101u8, 102u8, 115u8, 47u8, 104u8, 101u8, 97u8, 100u8]
}

/// The names that are never tracked: `target`, `.git`, `.gitignore`, `.env`.
pub open spec fn ignored_names() -> Seq<Seq<u8>> {
    seq![seq![116u8, 97u8, 114u8, 103u8, 101u8, 116u8], seq![46u8, 103u8, 105u8, 116u8], seq![46u8, 103u8, 105u8, 116u8, 105u8, 103u8, 110u8, 111u8, 114u8, 101u8], seq![46u8, 101u8, 110u8, 118u8]]
}

/// `s` ends with `/.git`.
pub open spec fn has_git_suffix(s: Seq<u8>) -> bool {
    s.len() >= 5 && s.skip(s.len() - 5) == git_suffix()
}

/// `s` with every trailing `/.git` removed, as `trim_end_matches` does.
pub open spec fn trim_git_suffix(s: Seq<u8>) -> Seq<u8>
    decreases s.len(),
{
    if has_git_suffix(s) {
        trim_git_suffix(s.take(s.len() - 5))
    } else {
        s
    }
}

fn git_suffix_bytes() -> (res: Vec<u8>)
    ensures
        res@ == git_suffix(),
{
    let v = vec![47u8, 46u8, 103u8, 105u8, 116u8];
    assert(v@ =~= git_suffix());
    v
}

/// `path` with every trailing `/.git` removed.
pub fn trim_git(path: &[u8]) -> (res: Vec<u8>)
    ensures
        res@ == trim_git_suffix(path@),
{
    let suffix = git_suffix_bytes();
    let mut end: usize = path.len();
    assert(path@.take(end as int) =~= path@);
    while end >= 5 && bytes_eq(crate::text::copy_range(path, end - 5, end).as_slice(), suffix.as_slice())
        invariant
            end <= path@.len(),
            suffix@ == git_suffix(),
            trim_git_suffix(path@) == trim_git_suffix(path@.take(end as int)),
        decreases end,
    {
        assert(path@.take(end as int).skip(end - 5) =~= path@.subrange(end - 5, end as int));
        assert(path@.take(end as int).take(end - 5) =~= path@.take(end - 5));
        end = end - 5;
    }
    let res = crate::text::copy_range(path, 0, end);
    proof {
        if end >= 5 {
            assert(path@.take(end as int).skip(end - 5) =~= path@.subrange(end - 5, end as int));
        }
    }
    assert(res@ =~= path@.take(end as int));
    res
}

/// Finds the root of the repository that holds the working directory.
/// `ancestors` are the working directory and each of its parents in turn, up
/// to the root of the file system; `git_dirs[i]` says whether
/// `ancestors[i]` followed by `/.git` is a directory. The root of the file
/// system itself is not searched. The result is the first such path, with
/// every trailing `/.git` removed.
pub fn get_wd(ancestors: &Vec<Vec<u8>>, git_dirs: &Vec<bool>) -> (res: Result<Vec<u8>, RepoError>)
    requires
        ancestors@.len() == git_dirs@.len(),
    ensures
        match res {
            Ok(root) => exists|i: int|
                0 <= i < ancestors@.len() - 1 && git_dirs@[i] && (forall|j: int|
                    0 <= j < i ==> !git_dirs@[j]) && root@ == trim_git_suffix(
                    ancestors@[i]@ + git_suffix(),
                ),
            Err(e) => e == RepoError::NotARepository && forall|j: int|
                0 <= j < ancestors@.len() - 1 ==> !git_dirs@[j],
        },
{
    let suffix = git_suffix_bytes();
    let n = ancestors.len();
    if n == 0 {
        return Err(RepoError::NotARepository);
    }
    let mut i: usize = 0;
    while i < n - 1
        invariant
            n == ancestors@.len(),
            n > 0,
            ancestors@.len() == git_dirs@.len(),
            i <= ancestors@.len(),
            suffix@ == git_suffix(),
            forall|j: int| 0 <= j < i ==> !git_dirs@[j],
        decreases ancestors.len() - i,
    {
        if git_dirs[i] {
            let mut candidate: Vec<u8> = Vec::new();
            push_all(&mut candidate, ancestors[i].as_slice());
            push_all(&mut candidate, suffix.as_slice());
            return Ok(trim_git(candidate.as_slice()));
        }
        i = i + 1;
    }
    Err(RepoError::NotARepository)
}

/// Whether `name` is never tracked (see `ignored_names`).
pub fn is_ignored(name: &[u8]) -> (res: bool)
    ensures
        res == ignored_names().contains(name@),
{
    let target = vec![116u8, 97u8, 114u8, 103u8, 101u8, 116u8];
    let git = vec![46u8, 103u8, 105u8, 116u8];
    let gitignore = vec![46u8, 103u8, 105u8, 116u8, 105u8, 103u8, 110u8, 111u8, 114u8, 101u8];
    let env = vec![46u8, 101u8, 110u8, 118u8];
    let ghost names = ignored_names();
    assert(target@ =~= names[0] && git@ =~= names[1] && gitignore@ =~= names[2] && env@ =~= names[3]);
    let res = bytes_eq(name, target.as_slice()) || bytes_eq(name, git.as_slice()) || bytes_eq(
        name,
        gitignore.as_slice(),
    ) || bytes_eq(name, env.as_slice());
    proof {
        if names.contains(name@) {
            let k = choose|k: int| 0 <= k < names.len() && names[k] == name@;
            assert(k == 0 || k == 1 || k == 2 || k == 3);
        }
        if res {
            if name@ == names[0] {
                assert(names.contains(name@));
            } else if name@ == names[1] {
                assert(names.contains(name@));
            } else if name@ == names[2] {
                assert(names.contains(name@));
            } else {
                assert(names[3] == name@);
                assert(names.contains(name@));
            }
        }
    }
    res
}

/// What a walk of the working directory does with one of its entries.
#[derive(Clone, Copy, Debug, PartialEq, Eq, Structural)]
pub enum WalkStep {
    /// Walk into this directory.
    Descend,
    /// Take this file.
    Take,
    /// Leave this entry out.
    Skip,
}

/// What a walk of the working directory does with the entry `name`: it
/// walks into a tracked directory, takes a tracked regular file, and leaves
/// out everything else (see `ignored_names`).
pub fn walk_step(name: &[u8], is_dir: bool, is_file: bool) -> (res: WalkStep)
    ensures
        res == (if ignored_names().contains(name@) {
            WalkStep::Skip
        } else if is_dir {
            WalkStep::Descend
        } else if is_file {
            WalkStep::Take
        } else {
            WalkStep::Skip
        }),
{
    if is_ignored(name) {
        WalkStep::Skip
    } else if is_dir {
        WalkStep::Descend
    } else if is_file {
        WalkStep::Take
    } else {
        WalkStep::Skip
    }
}

/// Whether the `HEAD` of a repository holds `content` as a repository's
/// `HEAD` does: it must begin with `ref: refs/head`.
pub fn assert_wd_is_repo(content: &[u8]) -> (res: Result<(), RepoError>)
    ensures
        res is Ok <==> has_prefix(content@, head_prefix()),
        res is Err ==> res == Err::<(), RepoError>(RepoError::BadHead),
{
    let prefix = vec![114u8, 101u8, 102u8, 58u8, 32u8, 114u8, 101u8, 102u8, 115u8, 47u8, 104u8, 101u8, 97u8, 100u8];
    assert(prefix@ =~= head_prefix());
    if starts_with(content, prefix.as_slice()) {
        Ok(())
    } else {
        Err(RepoError::BadHead)
    }
}

/// Whether `init` lays out a repository, given what the `HEAD` file of its
/// target holds (`None` where it cannot be read as text): it does unless
/// that `HEAD` already passes the repository check, in which case it
/// changes nothing.
pub fn should_initialize(head: Option<&[u8]>) -> (res: bool)
    ensures
        res == !(match head {
            Some(h) => has_prefix(h@, head_prefix()),
            None => false,
        }),
{
    match head {
        Some(h) => assert_wd_is_repo(h).is_err(),
        None => true,
    }
}

/// The layout of a new repository: its working directory, its `.git`
/// directory, the directories for branches and objects, the `HEAD` file and
/// what it holds.
pub struct RepoLayout {
    pub wd: Vec<u8>,
    pub git_dir: Vec<u8>,
    pub heads_dir: Vec<u8>,
    pub objects_dir: Vec<u8>,
    pub head_file: Vec<u8>,
    pub head_content: Vec<u8>,
}

/// The working directory that `init` sets up from the current directory
/// `cwd` and the name it was given, as a path is joined: `.` means `cwd`
/// itself, an absolute name stands for itself, and any other name is a
/// directory inside `cwd`.
pub open spec fn init_dir(cwd: Seq<u8>, name: Option<Seq<u8>>) -> Seq<u8> {
    match name {
        Some(n) => if n == seq![46u8] {
            cwd
        } else if n.len() > 0 && n[0] == 47u8 {
            n
        } else if cwd.len() > 0 && cwd.last() == 47u8 {
            cwd + n
        } else {
            cwd + seq![47u8] + n
        },
        None => cwd,
    }
}

/// Lays out a new repository (see `init_dir`): `.git` under the working
/// directory, `refs/heads` and `objects` under it, and a `HEAD` that holds
/// `ref: refs/heads/main` and a newline.
pub fn init_repo(cwd: &[u8], name: Option<&[u8]>) -> (res: RepoLayout)
    ensures
        res.wd@ == init_dir(
            cwd@,
            match name {
                Some(n) => Some(n@),
                None => None,
            },
        ),
        res.git_dir@ == res.wd@ + git_suffix(),
        res.heads_dir@ == res.git_dir@ + seq![47u8, 114u8, 101u8, 102u8, 115u8, 47u8, 104u8, 101u8, 97u8, 100u8, 115u8],
        res.objects_dir@ == res.git_dir@ + seq![47u8, 111u8, 98u8, 106u8, 101u8, 99u8, 116u8, 115u8],
        res.head_file@ == res.git_dir@ + seq![47u8, 72u8, 69u8, 65u8, 68u8],
        res.head_content@ == head_text(),
{
    let mut wd: Vec<u8> = Vec::new();
    match name {
        Some(n) => {
            let dot = vec![46u8];
            assert(dot@ =~= seq![46u8]);
            if bytes_eq(n, dot.as_slice()) {
                push_all(&mut wd, cwd);
            } else if n.len() > 0 && n[0] == 47u8 {
                push_all(&mut wd, n);
            } else if cwd.len() > 0 && cwd[cwd.len() - 1] == 47u8 {
                push_all(&mut wd, cwd);
                push_all(&mut wd, n);
            } else {
                push_all(&mut wd, cwd);
                wd.push(47u8);
                push_all(&mut wd, n);
            }
        },
        None => {
            push_all(&mut wd, cwd);
        },
    }
    assert(wd@ =~= init_dir(
        cwd@,
        match name {
            Some(n) => Some(n@),
            None => None,
        },
    ));
    let mut git_dir: Vec<u8> = Vec::new();
    push_all(&mut git_dir, wd.as_slice());
    push_all(&mut git_dir, git_suffix_bytes().as_slice());
    let mut heads_dir: Vec<u8> = Vec::new();
    push_all(&mut heads_dir, git_dir.as_slice());
    push_all(&mut heads_dir, vec![47u8, 114u8, 101u8, 102u8, 115u8, 47u8, 104u8, 101u8, 97u8, 100u8, 115u8].as_slice());
    let mut objects_dir: Vec<u8> = Vec::new();
    push_all(&mut objects_dir, git_dir.as_slice());
    push_all(&mut objects_dir, vec![47u8, 111u8, 98u8, 106u8, 101u8, 99u8, 116u8, 115u8].as_slice());
    let mut head_file: Vec<u8> = Vec::new();
    push_all(&mut head_file, git_dir.as_slice());
    push_all(&mut head_file, vec![47u8, 72u8, 69u8, 65u8, 68u8].as_slice());
    let head_content = vec![114u8, 101u8, 102u8, 58u8, 32u8, 114u8, 101u8, 102u8, 115u8, 47u8, 104u8, 101u8, 97u8, 100u8, 115u8, 47u8, 109u8, 97u8, 105u8, 110u8, 10u8];
    assert(heads_dir@ =~= git_dir@ + seq![47u8, 114u8, 101u8, 102u8, 115u8, 47u8, 104u8, 101u8, 97u8, 100u8, 115u8]);
    assert(objects_dir@ =~= git_dir@ + seq![47u8, 111u8, 98u8, 106u8, 101u8, 99u8, 116u8, 115u8]);
    assert(head_file@ =~= git_dir@ + seq![47u8, 72u8, 69u8, 65u8, 68u8]);
    assert(head_content@ =~= head_text());
    RepoLayout { wd, git_dir, heads_dir, objects_dir, head_file, head_content }
}

/// Whether `add` lists the tracked files: only when its first argument is
/// `.`.
pub fn git_add(args: &Vec<Vec<u8>>) -> (res: bool)
    requires
        args@.len() > 0,
    ensures
        res == (args@[0]@ == seq![46u8]),
{
    let dot = vec![46u8];
    assert(dot@ =~= seq![46u8]);
    bytes_eq(args[0].as_slice(), dot.as_slice())
}

} // verus!

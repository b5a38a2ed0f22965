//! Tree objects: writing the tree of a directory and listing a stored tree.

use vstd::prelude::*;
use crate::encoding::{hex_bytes, hex_decode, hex_encode, hex_text, is_lower_hex};
use crate::repo::{ignored_names, is_ignored};
use crate::kind::{kind_name, BlobKind};
use crate::objects::{hash_object, object_name, Object};
use crate::text::{
    copy_range, decimal, decimal_bytes, find_byte, first_index, lemma_first_index, lex_le, lex_le_bytes,
    octal, octal_bytes, parse_unsigned, parse_unsigned_bytes, push_all, until_nul_end, until_nul_len,
    without_nul,
};

verus! {

/// An entry of a directory that goes into its tree: the file mode, the
/// object name (hexadecimal) and the file name.
pub struct FileObject {
    pub mode: u32,
    pub sha: Vec<u8>,
    pub name: Vec<u8>,
}

impl View for FileObject {
    type V = (u32, Seq<u8>, Seq<u8>);

    open spec fn view(&self) -> (u32, Seq<u8>, Seq<u8>) {
        (self.mode, self.sha@, self.name@)
    }
}

impl FileObject {
    /// An entry with the given mode, object name and file name.
    pub fn new(mode: u32, sha: Vec<u8>, name: Vec<u8>) -> (res: FileObject)
        ensures
            res.mode == mode,
            res.sha@ == sha@,
            res.name@ == name@,
    {
        FileObject { mode, sha, name }
    }
}

/// Why a tree could not be written.
#[derive(Clone, Copy, Debug, PartialEq, Eq, Structural)]
pub enum TreeError {
    /// The object name of the entry at this index is not hexadecimal text.
    BadSha(usize),
}

/// The bytes of one tree entry: the octal mode, a space, the file name, a
/// NUL, and the raw object name.
pub open spec fn tree_entry_bytes(mode: u32, name: Seq<u8>, raw: Seq<u8>) -> Seq<u8> {
    octal(mode as nat) + seq![32u8] + name + seq![0u8] + raw
}

/// The contents of a tree that holds `files` in this order; `Err(i)` where
/// `i` is the first entry whose object name is not hexadecimal text.
pub open spec fn tree_content(files: Seq<(u32, Seq<u8>, Seq<u8>)>) -> Result<Seq<u8>, nat>
    decreases files.len(),
{
    if files.len() == 0 {
        Ok(Seq::empty())
    } else {
        match tree_content(files.drop_last()) {
            Err(i) => Err(i),
            Ok(prefix) => match hex_bytes(files.last().1) {
                None => Err((files.len() - 1) as nat),
                Some(raw) => Ok(prefix + tree_entry_bytes(files.last().0, files.last().2, raw)),
            },
        }
    }
}

/// Whether a file mode is a directory's.
pub open spec fn is_dir_mode(mode: u32) -> bool {
    mode & 0o170000u32 == 0o40000u32
}

/// What git orders the entries of a tree by: the file name, followed by `/`
/// for a directory.
pub open spec fn entry_key(f: (u32, Seq<u8>, Seq<u8>)) -> Seq<u8> {
    if is_dir_mode(f.0) {
        f.2.push(47u8)
    } else {
        f.2
    }
}

/// `f` put into `s` after the leading entries whose keys do not come after
/// its own.
pub open spec fn insert_entry(f: (u32, Seq<u8>, Seq<u8>), s: Seq<(u32, Seq<u8>, Seq<u8>)>) -> Seq<
    (u32, Seq<u8>, Seq<u8>),
>
    decreases s.len(),
{
    if s.len() == 0 {
        seq![f]
    } else if lex_le(entry_key(s[0]), entry_key(f)) {
        seq![s[0]] + insert_entry(f, s.drop_first())
    } else {
        seq![f] + s
    }
}

/// The entries in the byte order of their keys (see `entry_key`); entries
/// with equal keys keep their order.
pub open spec fn sort_entries(fs: Seq<(u32, Seq<u8>, Seq<u8>)>) -> Seq<(u32, Seq<u8>, Seq<u8>)>
    decreases fs.len(),
{
    if fs.len() == 0 {
        Seq::empty()
    } else {
        insert_entry(fs.last(), sort_entries(fs.drop_last()))
    }
}

/// The entries whose names are tracked (see `ignored_names`), in order.
pub open spec fn tracked_entries(fs: Seq<(u32, Seq<u8>, Seq<u8>)>) -> Seq<(u32, Seq<u8>, Seq<u8>)>
    decreases fs.len(),
{
    if fs.len() == 0 {
        Seq::empty()
    } else if ignored_names().contains(fs.last().2) {
        tracked_entries(fs.drop_last())
    } else {
        tracked_entries(fs.drop_last()).push(fs.last())
    }
}

/// The entries that the tree of a directory holds, in the order it holds
/// them: the tracked ones, sorted by key.
pub open spec fn tree_entries(fs: Seq<(u32, Seq<u8>, Seq<u8>)>) -> Seq<(u32, Seq<u8>, Seq<u8>)> {
    sort_entries(tracked_entries(fs))
}

/// The index of the first tracked entry whose object name is not
/// hexadecimal text, if there is one.
pub open spec fn bad_entry(fs: Seq<(u32, Seq<u8>, Seq<u8>)>) -> Option<nat>
    decreases fs.len(),
{
    if fs.len() == 0 {
        None
    } else {
        match bad_entry(fs.drop_last()) {
            Some(i) => Some(i),
            None => if !ignored_names().contains(fs.last().2) && hex_bytes(fs.last().1) is None {
                Some((fs.len() - 1) as nat)
            } else {
                None
            },
        }
    }
}

/// Once some entry is bad, every longer list of entries has the same first
/// bad entry.
proof fn lemma_bad_entry_prefix(fs: Seq<(u32, Seq<u8>, Seq<u8>)>, k: int)
    requires
        0 <= k <= fs.len(),
        bad_entry(fs.take(k)) is Some,
    ensures
        bad_entry(fs) == bad_entry(fs.take(k)),
    decreases fs.len() - k,
{
    if k < fs.len() {
        assert(fs.take(k + 1).drop_last() =~= fs.take(k));
        lemma_bad_entry_prefix(fs, k + 1);
    } else {
        assert(fs.take(k) =~= fs);
    }
}

/// Inserting at the position that a scan finds: after the entries whose
/// keys do not come after `f`'s, before the first whose key does.
proof fn lemma_insert_at(f: (u32, Seq<u8>, Seq<u8>), s: Seq<(u32, Seq<u8>, Seq<u8>)>, p: int)
    requires
        0 <= p <= s.len(),
        forall|q: int| 0 <= q < p ==> lex_le(entry_key(#[trigger] s[q]), entry_key(f)),
        p < s.len() ==> !lex_le(entry_key(s[p]), entry_key(f)),
    ensures
        insert_entry(f, s) == s.insert(p, f),
    decreases s.len(),
{
    if s.len() == 0 {
        assert(s.insert(p, f) =~= seq![f]);
    } else if p == 0 {
        assert(s.insert(0, f) =~= seq![f] + s);
    } else {
        let rest = s.drop_first();
        assert(lex_le(entry_key(s[0]), entry_key(f)));
        assert forall|q: int| 0 <= q < p - 1 implies lex_le(entry_key(#[trigger] rest[q]), entry_key(f)) by {
            assert(rest[q] == s[q + 1]);
        }
        lemma_insert_at(f, rest, p - 1);
        assert(s.insert(p, f) =~= seq![s[0]] + rest.insert(p - 1, f));
    }
}

/// Inserting an entry makes the list one longer.
proof fn lemma_insert_entry_len(f: (u32, Seq<u8>, Seq<u8>), s: Seq<(u32, Seq<u8>, Seq<u8>)>)
    ensures
        insert_entry(f, s).len() == s.len() + 1,
    decreases s.len(),
{
    if s.len() > 0 {
        lemma_insert_entry_len(f, s.drop_first());
    }
}

/// Sorting keeps the number of entries.
proof fn lemma_sort_entries_len(fs: Seq<(u32, Seq<u8>, Seq<u8>)>)
    ensures
        sort_entries(fs).len() == fs.len(),
    decreases fs.len(),
{
    if fs.len() > 0 {
        lemma_sort_entries_len(fs.drop_last());
        lemma_insert_entry_len(fs.last(), sort_entries(fs.drop_last()));
    }
}

/// A tree object ready to be stored: its content and its name.
pub struct TreeObject {
    pub content: Vec<u8>,
    pub sha: Vec<u8>,
}

/// The key of an entry (see `entry_key`).
fn entry_key_bytes(f: &FileObject) -> (res: Vec<u8>)
    ensures
        res@ == entry_key(f@),
{
    let mut key: Vec<u8> = Vec::new();
    push_all(&mut key, f.name.as_slice());
    if f.mode & 0o170000u32 == 0o40000u32 {
        key.push(47u8);
    }
    assert(key@ =~= entry_key(f@));
    key
}

/// Builds the tree object of a directory whose entries (already stored) are
/// `files`. Entries whose names are never tracked are left out; the others
/// are sorted by name, a directory's name counting as followed by `/` (see
/// `tree_entries`). Each is written as octal mode, space, name, NUL and the
/// 20 raw bytes of its object name. The result holds that content and the
/// tree's name. It fails at the first tracked entry whose object name is not
/// hexadecimal text.
pub fn hash_tree(files: &Vec<FileObject>) -> (res: Result<TreeObject, TreeError>)
    ensures
        match bad_entry(files@.map_values(|f: FileObject| f@)) {
            Some(i) => res == Err::<TreeObject, _>(TreeError::BadSha(i as usize)),
            None => res matches Ok(t) && tree_content(tree_entries(files@.map_values(|f: FileObject| f@)))
                == Ok::<Seq<u8>, nat>(t.content@) && t.sha@ == object_name(BlobKind::Tree, t.content@)
                && t.sha@.len() == 40 && is_lower_hex(t.sha@),
        },
{
    let ghost views = files@.map_values(|f: FileObject| f@);
    let n = files.len();
    // The tracked entries, with their raw object names and their keys.
    let mut kept: Vec<usize> = Vec::new();
    let mut raws: Vec<Vec<u8>> = Vec::new();
    let mut keys: Vec<Vec<u8>> = Vec::new();
    let ghost mut tv: Seq<(u32, Seq<u8>, Seq<u8>)> = Seq::empty();
    let mut i: usize = 0;
    assert(views.take(0) =~= Seq::<(u32, Seq<u8>, Seq<u8>)>::empty());
    while i < n
        invariant
            n == files@.len(),
            i <= n,
            views == files@.map_values(|f: FileObject| f@),
            bad_entry(views.take(i as int)) is None,
            tv == tracked_entries(views.take(i as int)),
            kept@.len() == tv.len(),
            raws@.len() == tv.len(),
            keys@.len() == tv.len(),
            forall|k: int| 0 <= k < tv.len() ==> #[trigger] kept@[k] < n && views[kept@[k] as int] == tv[k],
            forall|k: int| 0 <= k < tv.len() ==> hex_bytes(#[trigger] tv[k].1) == Some(raws@[k]@),
            forall|k: int| 0 <= k < tv.len() ==> #[trigger] keys@[k]@ == entry_key(tv[k]),
        decreases n - i,
    {
        let f = &files[i];
        let ghost before = views.take(i as int);
        let ghost after = views.take(i + 1);
        assert(after.drop_last() =~= before);
        assert(after.last() == f@);
        if !is_ignored(f.name.as_slice()) {
            match hex_decode(f.sha.as_slice()) {
                Err(_) => {
                    proof {
                        assert(bad_entry(after) == Some(i as nat));
                        lemma_bad_entry_prefix(views, i + 1);
                    }
                    return Err(TreeError::BadSha(i));
                },
                Ok(raw) => {
                    let key = entry_key_bytes(f);
                    proof {
                        tv = tv.push(f@);
                    }
                    kept.push(i);
                    raws.push(raw);
                    keys.push(key);
                },
            }
        }
        i = i + 1;
    }
    assert(views.take(n as int) =~= views);
    // Their order in the tree: positions in `kept`, sorted by key.
    let m = kept.len();
    let mut order: Vec<usize> = Vec::new();
    let ghost mut sv: Seq<(u32, Seq<u8>, Seq<u8>)> = Seq::empty();
    let mut j: usize = 0;
    assert(tv.take(0) =~= Seq::<(u32, Seq<u8>, Seq<u8>)>::empty());
    while j < m
        invariant
            m == tv.len(),
            keys@.len() == m,
            forall|k: int| 0 <= k < m ==> #[trigger] keys@[k]@ == entry_key(tv[k]),
            j <= m,
            sv == sort_entries(tv.take(j as int)),
            order@.len() == sv.len(),
            forall|q: int| 0 <= q < sv.len() ==> #[trigger] order@[q] < m && tv[order@[q] as int] == sv[q],
        decreases m - j,
    {
        let mut p: usize = 0;
        let mut scanning = true;
        while scanning && p < order.len()
            invariant
                m == tv.len(),
                keys@.len() == m,
                forall|k: int| 0 <= k < m ==> #[trigger] keys@[k]@ == entry_key(tv[k]),
                j < m,
                order@.len() == sv.len(),
                forall|q: int| 0 <= q < sv.len() ==> #[trigger] order@[q] < m && tv[order@[q] as int] == sv[q],
                p <= order@.len(),
                forall|q: int| 0 <= q < p ==> lex_le(entry_key(#[trigger] sv[q]), entry_key(tv[j as int])),
                !scanning ==> p < order@.len() && !lex_le(entry_key(sv[p as int]), entry_key(tv[j as int])),
            decreases order.len() - p + (if scanning {
                1int
            } else {
                0int
            }),
        {
            let q = order[p];
            if lex_le_bytes(keys[q].as_slice(), keys[j].as_slice()) {
                p = p + 1;
            } else {
                scanning = false;
            }
        }
        proof {
            lemma_insert_at(tv[j as int], sv, p as int);
            assert(tv.take(j + 1).drop_last() =~= tv.take(j as int));
            assert(tv.take(j + 1).last() == tv[j as int]);
        }
        let ghost old_order = order@;
        let ghost old_sv = sv;
        order.insert(p, j);
        proof {
            sv = sv.insert(p as int, tv[j as int]);
            assert forall|q: int| 0 <= q < sv.len() implies #[trigger] order@[q] < m && tv[order@[q] as int]
                == sv[q] by {
                if q < p {
                    assert(order@[q] == old_order[q] && sv[q] == old_sv[q]);
                } else if q > p {
                    assert(order@[q] == old_order[q - 1] && sv[q] == old_sv[q - 1]);
                }
            }
        }
        j = j + 1;
    }
    assert(tv.take(m as int) =~= tv);
    assert(sv == tree_entries(views));
    proof {
        lemma_sort_entries_len(tv);
    }
    // The content: the entries in that order.
    let mut content: Vec<u8> = Vec::new();
    let mut k: usize = 0;
    assert(sv.take(0) =~= Seq::<(u32, Seq<u8>, Seq<u8>)>::empty());
    while k < m
        invariant
            m == tv.len(),
            m == sv.len(),
            order@.len() == m,
            kept@.len() == m,
            raws@.len() == m,
            n == files@.len(),
            views == files@.map_values(|f: FileObject| f@),
            forall|q: int| 0 <= q < sv.len() ==> #[trigger] order@[q] < m && tv[order@[q] as int] == sv[q],
            forall|t: int| 0 <= t < m ==> #[trigger] kept@[t] < n && views[kept@[t] as int] == tv[t],
            forall|t: int| 0 <= t < m ==> hex_bytes(#[trigger] tv[t].1) == Some(raws@[t]@),
            k <= m,
            tree_content(sv.take(k as int)) == Ok::<Seq<u8>, nat>(content@),
        decreases m - k,
    {
        let q = order[k];
        let idx = kept[q];
        let f = &files[idx];
        let ghost before = sv.take(k as int);
        let ghost after = sv.take(k + 1);
        assert(after.drop_last() =~= before);
        assert(after.last() == sv[k as int]);
        assert(sv[k as int] == tv[q as int]);
        assert(tv[q as int] == f@);
        let mode = octal_bytes(f.mode as u64);
        let ghost old_content = content@;
        push_all(&mut content, mode.as_slice());
        content.push(32u8);
        push_all(&mut content, f.name.as_slice());
        content.push(0u8);
        push_all(&mut content, raws[q].as_slice());
        assert(content@ =~= old_content + tree_entry_bytes(f.mode, f.name@, raws@[q as int]@));
        k = k + 1;
    }
    assert(sv.take(m as int) =~= sv);
    let sha = hash_object(BlobKind::Tree, content.as_slice());
    Ok(TreeObject { content, sha })
}

/// The name of the tree of a directory whose entries are `files` (see
/// `hash_tree`).
pub fn write_tree(files: &Vec<FileObject>) -> (res: Result<Vec<u8>, TreeError>)
    ensures
        match bad_entry(files@.map_values(|f: FileObject| f@)) {
            Some(i) => res == Err::<Vec<u8>, _>(TreeError::BadSha(i as usize)),
            None => res matches Ok(sha) && tree_content(tree_entries(files@.map_values(|f: FileObject| f@)))
                matches Ok(content) && sha@ == object_name(BlobKind::Tree, content) && sha@.len() == 40
                && is_lower_hex(sha@),
        },
{
    match hash_tree(files) {
        Ok(t) => Ok(t.sha),
        Err(e) => Err(e),
    }
}

/// The number written with the decimal digits of `m`, read as an octal
/// numeral; `None` where `m` has a digit 8 or 9.
pub open spec fn octal_reading(m: nat) -> Option<nat>
    decreases m,
{
    if m < 10 {
        if m < 8 {
            Some(m)
        } else {
            None
        }
    } else {
        match octal_reading(m / 10) {
            None => None,
            Some(t) => if m % 10 < 8 {
                Some(t * 8 + m % 10)
            } else {
                None
            },
        }
    }
}

/// Why a tree entry's mode names no kind of object.
#[derive(Clone, Copy, Debug, PartialEq, Eq, Structural)]
pub enum FileTypeError {
    /// The mode has a decimal digit 8 or 9, so it is not an octal numeral.
    NotOctal,
    /// The mode names neither a directory, a regular file nor a link.
    UnknownType,
}

/// The kind of object that the type bits of a file mode name: a directory
/// (`0o40000`) is a tree, a regular file (`0o100000`) or a symbolic link
/// (`0o120000`) is a blob; any other type names no kind.
pub open spec fn mode_kind(t: u32) -> Option<BlobKind> {
    let ty = t & 0o170000u32;
    if ty == 0o40000u32 {
        Some(BlobKind::Tree)
    } else if ty == 0o100000u32 || ty == 0o120000u32 {
        Some(BlobKind::Blob)
    } else {
        None
    }
}

/// The kind of object that a tree entry's mode names. The mode holds the
/// number that the entry's octal digits spell in decimal; read back as
/// octal, its type bits name the kind (see `mode_kind`).
pub open spec fn file_type(mode: u32) -> Result<BlobKind, FileTypeError> {
    match octal_reading(mode as nat) {
        None => Err(FileTypeError::NotOctal),
        Some(t) => match mode_kind(t as u32) {
            Some(k) => Ok(k),
            None => Err(FileTypeError::UnknownType),
        },
    }
}

/// The octal reading of a number is no larger than the number.
proof fn lemma_octal_reading_bound(m: nat)
    ensures
        octal_reading(m) matches Some(t) ==> t <= m,
    decreases m,
{
    if m >= 10 {
        lemma_octal_reading_bound(m / 10);
        if let Some(t) = octal_reading(m) {
            let t0 = octal_reading(m / 10).unwrap();
            assert(t0 * 8 + m % 10 <= (m / 10) * 10 + m % 10) by (nonlinear_arith)
                requires
                    t0 <= m / 10,
            ;
            assert((m / 10) * 10 + m % 10 == m) by (nonlinear_arith);
        }
    }
}

/// Reads the decimal digits of `m` as an octal numeral.
fn read_octal_digits(m: u32) -> (res: Option<u32>)
    ensures
        res == (match octal_reading(m as nat) {
            Some(t) => Some(t as u32),
            None => None::<u32>,
        }),
    decreases m,
{
    proof {
        lemma_octal_reading_bound(m as nat);
    }
    if m < 10 {
        if m < 8 {
            Some(m)
        } else {
            None
        }
    } else {
        match read_octal_digits(m / 10) {
            None => None,
            Some(t) => {
                if m % 10 < 8 {
                    proof {
                        lemma_octal_reading_bound((m / 10) as nat);
                    }
                    assert(t * 8 + m % 10 <= m) by (nonlinear_arith)
                        requires
                            t <= m / 10,
                            m % 10 < 8,
                    ;
                    Some(t * 8 + m % 10)
                } else {
                    None
                }
            },
        }
    }
}

/// The kind of object that the type bits of a file mode name (see
/// `mode_kind`).
fn kind_of_mode(t: u32) -> (res: Option<BlobKind>)
    ensures
        res == mode_kind(t),
{
    let ty = t & 0o170000u32;
    if ty == 0o40000u32 {
        Some(BlobKind::Tree)
    } else if ty == 0o100000u32 || ty == 0o120000u32 {
        Some(BlobKind::Blob)
    } else {
        None
    }
}

/// The kind of object that a tree entry's mode names (see `file_type`).
pub fn check_file_type(mode: u32) -> (res: Result<BlobKind, FileTypeError>)
    ensures
        res == file_type(mode),
{
    match read_octal_digits(mode) {
        None => Err(FileTypeError::NotOctal),
        Some(tree_mode) => match kind_of_mode(tree_mode) {
            Some(k) => Ok(k),
            None => Err(FileTypeError::UnknownType),
        },
    }
}

/// An entry of a stored tree: mode (the number its digits spell in
/// decimal), file name (what follows the first space, up to the NUL that
/// ends it), object name in hexadecimal, and the kind its mode names.
pub struct TreeEntry {
    pub mode: u32,
    pub name: Vec<u8>,
    pub hash: Vec<u8>,
    pub kind: BlobKind,
}

impl View for TreeEntry {
    type V = (u32, Seq<u8>, Seq<u8>, BlobKind);

    open spec fn view(&self) -> (u32, Seq<u8>, Seq<u8>, BlobKind) {
        (self.mode, self.name@, self.hash@, self.kind)
    }
}

/// Why a tree could not be listed.
#[derive(Clone, Copy, Debug, PartialEq, Eq, Structural)]
pub enum LsError {
    /// The object is of this kind, not a tree.
    NotATree(BlobKind),
    /// An entry has no space between mode and name.
    MissingSpace,
    /// An entry's mode is not a number that fits in `u32`.
    BadMode,
    /// An entry's mode names no kind of object.
    BadFileType(FileTypeError),
}

/// The 20 bytes of raw object name that start at `start`: fewer where `b`
/// ends first, padded with zeros.
pub open spec fn raw_name(b: Seq<u8>, start: int) -> Seq<u8> {
    let end = if start + 20 < b.len() {
        start + 20
    } else {
        b.len() as int
    };
    b.subrange(start, end) + Seq::new((20 - (end - start)) as nat, |i: int| 0u8)
}

/// Where the raw object name that starts at `start` ends.
pub open spec fn raw_name_end(b: Seq<u8>, start: int) -> int {
    if start + 20 < b.len() {
        start + 20
    } else {
        b.len() as int
    }
}

/// Reading one entry of the tree content `b` at `pos`: `None` at the end;
/// otherwise the entry and where the next one starts, or why it could not be
/// read. The entry's text (see `until_nul_len`) splits at its first space
/// into the mode, which must parse as `u32` and name a kind, and the file
/// name, without the NUL that ends it; the raw object name follows (see
/// `raw_name`).
#[verifier::opaque]
pub open spec fn tree_step(b: Seq<u8>, pos: int) -> Option<
    Result<((u32, Seq<u8>, Seq<u8>, BlobKind), int), LsError>,
> {
    if pos < 0 || pos >= b.len() {
        None
    } else {
        let line = b.subrange(pos, pos + until_nul_len(b, pos));
        match first_index(line, 32u8) {
            None => Some(Err(LsError::MissingSpace)),
            Some(sp) => {
                let hs = pos + until_nul_len(b, pos);
                match parse_unsigned(line.take(sp), u32::MAX as nat) {
                    None => Some(Err(LsError::BadMode)),
                    Some(m) => match file_type(m as u32) {
                        Err(e) => Some(Err(LsError::BadFileType(e))),
                        Ok(kind) => Some(
                            Ok(
                                (
                                    (m as u32, without_nul(line.skip(sp + 1)), hex_text(raw_name(b, hs)), kind),
                                    raw_name_end(b, hs),
                                ),
                            ),
                        ),
                    },
                }
            },
        }
    }
}

/// The entries of the tree content `b` from `pos` on, and the error that
/// stopped the reading, if one did.
pub open spec fn parse_tree(b: Seq<u8>, pos: int) -> (
    Seq<(u32, Seq<u8>, Seq<u8>, BlobKind)>,
    Option<LsError>,
)
    decreases b.len() - pos,
{
    match tree_step(b, pos) {
        None => (Seq::empty(), None),
        Some(Err(e)) => (Seq::empty(), Some(e)),
        Some(Ok((e, next))) => if pos < next <= b.len() {
            let (rest, err) = parse_tree(b, next);
            (seq![e] + rest, err)
        } else {
            (seq![e], None)
        },
    }
}

/// Reads the entry of the tree content `b` at `pos` (see `tree_step`).
pub fn parse_tree_entry(b: &[u8], pos: usize) -> (res: Option<Result<(TreeEntry, usize), LsError>>)
    ensures
        match (res, tree_step(b@, pos as int)) {
            (None, None) => true,
            (Some(Err(e)), Some(Err(f))) => e == f,
            (Some(Ok((t, next))), Some(Ok((v, n)))) => t@ == v && next == n && pos < next <= b@.len(),
            _ => false,
        },
{
    if pos >= b.len() {
        assert(tree_step(b@, pos as int) is None) by {
            reveal(tree_step);
        }
        return None;
    }
    let line_end = until_nul_end(b, pos);
    let line = copy_range(b, pos, line_end);
    match find_byte(line.as_slice(), 0, 32u8) {
        None => {
            assert(!exists|i: int| 0 <= i < line@.len() && line@[i] == 32u8);
            assert(tree_step(b@, pos as int) == Some(
                Err::<((u32, Seq<u8>, Seq<u8>, BlobKind), int), LsError>(LsError::MissingSpace),
            )) by {
                reveal(tree_step);
            }
            Some(Err(LsError::MissingSpace))
        },
        Some(sp) => {
            proof {
                lemma_first_index(line@, 32u8, sp as int);
            }
            let (raw, he) = read_raw_name(b, line_end);
            let hash = hex_encode(raw.as_slice());
            let mode_text = copy_range(line.as_slice(), 0, sp);
            let name = name_after_space(line.as_slice(), sp);
            assert(mode_text@ =~= line@.take(sp as int));
            let max: u64 = u32::MAX as u64;
            let parsed = parse_unsigned_bytes(mode_text.as_slice(), max);
            match parsed {
                None => {
                    assert(tree_step(b@, pos as int) == Some(
                        Err::<((u32, Seq<u8>, Seq<u8>, BlobKind), int), LsError>(LsError::BadMode),
                    )) by {
                        reveal(tree_step);
                    }
                    Some(Err(LsError::BadMode))
                },
                Some(m) => {
                    let mode: u32 = m as u32;
                    let ft = check_file_type(mode);
                    match ft {
                        Err(e) => {
                            assert(tree_step(b@, pos as int) == Some(
                                Err::<((u32, Seq<u8>, Seq<u8>, BlobKind), int), LsError>(
                                    LsError::BadFileType(e),
                                ),
                            )) by {
                                reveal(tree_step);
                            }
                            Some(Err(LsError::BadFileType(e)))
                        },
                        Ok(kind) => {
                            let entry = TreeEntry { mode, name, hash, kind };
                            assert(tree_step(b@, pos as int) == Some(
                                Ok::<_, LsError>((entry@, he as int)),
                            )) by {
                                reveal(tree_step);
                            }
                            Some(Ok((entry, he)))
                        },
                    }
                },
            }
        },
    }
}

/// The file name of an entry's text `line` whose first space is at `sp`:
/// what follows the space, without the NUL that ends it.
fn name_after_space(line: &[u8], sp: usize) -> (res: Vec<u8>)
    requires
        sp < line@.len(),
        line@[sp as int] == 32u8,
    ensures
        res@ == without_nul(line@.skip(sp + 1)),
{
    let len = line.len();
    if line[len - 1] == 0u8 {
        let name = copy_range(line, sp + 1, len - 1);
        assert(name@ =~= line@.skip(sp + 1).drop_last());
        name
    } else {
        let name = copy_range(line, sp + 1, len);
        assert(name@ =~= line@.skip(sp + 1));
        name
    }
}

/// Reads the raw object name that starts at `start` (see `raw_name`) and
/// where it ends.
fn read_raw_name(b: &[u8], start: usize) -> (res: (Vec<u8>, usize))
    requires
        start <= b@.len(),
    ensures
        res.0@ == raw_name(b@, start as int),
        res.1 == raw_name_end(b@, start as int),
        start <= res.1 <= b@.len(),
{
    let len = b.len();
    let end: usize = if len - start > 20 {
        start + 20
    } else {
        len
    };
    let mut raw = copy_range(b, start, end);
    let ghost got = raw@;
    while raw.len() < 20
        invariant
            got.len() <= raw@.len() <= 20,
            raw@.take(got.len() as int) == got,
            forall|j: int| got.len() <= j < raw@.len() ==> raw@[j] == 0u8,
        decreases 20 - raw.len(),
    {
        raw.push(0u8);
        assert(raw@.take(got.len() as int) =~= got);
    }
    assert(raw@ =~= raw_name(b@, start as int));
    (raw, end)
}

/// What `ls-tree` shows: everything, only trees, everything with the sizes
/// of the objects, recursing into subtrees, or only the names.
#[derive(Clone, Copy, Debug, PartialEq, Eq, Structural)]
pub enum TreeOptions {
    OnlyTrees,
    Recurse,
    ShowSize,
    NamesOnly,
}

/// The line that lists a tree entry: its mode as the tree writes it, kind,
/// object name, four spaces, file name.
pub open spec fn entry_line(e: (u32, Seq<u8>, Seq<u8>, BlobKind)) -> Seq<u8> {
    decimal(e.0 as nat) + seq![32u8] + kind_name(e.3) + seq![32u8] + e.2 + seq![32u8, 32u8, 32u8, 32u8]
        + e.1
}

/// The line that lists a tree entry with the size text of its object.
pub open spec fn size_line(e: (u32, Seq<u8>, Seq<u8>, BlobKind), size: Seq<u8>) -> Seq<u8> {
    decimal(e.0 as nat) + seq![32u8] + kind_name(e.3) + seq![32u8] + e.2 + seq![32u8] + size + seq![
        32u8,
        32u8,
        32u8,
        32u8,
    ] + e.1
}

/// What to do for one entry of a listed tree.
pub enum LsAction {
    /// Print this line.
    Print(Vec<u8>),
    /// Print nothing.
    Skip,
    /// List the tree with this object name, recursively.
    Recurse(Vec<u8>),
    /// Read the object of this entry and print `size_line` with its size.
    ShowSize(TreeEntry),
}

/// `a` is what `ls-tree` with `option` does for the entry `e`.
pub open spec fn is_action_for(option: Option<TreeOptions>, e: (u32, Seq<u8>, Seq<u8>, BlobKind), a: LsAction) -> bool {
    match option {
        None => a matches LsAction::Print(l) && l@ == entry_line(e),
        Some(TreeOptions::NamesOnly) => a matches LsAction::Print(l) && l@ == e.1,
        Some(TreeOptions::OnlyTrees) => if e.3 == BlobKind::Tree {
            a matches LsAction::Print(l) && l@ == entry_line(e)
        } else {
            a is Skip
        },
        Some(TreeOptions::Recurse) => if e.3 == BlobKind::Tree {
            a matches LsAction::Recurse(h) && h@ == e.2
        } else {
            a matches LsAction::Print(l) && l@ == entry_line(e)
        },
        Some(TreeOptions::ShowSize) => a matches LsAction::ShowSize(t) && t@ == e,
    }
}

/// The listing of a tree: one action per entry read, in order, then the
/// error that stopped the reading, if one did.
pub struct LsListing {
    pub actions: Vec<LsAction>,
    pub error: Option<LsError>,
}

fn push_entry_prefix(out: &mut Vec<u8>, e: &TreeEntry)
    ensures
        final(out)@ == old(out)@ + decimal(e.mode as nat) + seq![32u8] + kind_name(e.kind) + seq![32u8]
            + e.hash@,
{
    let mode = decimal_bytes(e.mode as u64);
    push_all(out, mode.as_slice());
    out.push(32u8);
    let kind = e.kind.name();
    push_all(out, kind.as_slice());
    out.push(32u8);
    push_all(out, e.hash.as_slice());
    assert(out@ =~= old(out)@ + decimal(e.mode as nat) + seq![32u8] + kind_name(e.kind) + seq![32u8]
        + e.hash@);
}

/// The line that lists `e`: its mode as the tree writes it, kind, object
/// name, four spaces, file name.
pub fn format_entry(e: &TreeEntry) -> (res: Vec<u8>)
    ensures
        res@ == entry_line(e@),
{
    let mut out: Vec<u8> = Vec::new();
    push_entry_prefix(&mut out, e);
    out.push(32u8);
    out.push(32u8);
    out.push(32u8);
    out.push(32u8);
    push_all(&mut out, e.name.as_slice());
    assert(out@ =~= entry_line(e@));
    out
}

/// The line that lists `e` with `size`, the size text of its object.
pub fn format_entry_with_size(e: &TreeEntry, size: &[u8]) -> (res: Vec<u8>)
    ensures
        res@ == size_line(e@, size@),
{
    let mut out: Vec<u8> = Vec::new();
    push_entry_prefix(&mut out, e);
    out.push(32u8);
    push_all(&mut out, size);
    out.push(32u8);
    out.push(32u8);
    out.push(32u8);
    out.push(32u8);
    push_all(&mut out, e.name.as_slice());
    assert(out@ =~= size_line(e@, size@));
    out
}

/// What `ls-tree` with `option` does for the entry `e`.
pub fn entry_action(option: Option<TreeOptions>, e: TreeEntry) -> (res: LsAction)
    ensures
        is_action_for(option, e@, res),
{
    match option {
        None => LsAction::Print(format_entry(&e)),
        Some(TreeOptions::NamesOnly) => LsAction::Print(e.name),
        Some(TreeOptions::OnlyTrees) => {
            if e.kind == BlobKind::Tree {
                LsAction::Print(format_entry(&e))
            } else {
                LsAction::Skip
            }
        },
        Some(TreeOptions::Recurse) => {
            if e.kind == BlobKind::Tree {
                LsAction::Recurse(e.hash)
            } else {
                LsAction::Print(format_entry(&e))
            }
        },
        Some(TreeOptions::ShowSize) => LsAction::ShowSize(e),
    }
}

/// Lists the tree `object` with `option`: refuses an object that is not a
/// tree; otherwise reads its entries in order and gives the action for each,
/// and the error that stopped the reading, if one did.
pub fn ls_tree(option: Option<TreeOptions>, object: &Object) -> (res: LsListing)
    ensures
        object.kind != BlobKind::Tree ==> res.actions@.len() == 0 && res.error == Some(
            LsError::NotATree(object.kind),
        ),
        object.kind == BlobKind::Tree ==> ({
            let (entries, err) = parse_tree(object.buffer@, 0);
            &&& res.actions@.len() == entries.len()
            &&& forall|i: int|
                0 <= i < entries.len() ==> is_action_for(option, entries[i], #[trigger] res.actions@[i])
            &&& res.error == err
        }),
{
    let mut actions: Vec<LsAction> = Vec::new();
    if object.kind != BlobKind::Tree {
        return LsListing { actions, error: Some(LsError::NotATree(object.kind)) };
    }
    let b = object.buffer.as_slice();
    let ghost full = parse_tree(b@, 0);
    let ghost done: Seq<(u32, Seq<u8>, Seq<u8>, BlobKind)> = Seq::empty();
    let mut pos: usize = 0;
    assert(full.0 =~= done + parse_tree(b@, 0).0);
    loop
        invariant
            b@ == object.buffer@,
            object.kind == BlobKind::Tree,
            full == parse_tree(b@, 0),
            pos <= b@.len(),
            full.0 == done + parse_tree(b@, pos as int).0,
            full.1 == parse_tree(b@, pos as int).1,
            actions@.len() == done.len(),
            forall|i: int| 0 <= i < done.len() ==> is_action_for(option, done[i], #[trigger] actions@[i]),
        decreases b@.len() - pos,
    {
        match parse_tree_entry(b, pos) {
            None => {
                assert(done =~= full.0);
                return LsListing { actions, error: None };
            },
            Some(Err(e)) => {
                assert(done =~= full.0);
                return LsListing { actions, error: Some(e) };
            },
            Some(Ok((entry, next))) => {
                let ghost v = entry@;
                let ghost old_done = done;
                proof {
                    done = done.push(v);
                    assert(parse_tree(b@, pos as int).0 =~= seq![v] + parse_tree(b@, next as int).0);
                    assert(full.0 =~= done + parse_tree(b@, next as int).0);
                }
                let a = entry_action(option, entry);
                actions.push(a);
                pos = next;
                assert forall|i: int| 0 <= i < done.len() implies is_action_for(
                    option,
                    done[i],
                    #[trigger] actions@[i],
                ) by {
                    if i < old_done.len() {
                        assert(done[i] == old_done[i]);
                    }
                }
            },
        }
    }
}

} // verus!

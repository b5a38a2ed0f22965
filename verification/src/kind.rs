//! The three kinds of object that the store holds.

use vstd::prelude::*;

verus! {

/// The kind of a stored object, as its header names it.
#[derive(Clone, Copy, Debug, PartialEq, Eq, Structural)]
pub enum BlobKind {
    Blob,
    Commit,
    Tree,
}

/// The name of a kind in an object header: `blob`, `commit` or `tree`.
pub open spec fn kind_name(kind: BlobKind) -> Seq<u8> {
    match kind {
        BlobKind::Blob => seq![98u8, 108u8, 111u8, 98u8],
        BlobKind::Commit => seq![99u8, 111u8, 109u8, 109u8, 105u8, 116u8],
        BlobKind::Tree => seq![116u8, 114u8, 101u8, 101u8],
    }
}

/// The header name of a kind as text.
pub open spec fn kind_text(kind: BlobKind) -> Seq<char> {
    match kind {
        BlobKind::Blob => seq!['b', 'l', 'o', 'b'],
        BlobKind::Commit => seq!['c', 'o', 'm', 'm', 'i', 't'],
        BlobKind::Tree => seq!['t', 'r', 'e', 'e'],
    }
}

/// The kind whose header name is `name`, if there is one.
pub open spec fn kind_of_name(name: Seq<u8>) -> Option<BlobKind> {
    if name == kind_name(BlobKind::Blob) {
        Some(BlobKind::Blob)
    } else if name == kind_name(BlobKind::Commit) {
        Some(BlobKind::Commit)
    } else if name == kind_name(BlobKind::Tree) {
        Some(BlobKind::Tree)
    } else {
        None
    }
}

/// Each kind is found again from its own name.
pub proof fn lemma_kind_name_roundtrip(kind: BlobKind)
    ensures
        kind_of_name(kind_name(kind)) == Some(kind),
{
    assert(kind_name(BlobKind::Blob) != kind_name(BlobKind::Commit));
    assert(kind_name(BlobKind::Blob)[0] != kind_name(BlobKind::Tree)[0]);
    assert(kind_name(BlobKind::Commit)[0] != kind_name(BlobKind::Tree)[0]);
}

impl BlobKind {
    /// The header name of this kind, as bytes.
    pub fn name(&self) -> (res: Vec<u8>)
        ensures
            res@ == kind_name(*self),
    {
        let res = match self {
            BlobKind::Blob => vec![98u8, 108u8, 111u8, 98u8],
            BlobKind::Commit => vec![99u8, 111u8, 109u8, 109u8, 105u8, 116u8],
            BlobKind::Tree => vec![116u8, 114u8, 101u8, 101u8],
        };
        assert(res@ =~= kind_name(*self));
        res
    }

    /// The header name of this kind as text, as its `Display` writes it.
    pub fn to_string(&self) -> (res: String)
        ensures
            res@ == kind_text(*self),
    {
        proof {
            reveal_strlit("blob");
            reveal_strlit("commit");
            reveal_strlit("tree");
        }
        match self {
            BlobKind::Blob => String::from_str("blob"),
            BlobKind::Commit => String::from_str("commit"),
            BlobKind::Tree => String::from_str("tree"),
        }
    }

    /// The kind named `name` in an object header, if any.
    pub fn from_name(name: &[u8]) -> (res: Option<BlobKind>)
        ensures
            res == kind_of_name(name@),
    {
        let blob = BlobKind::Blob.name();
        let commit = BlobKind::Commit.name();
        let tree = BlobKind::Tree.name();
        if crate::text::bytes_eq(name, blob.as_slice()) {
            Some(BlobKind::Blob)
        } else if crate::text::bytes_eq(name, commit.as_slice()) {
            Some(BlobKind::Commit)
        } else if crate::text::bytes_eq(name, tree.as_slice()) {
            Some(BlobKind::Tree)
        } else {
            None
        }
    }
}

} // verus!

//! Stored objects: their encoding, their names, their compressed form, and
//! reading them back.

use vstd::prelude::*;
use vstd::utf8::{is_leading_byte_width_1, partial_valid_utf8, partial_valid_utf8_extend_ascii_block, valid_utf8};
use crate::digest::{sha1_digest, sha1_of, zlib_compress, zlib_compressed, zlib_decompress, zlib_inflated};
use crate::encoding::{hex_encode, hex_text, is_lower_hex, lemma_hex_text_shape};
use crate::kind::{kind_name, kind_of_name, lemma_kind_name_roundtrip, BlobKind};
use crate::text::{
    copy_range, decimal, decimal_bytes, find_byte, first_index, has_prefix, lemma_first_index, lemma_numeral_value,
    lemma_parse_decimal, parse_unsigned, parse_unsigned_bytes, push_all, starts_with,
};

verus! {

/// Why an object could not be found, read or stored.
#[derive(Clone, Copy, Debug, PartialEq, Eq, Structural)]
pub enum ObjectError {
    /// The abbreviated name has fewer than four characters.
    ShortName,
    /// No stored object has the abbreviated name.
    NotFound,
    /// More than one stored object has the abbreviated name.
    Ambiguous,
    /// The stored zlib stream breaks before the header ends.
    Corrupt,
    /// The header has no terminating NUL byte.
    MissingNul,
    /// The header is not valid UTF-8.
    InvalidUtf8,
    /// The header has no space between kind and size.
    MissingSpace,
    /// The header names no known kind.
    UnknownKind,
    /// The size in the header is not a number that fits in `usize`.
    BadSize,
    /// Compression failed while storing.
    Compression,
}

/// An object read from the store: its kind, the size text of its header, and
/// at most that many bytes of content that follow the header.
pub struct Object {
    pub size: Vec<u8>,
    pub kind: BlobKind,
    pub buffer: Vec<u8>,
}

impl View for Object {
    type V = (BlobKind, Seq<u8>, Seq<u8>);

    open spec fn view(&self) -> (BlobKind, Seq<u8>, Seq<u8>) {
        (self.kind, self.size@, self.buffer@)
    }
}

/// An `Object` result seen through the object's view.
pub open spec fn object_result_view(res: Result<Object, ObjectError>) -> Result<
    (BlobKind, Seq<u8>, Seq<u8>),
    ObjectError,
> {
    match res {
        Ok(o) => Ok(o@),
        Err(e) => Err(e),
    }
}

/// The bytes of a stored object: the header `<kind> <size>\0`, where the
/// size is the decimal length of the content, then the content.
pub open spec fn object_bytes(kind: BlobKind, content: Seq<u8>) -> Seq<u8> {
    kind_name(kind) + seq![32u8] + decimal(content.len()) + seq![0u8] + content
}

/// The name of an object: the lowercase hexadecimal SHA-1 of its bytes.
pub open spec fn object_name(kind: BlobKind, content: Seq<u8>) -> Seq<u8> {
    hex_text(sha1_of(object_bytes(kind, content)))
}

/// Whether `s` is valid UTF-8 text.
#[verifier::opaque]
pub open spec fn is_utf8_text(s: Seq<u8>) -> bool {
    valid_utf8(s)
}

/// What the header of an object (the bytes before its first NUL) gives: it
/// must be valid UTF-8 and split at its first space into a known kind and a
/// size that parses as `usize`. The result is the kind, the size text and its
/// value.
#[verifier::opaque]
pub open spec fn parse_header(header: Seq<u8>) -> Result<(BlobKind, Seq<u8>, nat), ObjectError> {
    if !is_utf8_text(header) {
        Err(ObjectError::InvalidUtf8)
    } else {
        match first_index(header, 32u8) {
            None => Err(ObjectError::MissingSpace),
            Some(sp) => {
                let size = header.subrange(sp + 1, header.len() as int);
                match kind_of_name(header.take(sp)) {
                    None => Err(ObjectError::UnknownKind),
                    Some(kind) => match parse_unsigned(size, usize::MAX as nat) {
                        None => Err(ObjectError::BadSize),
                        Some(v) => Ok((kind, size, v)),
                    },
                }
            },
        }
    }
}

/// What reading the uncompressed bytes `d` of an object gives: the header is
/// everything before the first NUL (see `parse_header`); the content is at
/// most `size` bytes after the NUL.
pub open spec fn parse_object(d: Seq<u8>) -> Result<(BlobKind, Seq<u8>, Seq<u8>), ObjectError> {
    match first_index(d, 0u8) {
        None => Err(ObjectError::MissingNul),
        Some(n) => match parse_header(d.take(n)) {
            Err(e) => Err(e),
            Ok((kind, size, v)) => {
                let end = if n + 1 + v < d.len() {
                    n + 1 + v
                } else {
                    d.len() as int
                };
                Ok((kind, size, d.subrange(n + 1, end)))
            },
        },
    }
}

/// What reading a stored (compressed) object gives: the bytes that come out
/// of the stream are parsed (see `parse_object`); a stream that breaks
/// before the header's NUL is corrupt. Where it breaks later, the content is
/// what came out before the break.
pub open spec fn read_object(stored: Seq<u8>) -> Result<(BlobKind, Seq<u8>, Seq<u8>), ObjectError> {
    let (d, clean) = zlib_inflated(stored);
    if !clean && first_index(d, 0u8) is None {
        Err(ObjectError::Corrupt)
    } else {
        parse_object(d)
    }
}

/// Calls `std::str::from_utf8` and reports whether it succeeded, which its
/// documentation says it does exactly on valid UTF-8.
#[verifier::external_body]
pub(crate) fn is_utf8(bytes: &[u8]) -> (res: bool)
    ensures
        res == is_utf8_text(bytes@),
{
    std::str::from_utf8(bytes).is_ok()
}

impl Object {
    /// Reads the uncompressed bytes of an object: its header and then the
    /// content that the header announces.
    pub fn parse(data: &[u8]) -> (res: Result<Object, ObjectError>)
        ensures
            object_result_view(res) == parse_object(data@),
    {
        reveal(parse_header);
        match find_byte(data, 0, 0u8) {
            None => {
                assert(!exists|i: int| 0 <= i < data@.len() && data@[i] == 0u8);
                Err(ObjectError::MissingNul)
            },
            Some(n) => {
                let data_len = data.len();
                assert(n < data_len);
                proof {
                    lemma_first_index(data@, 0u8, n as int);
                }
                let header = copy_range(data, 0, n);
                assert(header@ =~= data@.take(n as int));
                if !is_utf8(header.as_slice()) {
                    return Err(ObjectError::InvalidUtf8);
                }
                match find_byte(header.as_slice(), 0, 32u8) {
                    None => {
                        assert(!exists|i: int| 0 <= i < header@.len() && header@[i] == 32u8);
                        Err(ObjectError::MissingSpace)
                    },
                    Some(sp) => {
                        proof {
                            lemma_first_index(header@, 32u8, sp as int);
                        }
                        let name = copy_range(header.as_slice(), 0, sp);
                        let size = copy_range(header.as_slice(), sp + 1, n);
                        assert(name@ =~= header@.take(sp as int));
                        match BlobKind::from_name(name.as_slice()) {
                            None => Err(ObjectError::UnknownKind),
                            Some(kind) => {
                                let max: u64 = usize::MAX as u64;
                                match parse_unsigned_bytes(size.as_slice(), max) {
                                    None => Err(ObjectError::BadSize),
                                    Some(v) => {
                                        let v: usize = v as usize;
                                        let start: usize = n + 1;
                                        let end: usize = if data_len - start > v {
                                            start + v
                                        } else {
                                            data_len
                                        };
                                        let buffer = copy_range(data, start, end);
                                        Ok(Object { size, kind, buffer })
                                    },
                                }
                            },
                        }
                    },
                }
            },
        }
    }

    /// Reads a stored object: decompresses it and parses what comes out.
    pub fn read(stored: &[u8]) -> (res: Result<Object, ObjectError>)
        ensures
            object_result_view(res) == read_object(stored@),
    {
        reveal(parse_header);
        let (d, clean) = zlib_decompress(stored);
        match Object::parse(d.as_slice()) {
            Err(ObjectError::MissingNul) => {
                if clean {
                    Err(ObjectError::MissingNul)
                } else {
                    Err(ObjectError::Corrupt)
                }
            },
            other => {
                proof {
                    if !clean && first_index(d@, 0u8) is None {
                        assert(parse_object(d@) == Err::<(BlobKind, Seq<u8>, Seq<u8>), ObjectError>(
                            ObjectError::MissingNul,
                        ));
                    }
                }
                other
            },
        }
    }
}

/// Bytes below 128 form valid UTF-8.
pub proof fn lemma_ascii_valid_utf8(s: Seq<u8>)
    requires
        forall|i: int| 0 <= i < s.len() ==> #[trigger] s[i] < 128,
    ensures
        is_utf8_text(s),
{
    reveal(is_utf8_text);
    assert(s.subrange(0, 0) =~= Seq::<u8>::empty());
    assert(valid_utf8(Seq::<u8>::empty()));
    assert(partial_valid_utf8(s, 0));
    assert forall|i: int| 0 <= 0 <= i < s.len() <= s.len() implies #[trigger] is_leading_byte_width_1(
        s[i],
    ) by {}
    partial_valid_utf8_extend_ascii_block(s, 0, s.len() as int);
    assert(s.subrange(0, s.len() as int) =~= s);
}

/// A kind's name is made of lowercase letters.
proof fn lemma_kind_name_letters(kind: BlobKind)
    ensures
        forall|j: int| 0 <= j < kind_name(kind).len() ==> 97 <= #[trigger] kind_name(kind)[j] <= 122,
{
    match kind {
        BlobKind::Blob => {
            assert(kind_name(kind) =~= seq![98u8, 108u8, 111u8, 98u8]);
        },
        BlobKind::Commit => {
            assert(kind_name(kind) =~= seq![99u8, 111u8, 109u8, 109u8, 105u8, 116u8]);
        },
        BlobKind::Tree => {
            assert(kind_name(kind) =~= seq![116u8, 114u8, 101u8, 101u8]);
        },
    }
}

/// The header of an encoded object holds neither NUL nor bytes above 127.
pub proof fn lemma_encoded_header_ascii(kind: BlobKind, len: nat)
    ensures
        forall|j: int|
            0 <= j < (kind_name(kind) + seq![32u8] + decimal(len)).len() ==> 0 < #[trigger] (
            kind_name(kind) + seq![32u8] + decimal(len))[j] < 128,
{
    let name = kind_name(kind);
    let size = decimal(len);
    let header = name + seq![32u8] + size;
    lemma_numeral_value(len, 10);
    lemma_kind_name_letters(kind);
    assert forall|j: int| 0 <= j < header.len() implies 0 < #[trigger] header[j] < 128 by {
        if j < name.len() {
            assert(header[j] == name[j]);
        } else if j > name.len() {
            assert(header[j] == size[j - name.len() - 1]);
        }
    }
}

/// The header that an object of `kind` with `len` bytes of content is
/// stored with reads back as that kind and that length.
pub proof fn lemma_parse_encoded_header(kind: BlobKind, len: nat)
    requires
        len <= usize::MAX,
    ensures
        parse_header(kind_name(kind) + seq![32u8] + decimal(len)) == Ok::<_, ObjectError>(
            (kind, decimal(len), len),
        ),
{
    let name = kind_name(kind);
    let size = decimal(len);
    let header = name + seq![32u8] + size;
    let sp = name.len() as int;
    assert(is_utf8_text(header)) by {
        lemma_encoded_header_ascii(kind, len);
        lemma_ascii_valid_utf8(header);
    }
    lemma_first_space(kind, size);
    assert(header.take(sp) =~= name);
    assert(header.subrange(sp + 1, header.len() as int) =~= size);
    lemma_kind_name_roundtrip(kind);
    lemma_parse_decimal(len, usize::MAX as nat);
    lemma_parse_header_ok(header, sp, kind, size, len);
}

/// A header parses from facts about its parts.
proof fn lemma_parse_header_ok(header: Seq<u8>, sp: int, kind: BlobKind, size: Seq<u8>, v: nat)
    requires
        is_utf8_text(header),
        first_index(header, 32u8) == Some(sp),
        kind_of_name(header.take(sp)) == Some(kind),
        header.subrange(sp + 1, header.len() as int) == size,
        parse_unsigned(size, usize::MAX as nat) == Some(v),
    ensures
        parse_header(header) == Ok::<_, ObjectError>((kind, size, v)),
{
    reveal(parse_header);
}

/// The first space of a header stands right after the kind's name.
proof fn lemma_first_space(kind: BlobKind, size: Seq<u8>)
    ensures
        first_index(kind_name(kind) + seq![32u8] + size, 32u8) == Some(kind_name(kind).len() as int),
{
    let name = kind_name(kind);
    let header = name + seq![32u8] + size;
    let sp = name.len() as int;
    lemma_kind_name_letters(kind);
    assert forall|j: int| 0 <= j < sp implies #[trigger] header[j] != 32u8 by {
        assert(header[j] == name[j]);
    }
    assert(header[sp] == 32u8);
    lemma_first_index(header, 32u8, sp);
}

/// Reading the bytes of an object gives back its kind, the decimal length of
/// its content as size text, and its content.
pub proof fn lemma_parse_object_bytes(kind: BlobKind, content: Seq<u8>)
    requires
        content.len() <= usize::MAX,
    ensures
        parse_object(object_bytes(kind, content)) == Ok::<_, ObjectError>(
            (kind, decimal(content.len()), content),
        ),
{
    let header = kind_name(kind) + seq![32u8] + decimal(content.len());
    let d = header + seq![0u8] + content;
    assert(d =~= object_bytes(kind, content));
    let n = header.len() as int;
    assert(d.take(n) =~= header);
    assert(first_index(d, 0u8) == Some(n)) by {
        lemma_encoded_header_ascii(kind, content.len());
        assert forall|j: int| 0 <= j < n implies #[trigger] d[j] != 0u8 by {
            assert(d[j] == d.take(n)[j]);
        }
        assert(d[n] == 0u8);
        lemma_first_index(d, 0u8, n);
    }
    lemma_parse_encoded_header(kind, content.len());
    assert(d.subrange(n + 1, d.len() as int) =~= content);
}

/// The bytes of a stored object of `kind` with `content`.
pub fn encode_object(kind: BlobKind, content: &[u8]) -> (res: Vec<u8>)
    ensures
        res@ == object_bytes(kind, content@),
{
    let mut out = kind.name();
    out.push(32u8);
    let size = decimal_bytes(content.len() as u64);
    push_all(&mut out, size.as_slice());
    out.push(0u8);
    push_all(&mut out, content);
    assert(out@ =~= object_bytes(kind, content@));
    out
}

/// The name under which an object of `kind` with `content` is stored: 40
/// lowercase hexadecimal digits of the SHA-1 of its bytes.
pub fn hash_object(kind: BlobKind, content: &[u8]) -> (res: Vec<u8>)
    ensures
        res@ == object_name(kind, content@),
        res@.len() == 40,
        is_lower_hex(res@),
{
    let bytes = encode_object(kind, content);
    let digest = sha1_digest(bytes.as_slice());
    let name = hex_encode(digest.as_slice());
    proof {
        lemma_hex_text_shape(digest@);
    }
    name
}

/// A stored object as it lands on disk: the directory named by the first two
/// digits of its name, the file named by the rest, and the compressed bytes.
pub struct ObjectFile {
    pub dir: Vec<u8>,
    pub file: Vec<u8>,
    pub data: Vec<u8>,
}

/// Prepares an object of `kind` with `content`, named `sha`, for storage:
/// where it goes and its compressed bytes, which inflate to exactly the
/// object's bytes and read back as the object. It fails only where the
/// object's bytes cannot be compressed.
pub fn write_to_git(sha: &[u8], kind: BlobKind, content: &[u8]) -> (res: Result<
    ObjectFile,
    ObjectError,
>)
    requires
        sha@.len() >= 2,
    ensures
        res is Ok <==> zlib_compressed(object_bytes(kind, content@)) is Some,
        match res {
            Ok(f) => {
                &&& f.dir@ == sha@.take(2)
                &&& f.file@ == sha@.skip(2)
                &&& zlib_compressed(object_bytes(kind, content@)) == Some(f.data@)
                &&& zlib_inflated(f.data@) == (object_bytes(kind, content@), true)
                &&& read_object(f.data@) == Ok::<_, ObjectError>(
                    (kind, decimal(content@.len()), content@),
                )
            },
            Err(e) => e == ObjectError::Compression,
        },
{
    let bytes = encode_object(kind, content);
    match zlib_compress(bytes.as_slice()) {
        Ok(data) => {
            assert(content@.len() == content.len());
            proof {
                lemma_parse_object_bytes(kind, content@);
            }
            let dir = copy_range(sha, 0, 2);
            let file = copy_range(sha, 2, sha.len());
            assert(dir@ =~= sha@.take(2));
            assert(file@ =~= sha@.skip(2));
            Ok(ObjectFile { dir, file, data })
        },
        Err(_) => Err(ObjectError::Compression),
    }
}

/// Splits an abbreviated object name into the directory it is looked up in
/// (its first two characters) and the prefix that the file's name must have
/// (the rest). Names shorter than four characters are refused.
pub fn locate_object(sha: &[u8]) -> (res: Result<(Vec<u8>, Vec<u8>), ObjectError>)
    ensures
        sha@.len() < 4 ==> res == Err::<(Vec<u8>, Vec<u8>), _>(ObjectError::ShortName),
        sha@.len() >= 4 ==> (res matches Ok((dir, prefix)) && dir@ == sha@.take(2) && prefix@
            == sha@.skip(2)),
{
    if sha.len() < 4 {
        return Err(ObjectError::ShortName);
    }
    let dir = copy_range(sha, 0, 2);
    let prefix = copy_range(sha, 2, sha.len());
    assert(dir@ =~= sha@.take(2));
    assert(prefix@ =~= sha@.skip(2));
    Ok((dir, prefix))
}

/// Entry `i` of a directory listing is a file whose name begins with
/// `prefix`.
pub open spec fn is_candidate(prefix: Seq<u8>, names: Seq<Vec<u8>>, is_file: Seq<bool>, i: int) -> bool {
    is_file[i] && has_prefix(names[i]@, prefix)
}

/// Picks the stored object that an abbreviated name denotes, among the
/// entries of its directory (their names and whether each is a file): the
/// one file whose name begins with `prefix`. None is an error, and so is more
/// than one.
pub fn find_blob(prefix: &[u8], names: &Vec<Vec<u8>>, is_file: &Vec<bool>) -> (res: Result<
    usize,
    ObjectError,
>)
    requires
        names@.len() == is_file@.len(),
    ensures
        match res {
            Ok(i) => i < names@.len() && is_candidate(prefix@, names@, is_file@, i as int)
                && forall|j: int|
                0 <= j < names@.len() && j != i ==> !is_candidate(prefix@, names@, is_file@, j),
            Err(ObjectError::NotFound) => forall|j: int|
                0 <= j < names@.len() ==> !is_candidate(prefix@, names@, is_file@, j),
            Err(ObjectError::Ambiguous) => exists|j: int, k: int|
                0 <= j < k < names@.len() && is_candidate(prefix@, names@, is_file@, j)
                    && is_candidate(prefix@, names@, is_file@, k),
            Err(_) => false,
        },
{
    let mut found: Option<usize> = None;
    let mut i: usize = 0;
    while i < names.len()
        invariant
            names@.len() == is_file@.len(),
            i <= names@.len(),
            match found {
                None => forall|j: int| 0 <= j < i ==> !is_candidate(prefix@, names@, is_file@, j),
                Some(f) => f < i && is_candidate(prefix@, names@, is_file@, f as int) && forall|
                    j: int,
                | 0 <= j < i && j != f ==> !is_candidate(prefix@, names@, is_file@, j),
            },
        decreases names.len() - i,
    {
        if is_file[i] && starts_with(names[i].as_slice(), prefix) {
            match found {
                Some(f) => {
                    assert(is_candidate(prefix@, names@, is_file@, f as int));
                    assert(is_candidate(prefix@, names@, is_file@, i as int));
                    return Err(ObjectError::Ambiguous);
                },
                None => {
                    found = Some(i);
                },
            }
        }
        i = i + 1;
    }
    match found {
        Some(f) => Ok(f),
        None => Err(ObjectError::NotFound),
    }
}

} // verus!

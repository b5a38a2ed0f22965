//! Reading the staging index for `status`.

use vstd::prelude::*;
use crate::text::{copy_range, until_nul_end, until_nul_len};

verus! {

/// Why the index could not be read to its end.
#[derive(Clone, Copy, Debug, PartialEq, Eq, Structural)]
pub enum IndexError {
    /// The index ends before the header or an entry does.
    Truncated,
    /// An entry's name is empty where a name was expected, at the very end
    /// of the index; the name's last byte cannot be removed.
    EmptyName,
}

/// A big-endian 32-bit number from four bytes.
pub open spec fn be_u32(b0: u8, b1: u8, b2: u8, b3: u8) -> u32 {
    (b0 as int * 16777216 + b1 as int * 65536 + b2 as int * 256 + b3 as int) as u32
}

/// The names of `count` index entries read from `d` at `pos`, and the error
/// that stopped the reading, if one did. Each entry is 62 bytes of
/// metadata, then a name read up to and including its NUL (or to the end,
/// whose last byte is then dropped all the same), then 7 bytes.
pub open spec fn index_entries(d: Seq<u8>, pos: int, count: nat) -> (Seq<Seq<u8>>, Option<IndexError>)
    decreases count,
{
    if count == 0 {
        (Seq::empty(), None)
    } else if pos + 62 > d.len() {
        (Seq::empty(), Some(IndexError::Truncated))
    } else if pos + 62 >= d.len() {
        (Seq::empty(), Some(IndexError::EmptyName))
    } else {
        let p = pos + 62;
        let text_len = until_nul_len(d, p);
        let name = d.subrange(p, p + text_len - 1);
        let q = p + text_len;
        if q + 7 > d.len() {
            (seq![name], Some(IndexError::Truncated))
        } else {
            let (rest, err) = index_entries(d, q + 7, (count - 1) as nat);
            (seq![name] + rest, err)
        }
    }
}

/// What `status` reads from the index: the 12-byte header (absent where the
/// index is shorter), the entry count in its last four bytes, the names of
/// the entries read, and the error that stopped the reading, if one did.
pub struct IndexListing {
    pub header: Option<Vec<u8>>,
    pub count: u32,
    pub names: Vec<Vec<u8>>,
    pub error: Option<IndexError>,
}

/// Reads the index `d` as `status` does (see `index_entries`).
pub fn git_status(d: &[u8]) -> (res: IndexListing)
    ensures
        d@.len() < 12 ==> res.header is None && res.names@.len() == 0 && res.error == Some(
            IndexError::Truncated,
        ),
        d@.len() >= 12 ==> ({
            let count = be_u32(d@[8], d@[9], d@[10], d@[11]);
            let (names, err) = index_entries(d@, 12, count as nat);
            &&& res.header matches Some(h) && h@ == d@.take(12)
            &&& res.count == count
            &&& res.names@.len() == names.len()
            &&& forall|i: int| 0 <= i < names.len() ==> #[trigger] res.names@[i]@ == names[i]
            &&& res.error == err
        }),
{
    let len = d.len();
    let mut names: Vec<Vec<u8>> = Vec::new();
    if len < 12 {
        return IndexListing { header: None, count: 0, names, error: Some(IndexError::Truncated) };
    }
    let header = copy_range(d, 0, 12);
    assert(header@ =~= d@.take(12));
    let count: u32 = ((d[8] as u64) * 16777216 + (d[9] as u64) * 65536 + (d[10] as u64) * 256 + (
    d[11] as u64)) as u32;
    let ghost full = index_entries(d@, 12, count as nat);
    let ghost done: Seq<Seq<u8>> = Seq::empty();
    let mut pos: usize = 12;
    let mut left: u32 = count;
    assert(full.0 =~= done + index_entries(d@, pos as int, left as nat).0);
    assert(count == be_u32(d@[8], d@[9], d@[10], d@[11]));
    loop
        invariant
            len == d@.len(),
            len >= 12,
            header@ == d@.take(12),
            count == be_u32(d@[8], d@[9], d@[10], d@[11]),
            pos <= len,
            full == index_entries(d@, 12, count as nat),
            full.0 == done + index_entries(d@, pos as int, left as nat).0,
            full.1 == index_entries(d@, pos as int, left as nat).1,
            names@.len() == done.len(),
            forall|i: int| 0 <= i < done.len() ==> #[trigger] names@[i]@ == done[i],
        decreases left,
    {
        if left == 0 {
            assert(done =~= full.0);
            return IndexListing { header: Some(header), count, names, error: None };
        }
        if len - pos < 62 {
            assert(done =~= full.0);
            return IndexListing {
                header: Some(header),
                count,
                names,
                error: Some(IndexError::Truncated),
            };
        }
        if len - pos == 62 {
            assert(done =~= full.0);
            return IndexListing {
                header: Some(header),
                count,
                names,
                error: Some(IndexError::EmptyName),
            };
        }
        let p = pos + 62;
        let q = until_nul_end(d, p);
        let name = copy_range(d, p, q - 1);
        let ghost v = name@;
        let ghost old_done = done;
        proof {
            done = done.push(v);
        }
        names.push(name);
        assert forall|i: int| 0 <= i < done.len() implies #[trigger] names@[i]@ == done[i] by {
            if i < old_done.len() {
                assert(done[i] == old_done[i]);
            }
        }
        if len - q < 7 {
            assert(done =~= full.0);
            return IndexListing {
                header: Some(header),
                count,
                names,
                error: Some(IndexError::Truncated),
            };
        }
        assert(full.0 =~= done + index_entries(d@, q + 7, (left - 1) as nat).0);
        pos = q + 7;
        left = left - 1;
    }
}

} // verus!

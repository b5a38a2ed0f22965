//! Commit objects.

use vstd::prelude::*;
use crate::encoding::is_lower_hex;
use crate::kind::BlobKind;
use crate::objects::{hash_object, object_name};
use crate::text::{push_all, signed_decimal};

verus! {

/// The name and address that every commit carries as author and committer.
pub open spec fn author_text() -> Seq<u8> {
    seq![115u8, 104u8, 55u8, 116u8, 111u8, 111u8, 116u8, 32u8, 60u8, 115u8, 104u8, 55u8, 116u8, 111u8, 111u8, 116u8, 64u8, 103u8, 105u8, 116u8, 104u8, 117u8, 98u8, 46u8, 99u8, 111u8, 109u8, 62u8]
}

/// Two decimal digits of a number below 100, as `{:02}` writes it.
pub open spec fn two_digits(n: nat) -> Seq<u8> {
    seq![(48 + n / 10) as u8, (48 + n % 10) as u8]
}

/// How `chrono` writes a fixed offset of `secs` seconds east of UTC: sign,
/// two-digit hours, colon, two-digit minutes, and colon and two-digit
/// seconds where the seconds are not zero.
pub open spec fn offset_text(secs: int) -> Seq<u8> {
    let sign: u8 = if secs < 0 {
        45u8
    } else {
        43u8
    };
    let a: nat = if secs < 0 {
        (-secs) as nat
    } else {
        secs as nat
    };
    let sec = a % 60;
    let mins = a / 60;
    seq![sign] + two_digits(mins / 60) + seq![58u8] + two_digits(mins % 60) + (if sec == 0 {
        Seq::<u8>::empty()
    } else {
        seq![58u8] + two_digits(sec)
    })
}

/// Calls `chrono::FixedOffset::east_opt(secs)` and formats the offset with
/// `to_string`. The contract states the text that `chrono`'s `Display` for
/// `FixedOffset` writes; `east_opt` gives an offset for exactly the `secs`
/// that `requires` admits.
#[verifier::external_body]
fn fixed_offset_text(secs: i32) -> (res: Vec<u8>)
    requires
        -86400 < secs < 86400,
    ensures
        res@ == offset_text(secs as int),
{
    chrono::FixedOffset::east_opt(secs).unwrap().to_string().into_bytes()
}

/// Appends the decimal numeral of a signed number.
fn push_signed_decimal(out: &mut Vec<u8>, x: i64)
    ensures
        final(out)@ == old(out)@ + signed_decimal(x as int),
{
    if x < 0 {
        out.push(45u8);
        let m: u64 = ((-(x + 1)) as u64) + 1;
        let digits = crate::text::decimal_bytes(m);
        push_all(out, digits.as_slice());
        assert(out@ =~= old(out)@ + signed_decimal(x as int));
    } else {
        let digits = crate::text::decimal_bytes(x as u64);
        push_all(out, digits.as_slice());
    }
}

/// The content of a commit of `tree`, after `parent` if there is one, made
/// at `timestamp` seconds in the time zone written `zone`, with `message`:
/// a `tree` line; a `parent` line where there is a parent; `author` and
/// `committer` lines with the time; an empty line; the message.
pub open spec fn commit_content(
    tree: Seq<u8>,
    parent: Option<Seq<u8>>,
    timestamp: int,
    zone: Seq<u8>,
    message: Seq<u8>,
) -> Seq<u8> {
    let time = signed_decimal(timestamp) + seq![32u8] + zone;
    seq![116u8, 114u8, 101u8, 101u8, 32u8] + tree + seq![10u8] + (match parent {
        Some(p) => seq![112u8, 97u8, 114u8, 101u8, 110u8, 116u8, 32u8] + p + seq![10u8],
        None => Seq::<u8>::empty(),
    }) + seq![97u8, 117u8, 116u8, 104u8, 111u8, 114u8, 32u8] + author_text() + seq![32u8] + time + seq![10u8] + seq![99u8, 111u8, 109u8, 109u8, 105u8, 116u8, 116u8, 101u8, 114u8, 32u8]
        + author_text() + seq![32u8] + time + seq![10u8, 10u8] + message
}

/// A commit object ready to be stored: its content and its name.
pub struct CommitObject {
    pub content: Vec<u8>,
    pub sha: Vec<u8>,
}

/// Builds the commit of `tree` (see `commit_content`), at `timestamp` with
/// the time zone `offset_seconds` east of UTC, and its name.
pub fn commit_tree(
    tree: &[u8],
    parent: Option<&[u8]>,
    timestamp: i64,
    offset_seconds: i32,
    message: &[u8],
) -> (res: CommitObject)
    requires
        -86400 < offset_seconds < 86400,
    ensures
        res.content@ == commit_content(
            tree@,
            match parent {
                Some(p) => Some(p@),
                None => None,
            },
            timestamp as int,
            offset_text(offset_seconds as int),
            message@,
        ),
        res.sha@ == object_name(BlobKind::Commit, res.content@),
        res.sha@.len() == 40,
        is_lower_hex(res.sha@),
{
    let zone = fixed_offset_text(offset_seconds);
    let ghost time = signed_decimal(timestamp as int) + seq![32u8] + zone@;
    let mut out: Vec<u8> = vec![116u8, 114u8, 101u8, 101u8, 32u8];
    push_all(&mut out, tree);
    out.push(10u8);
    match parent {
        Some(p) => {
            push_all(&mut out, vec![112u8, 97u8, 114u8, 101u8, 110u8, 116u8, 32u8].as_slice());
            push_all(&mut out, p);
            out.push(10u8);
        },
        None => {},
    }
    let ghost head = out@;
    let author = vec![115u8, 104u8, 55u8, 116u8, 111u8, 111u8, 116u8, 32u8, 60u8, 115u8, 104u8, 55u8, 116u8, 111u8, 111u8, 116u8, 64u8, 103u8, 105u8, 116u8, 104u8, 117u8, 98u8, 46u8, 99u8, 111u8, 109u8, 62u8];
    push_all(&mut out, vec![97u8, 117u8, 116u8, 104u8, 111u8, 114u8, 32u8].as_slice());
    push_all(&mut out, author.as_slice());
    out.push(32u8);
    push_signed_decimal(&mut out, timestamp);
    out.push(32u8);
    push_all(&mut out, zone.as_slice());
    out.push(10u8);
    push_all(&mut out, vec![99u8, 111u8, 109u8, 109u8, 105u8, 116u8, 116u8, 101u8, 114u8, 32u8].as_slice());
    push_all(&mut out, author.as_slice());
    out.push(32u8);
    push_signed_decimal(&mut out, timestamp);
    out.push(32u8);
    push_all(&mut out, zone.as_slice());
    out.push(10u8);
    out.push(10u8);
    push_all(&mut out, message);
    assert(author@ =~= author_text());
    assert(out@ =~= commit_content(
        tree@,
        match parent {
            Some(p) => Some(p@),
            None => None,
        },
        timestamp as int,
        zone@,
        message@,
    ));
    let sha = hash_object(BlobKind::Commit, out.as_slice());
    CommitObject { content: out, sha }
}

} // verus!

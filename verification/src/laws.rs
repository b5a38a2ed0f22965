//! Properties that hold across the library's functions: what is read back
//! of what was written.

use vstd::prelude::*;
use crate::cat::{cat_spec, CatError, CatOptions};
use crate::kind::{kind_name, BlobKind};
use crate::objects::{lemma_parse_object_bytes, object_bytes, object_name, parse_object, ObjectError};
use crate::digest::sha1_of;
use crate::index::be_u32;
use crate::repo::{git_suffix, has_git_suffix, head_prefix, head_text, ignored_names, init_dir, trim_git_suffix};
use crate::encoding::{hex_bytes, hex_text, is_lower_hex, lemma_hex_bytes_text};
use crate::tree::{
    bad_entry, entry_key, insert_entry, sort_entries, tracked_entries, tree_entries,
    file_type, mode_kind, octal_reading, parse_tree, raw_name, raw_name_end, tree_content, tree_entry_bytes,
    tree_step, FileTypeError, LsError, entry_line, is_action_for, LsAction, TreeOptions,
};
use crate::text::{
    all_digits, decimal, first_index, has_prefix, is_digit, lemma_first_index, lemma_parse_decimal,
    parse_unsigned, until_nul_len, without_nul,
};
use crate::text::{digits_value, lemma_lex_total, lemma_lex_trans, lemma_numeral_value, lex_le, numeral, octal};

verus! {

/// `b` to the power `k`.
pub open spec fn pow_nat(b: nat, k: nat) -> nat
    decreases k,
{
    if k == 0 {
        1
    } else {
        b * pow_nat(b, (k - 1) as nat)
    }
}

/// The number whose decimal digits are the octal digits of `m`: what a tree
/// entry's mode reads back as.
pub open spec fn mode_read_back(m: nat) -> nat {
    digits_value(octal(m), 10)
}

/// Reading back the octal digits of `m` as decimal and those again as octal
/// gives `m`; the decimal reading is no smaller than `m`, and below `10^k`
/// where `m` is below `8^k`.
pub proof fn lemma_mode_read_back(m: nat, k: nat)
    ensures
        octal_reading(mode_read_back(m)) == Some(m),
        mode_read_back(m) >= m,
        m < pow_nat(8, k) ==> mode_read_back(m) < pow_nat(10, k),
    decreases m,
{
    let s = numeral(m, 8);
    let r = digits_value(s, 10);
    lemma_numeral_value(m, 8);
    if m < 8 {
        assert(s.drop_last() =~= Seq::<u8>::empty());
        assert(digits_value(s.drop_last(), 10) == 0);
        assert(s.last() == (48 + m) as u8);
        assert(r == m);
        if m < pow_nat(8, k) && k == 0 {
            assert(pow_nat(8, 0) == 1);
        }
        if k > 0 {
            assert(pow_nat(10, k) == 10 * pow_nat(10, (k - 1) as nat));
            lemma_pow_positive(10, (k - 1) as nat);
        }
    } else {
        let q = m / 8;
        let d = m % 8;
        assert(q < m && q >= 1 && d < 8 && q * 8 + d == m) by (nonlinear_arith)
            requires
                m >= 8,
                q == m / 8,
                d == m % 8,
        ;
        let kk: nat = if k > 0 { (k - 1) as nat } else { 0 };
        lemma_mode_read_back(q, kk);
        assert(s.drop_last() =~= numeral(q, 8));
        assert(s.last() == (48 + d) as u8);
        let rq = mode_read_back(q);
        assert(r == rq * 10 + d);
        assert(r >= 10 && r / 10 == rq && r % 10 == d) by (nonlinear_arith)
            requires
                r == rq * 10 + d,
                rq >= 1,
                d < 8,
        ;
        assert(r >= m) by (nonlinear_arith)
            requires
                r == rq * 10 + d,
                rq >= q,
                m == q * 8 + d,
        ;
        if m < pow_nat(8, k) {
            assert(k > 0) by {
                if k == 0 {
                    assert(pow_nat(8, 0) == 1);
                }
            }
            assert(pow_nat(8, k) == 8 * pow_nat(8, kk));
            assert(pow_nat(10, k) == 10 * pow_nat(10, kk));
            assert(q < pow_nat(8, kk)) by (nonlinear_arith)
                requires
                    m < 8 * pow_nat(8, kk),
                    q * 8 + d == m,
            ;
            assert(r < pow_nat(10, k)) by (nonlinear_arith)
                requires
                    rq < pow_nat(10, kk),
                    r == rq * 10 + d,
                    d < 8,
                    pow_nat(10, k) == 10 * pow_nat(10, kk),
            ;
        }
    }
}

/// A listing shows a written entry's mode with the octal digits it was
/// written with: the decimal numeral of what the mode reads back as is the
/// octal numeral of the mode.
pub proof fn lemma_listed_mode_digits(m: nat)
    ensures
        decimal(mode_read_back(m)) == octal(m),
    decreases m,
{
    let s = numeral(m, 8);
    lemma_numeral_value(m, 8);
    if m < 8 {
        assert(s.drop_last() =~= Seq::<u8>::empty());
        assert(digits_value(s.drop_last(), 10) == 0);
        assert(s.last() == (48 + m) as u8);
        assert(mode_read_back(m) == m);
    } else {
        let q = m / 8;
        let d = m % 8;
        assert(q >= 1 && q < m && d < 8) by (nonlinear_arith)
            requires
                m >= 8,
                q == m / 8,
                d == m % 8,
        ;
        lemma_listed_mode_digits(q);
        lemma_mode_read_back(q, 0);
        assert(s.drop_last() =~= numeral(q, 8));
        assert(s.last() == (48 + d) as u8);
        let rq = mode_read_back(q);
        let r = mode_read_back(m);
        assert(r == rq * 10 + d);
        assert(r >= 10 && r / 10 == rq && r % 10 == d) by (nonlinear_arith)
            requires
                r == rq * 10 + d,
                rq >= 1,
                d < 8,
        ;
        assert(decimal(r) == decimal(rq).push((48 + d) as u8));
    }
}

/// Powers of a positive base are positive.
pub proof fn lemma_pow_positive(b: nat, k: nat)
    requires
        b > 0,
    ensures
        pow_nat(b, k) > 0,
    decreases k,
{
    if k > 0 {
        lemma_pow_positive(b, (k - 1) as nat);
        assert(b * pow_nat(b, (k - 1) as nat) > 0) by (nonlinear_arith)
            requires
                b > 0,
                pow_nat(b, (k - 1) as nat) > 0,
        ;
    }
}

/// The mode of an entry written into a tree reads back as the kind that
/// its type bits name: a directory as a tree, a regular file or a link as a
/// blob; any other mode is refused.
pub proof fn lemma_written_kind(m: u32)
    requires
        m < 134217728,
    ensures
        mode_read_back(m as nat) < 1000000000,
        file_type(mode_read_back(m as nat) as u32) == (match mode_kind(m) {
            Some(k) => Ok::<BlobKind, FileTypeError>(k),
            None => Err(FileTypeError::UnknownType),
        }),
{
    reveal_with_fuel(pow_nat, 10);
    assert(pow_nat(8, 9) == 134217728);
    assert(pow_nat(10, 9) == 1000000000);
    lemma_mode_read_back(m as nat, 9);
}

/// A directory entry that reads back from the tree it is written into: its
/// object name is 40 lowercase hexadecimal digits, its file name holds no
/// NUL, and its mode (below `8^9`) names a kind of object.
pub open spec fn entry_reads_back(f: (u32, Seq<u8>, Seq<u8>)) -> bool {
    &&& f.1.len() == 40
    &&& is_lower_hex(f.1)
    &&& forall|i: int| 0 <= i < f.2.len() ==> #[trigger] f.2[i] != 0u8
    &&& f.0 < 134217728
    &&& mode_kind(f.0) is Some
}

/// What listing a tree gives back for a directory entry written into it: the
/// number its octal mode digits spell in decimal (so that the listing shows
/// those digits), its name, its object name, and the kind its mode names.
pub open spec fn read_back_entry(f: (u32, Seq<u8>, Seq<u8>)) -> (u32, Seq<u8>, Seq<u8>, BlobKind) {
    (mode_read_back(f.0 as nat) as u32, f.2, f.1, mode_kind(f.0).unwrap())
}

/// The bytes a directory entry is written as in its tree.
pub open spec fn written_entry(f: (u32, Seq<u8>, Seq<u8>)) -> Seq<u8> {
    tree_entry_bytes(f.0, f.2, hex_bytes(f.1).unwrap())
}

/// The bytes of the entries, first to last.
pub open spec fn written_entries(fs: Seq<(u32, Seq<u8>, Seq<u8>)>) -> Seq<u8>
    decreases fs.len(),
{
    if fs.len() == 0 {
        Seq::empty()
    } else {
        written_entry(fs[0]) + written_entries(fs.drop_first())
    }
}

proof fn lemma_written_entries_last(fs: Seq<(u32, Seq<u8>, Seq<u8>)>)
    requires
        fs.len() > 0,
    ensures
        written_entries(fs) == written_entries(fs.drop_last()) + written_entry(fs.last()),
    decreases fs.len(),
{
    if fs.len() == 1 {
        assert(fs.drop_first() =~= Seq::<(u32, Seq<u8>, Seq<u8>)>::empty());
        assert(fs.drop_last() =~= Seq::<(u32, Seq<u8>, Seq<u8>)>::empty());
        assert(written_entries(fs) =~= written_entries(fs.drop_last()) + written_entry(fs.last()));
    } else {
        let rest = fs.drop_first();
        lemma_written_entries_last(rest);
        assert(fs.drop_last().drop_first() =~= rest.drop_last());
        assert(fs.drop_last()[0] == fs[0]);
        assert(rest.last() == fs.last());
        assert(written_entries(fs) =~= written_entries(fs.drop_last()) + written_entry(fs.last()));
    }
}

/// Where every object name is hexadecimal, the tree holds the entries'
/// bytes in order.
proof fn lemma_tree_content_written(fs: Seq<(u32, Seq<u8>, Seq<u8>)>)
    requires
        forall|i: int| 0 <= i < fs.len() ==> (#[trigger] hex_bytes(fs[i].1)) is Some,
    ensures
        tree_content(fs) == Ok::<Seq<u8>, nat>(written_entries(fs)),
    decreases fs.len(),
{
    if fs.len() > 0 {
        let init = fs.drop_last();
        assert forall|i: int| 0 <= i < init.len() implies (#[trigger] hex_bytes(init[i].1)) is Some by {
            assert(init[i] == fs[i]);
        }
        lemma_tree_content_written(init);
        lemma_written_entries_last(fs);
        assert(hex_bytes(fs[fs.len() - 1].1) is Some);
    } else {
        assert(written_entries(fs) =~= Seq::<u8>::empty());
    }
}

/// The entry written for `f` reads back, wherever it stands.
#[verifier::rlimit(60)]
proof fn lemma_tree_step_written(x: Seq<u8>, f: (u32, Seq<u8>, Seq<u8>), y: Seq<u8>)
    requires
        entry_reads_back(f),
    ensures
        tree_step(x + written_entry(f) + y, x.len() as int) == Some(
            Ok::<_, LsError>((read_back_entry(f), (x.len() + written_entry(f).len()) as int)),
        ),
{
    let (mode, sha, name) = f;
    let oct = octal(mode as nat);
    let e = written_entry(f);
    let b = x + e + y;
    let p = x.len() as int;
    let line = oct + seq![32u8] + name + seq![0u8];
    let l = line.len() as int;
    let sp = oct.len() as int;
    let hs = p + l;
    let r = mode_read_back(mode as nat);
    lemma_written_line(x, f, y);
    lemma_written_split(mode, name);
    lemma_written_mode(mode);
    lemma_written_raw(x, f, y);
    lemma_written_kind(mode);
    lemma_tree_step_ok(b, p, line, sp, r, name, sha, mode_kind(mode).unwrap(), hs + 20);
}

/// The text of a written entry splits at the space after the mode.
proof fn lemma_written_split(mode: u32, name: Seq<u8>)
    ensures
        ({
            let oct = octal(mode as nat);
            let line = oct + seq![32u8] + name + seq![0u8];
            &&& first_index(line, 32u8) == Some(oct.len() as int)
            &&& line.take(oct.len() as int) == oct
            &&& without_nul(line.skip(oct.len() as int + 1)) == name
        }),
{
    let oct = octal(mode as nat);
    let line = oct + seq![32u8] + name + seq![0u8];
    let sp = oct.len() as int;
    lemma_numeral_value(mode as nat, 8);
    assert forall|j: int| 0 <= j < oct.len() implies #[trigger] line[j] != 32u8 by {
        assert(line[j] == oct[j]);
        assert(48 <= oct[j]);
    }
    lemma_first_index(line, 32u8, sp);
    assert(line.take(sp) =~= oct);
    assert(line.skip(sp + 1) =~= name.push(0u8));
    assert(name.push(0u8).drop_last() =~= name);
}

/// The octal mode of a written entry parses as its decimal reading.
proof fn lemma_written_mode(mode: u32)
    requires
        mode < 134217728,
    ensures
        parse_unsigned(octal(mode as nat), u32::MAX as nat) == Some(mode_read_back(mode as nat)),
        mode_read_back(mode as nat) < 1000000000,
{
    let oct = octal(mode as nat);
    lemma_numeral_value(mode as nat, 8);
    lemma_mode_read_back(mode as nat, 9);
    reveal_with_fuel(pow_nat, 10);
    assert(pow_nat(8, 9) == 134217728);
    assert(pow_nat(10, 9) == 1000000000);
    assert(all_digits(oct)) by {
        assert forall|j: int| 0 <= j < oct.len() implies #[trigger] is_digit(oct[j]) by {
            assert(48 <= oct[j] < 56);
        }
    }
}

/// The 20 raw bytes after a written entry's text are its object name.
proof fn lemma_written_raw(x: Seq<u8>, f: (u32, Seq<u8>, Seq<u8>), y: Seq<u8>)
    requires
        entry_reads_back(f),
    ensures
        ({
            let b = x + written_entry(f) + y;
            let hs = (x.len() + (octal(f.0 as nat) + seq![32u8] + f.2 + seq![0u8]).len()) as int;
            &&& hex_text(raw_name(b, hs)) == f.1
            &&& raw_name_end(b, hs) == hs + 20
            &&& raw_name_end(b, hs) == x.len() + written_entry(f).len()
        }),
{
    let line = octal(f.0 as nat) + seq![32u8] + f.2 + seq![0u8];
    lemma_hex_bytes_text(f.1);
    let raw = hex_bytes(f.1).unwrap();
    let b = x + written_entry(f) + y;
    assert(written_entry(f) =~= line + raw);
    assert(b =~= x + line + raw + y);
    let hs = (x.len() + line.len()) as int;
    assert(b.subrange(hs, hs + 20) =~= raw);
    assert(raw_name(b, hs) =~= raw);
}

/// Reading an entry of tree content, from facts about its parts.
proof fn lemma_tree_step_ok(
    b: Seq<u8>,
    p: int,
    line: Seq<u8>,
    sp: int,
    m: nat,
    name: Seq<u8>,
    hash: Seq<u8>,
    kind: BlobKind,
    next: int,
)
    requires
        0 <= p < b.len(),
        until_nul_len(b, p) == line.len(),
        b.subrange(p, p + line.len()) == line,
        first_index(line, 32u8) == Some(sp),
        parse_unsigned(line.take(sp), u32::MAX as nat) == Some(m),
        file_type(m as u32) == Ok::<BlobKind, FileTypeError>(kind),
        without_nul(line.skip(sp + 1)) == name,
        hex_text(raw_name(b, p + line.len())) == hash,
        raw_name_end(b, p + line.len()) == next,
    ensures
        tree_step(b, p) == Some(Ok::<_, LsError>(((m as u32, name, hash, kind), next))),
{
    reveal(tree_step);
}

/// The text of the entry written for `f` runs to the NUL after its name.
proof fn lemma_written_line(x: Seq<u8>, f: (u32, Seq<u8>, Seq<u8>), y: Seq<u8>)
    requires
        entry_reads_back(f),
    ensures
        ({
            let line = octal(f.0 as nat) + seq![32u8] + f.2 + seq![0u8];
            let b = x + written_entry(f) + y;
            until_nul_len(b, x.len() as int) == line.len() && b.subrange(
                x.len() as int,
                (x.len() + line.len()) as int,
            ) == line
        }),
{
    let (mode, sha, name) = f;
    let oct = octal(mode as nat);
    lemma_hex_bytes_text(sha);
    let raw = hex_bytes(sha).unwrap();
    let b = x + written_entry(f) + y;
    let p = x.len() as int;
    lemma_numeral_value(mode as nat, 8);
    let line = oct + seq![32u8] + name + seq![0u8];
    let l = line.len() as int;
    assert(written_entry(f) =~= line + raw);
    assert(b.skip(p) =~= line + raw + y);
    assert forall|j: int| 0 <= j < l - 1 implies #[trigger] line[j] != 0u8 by {
        if j < oct.len() {
            assert(48 <= oct[j]);
        } else if j > oct.len() {
            assert(line[j] == name[j - oct.len() - 1]);
        }
    }
    assert forall|j: int| 0 <= j < l - 1 implies #[trigger] b.skip(p)[j] != 0u8 by {
        assert(b.skip(p)[j] == line[j]);
    }
    lemma_first_index(b.skip(p), 0u8, l - 1);
    assert(b.subrange(p, p + l) =~= line);
}

/// The entries written from `x.len()` on read back one after another.
proof fn lemma_parse_written(x: Seq<u8>, fs: Seq<(u32, Seq<u8>, Seq<u8>)>)
    requires
        forall|i: int| 0 <= i < fs.len() ==> entry_reads_back(#[trigger] fs[i]),
    ensures
        parse_tree(x + written_entries(fs), x.len() as int) == (
            fs.map_values(|f: (u32, Seq<u8>, Seq<u8>)| read_back_entry(f)),
            None::<LsError>,
        ),
    decreases fs.len(),
{
    let b = x + written_entries(fs);
    if fs.len() == 0 {
        assert(b =~= x);
        reveal(tree_step);
        assert(fs.map_values(|f: (u32, Seq<u8>, Seq<u8>)| read_back_entry(f)) =~= Seq::<
            (u32, Seq<u8>, Seq<u8>, BlobKind),
        >::empty());
    } else {
        let f = fs[0];
        let rest = fs.drop_first();
        let x2 = x + written_entry(f);
        assert(b =~= x + written_entry(f) + written_entries(rest));
        assert(entry_reads_back(fs[0]));
        lemma_tree_step_written(x, f, written_entries(rest));
        assert forall|i: int| 0 <= i < rest.len() implies entry_reads_back(#[trigger] rest[i]) by {
            assert(rest[i] == fs[i + 1]);
        }
        lemma_parse_written(x2, rest);
        assert(x2 + written_entries(rest) =~= b);
        assert(fs.map_values(|f: (u32, Seq<u8>, Seq<u8>)| read_back_entry(f)) =~= seq![
            read_back_entry(f),
        ] + rest.map_values(|f: (u32, Seq<u8>, Seq<u8>)| read_back_entry(f)));
    }
}

/// Listing a tree gives back every entry that was written into it, in
/// order, and stops without error: its mode (the number that the octal
/// digits written spell in decimal, so that a listing shows those digits),
/// its file name, its object name, and the kind its mode names.
pub proof fn lemma_tree_roundtrip(fs: Seq<(u32, Seq<u8>, Seq<u8>)>)
    requires
        forall|i: int| 0 <= i < fs.len() ==> entry_reads_back(#[trigger] fs[i]),
    ensures
        tree_content(fs) is Ok,
        parse_tree(tree_content(fs)->Ok_0, 0) == (
            fs.map_values(|f: (u32, Seq<u8>, Seq<u8>)| read_back_entry(f)),
            None::<LsError>,
        ),
{
    assert forall|i: int| 0 <= i < fs.len() implies (#[trigger] hex_bytes(fs[i].1)) is Some by {
        assert(entry_reads_back(fs[i]));
        lemma_hex_bytes_text(fs[i].1);
    }
    lemma_tree_content_written(fs);
    lemma_parse_written(Seq::empty(), fs);
    assert(Seq::<u8>::empty() + written_entries(fs) =~= written_entries(fs));
}

/// The keys of the entries of `s` (see `entry_key`) come in byte order.
pub open spec fn keys_sorted(s: Seq<(u32, Seq<u8>, Seq<u8>)>) -> bool {
    forall|i: int, j: int|
        0 <= i < j < s.len() ==> lex_le(entry_key(#[trigger] s[i]), entry_key(#[trigger] s[j]))
}

/// Where `insert_entry` puts `f`.
proof fn lemma_insert_entry_pos(f: (u32, Seq<u8>, Seq<u8>), s: Seq<(u32, Seq<u8>, Seq<u8>)>) -> (p: int)
    ensures
        0 <= p <= s.len(),
        insert_entry(f, s) == s.insert(p, f),
    decreases s.len(),
{
    if s.len() == 0 {
        assert(s.insert(0, f) =~= seq![f]);
        0
    } else if lex_le(entry_key(s[0]), entry_key(f)) {
        let q = lemma_insert_entry_pos(f, s.drop_first());
        assert(s.insert(q + 1, f) =~= seq![s[0]] + s.drop_first().insert(q, f));
        q + 1
    } else {
        assert(s.insert(0, f) =~= seq![f] + s);
        0
    }
}

/// Inserting an entry into entries in key order keeps them in key order.
proof fn lemma_insert_entry_sorted(f: (u32, Seq<u8>, Seq<u8>), s: Seq<(u32, Seq<u8>, Seq<u8>)>)
    requires
        keys_sorted(s),
    ensures
        keys_sorted(insert_entry(f, s)),
    decreases s.len(),
{
    if s.len() == 0 {
    } else if lex_le(entry_key(s[0]), entry_key(f)) {
        let rest = s.drop_first();
        assert forall|i: int, j: int| 0 <= i < j < rest.len() implies lex_le(
            entry_key(#[trigger] rest[i]),
            entry_key(#[trigger] rest[j]),
        ) by {
            assert(rest[i] == s[i + 1] && rest[j] == s[j + 1]);
        }
        lemma_insert_entry_sorted(f, rest);
        let p = lemma_insert_entry_pos(f, rest);
        let r = insert_entry(f, rest);
        assert forall|k: int| 0 <= k < r.len() implies lex_le(entry_key(s[0]), entry_key(#[trigger] r[k])) by {
            if k < p {
                assert(r[k] == s[k + 1]);
            } else if k > p {
                assert(r[k] == s[k]);
            }
        }
        let t = seq![s[0]] + r;
        assert forall|i: int, j: int| 0 <= i < j < t.len() implies lex_le(
            entry_key(#[trigger] t[i]),
            entry_key(#[trigger] t[j]),
        ) by {
            assert(t[j] == r[j - 1]);
            if i > 0 {
                assert(t[i] == r[i - 1]);
            }
        }
        assert(insert_entry(f, s) == t);
    } else {
        lemma_lex_total(entry_key(s[0]), entry_key(f));
        let t = seq![f] + s;
        assert forall|i: int, j: int| 0 <= i < j < t.len() implies lex_le(
            entry_key(#[trigger] t[i]),
            entry_key(#[trigger] t[j]),
        ) by {
            assert(t[j] == s[j - 1]);
            if i > 0 {
                assert(t[i] == s[i - 1]);
            } else if j > 1 {
                lemma_lex_trans(entry_key(f), entry_key(s[0]), entry_key(s[j - 1]));
            }
        }
        assert(insert_entry(f, s) == t);
    }
}

/// Sorting entries puts their keys in byte order and neither drops nor
/// repeats an entry.
pub proof fn lemma_sort_entries(fs: Seq<(u32, Seq<u8>, Seq<u8>)>)
    ensures
        keys_sorted(sort_entries(fs)),
        sort_entries(fs).to_multiset() == fs.to_multiset(),
    decreases fs.len(),
{
    broadcast use vstd::seq_lib::group_to_multiset_ensures;

    if fs.len() == 0 {
        assert(fs =~= Seq::<(u32, Seq<u8>, Seq<u8>)>::empty());
        assert(sort_entries(fs) =~= Seq::<(u32, Seq<u8>, Seq<u8>)>::empty());
    } else {
        let init = fs.drop_last();
        lemma_sort_entries(init);
        let s = sort_entries(init);
        lemma_insert_entry_sorted(fs.last(), s);
        let p = lemma_insert_entry_pos(fs.last(), s);
        assert(s.insert(p, fs.last()).to_multiset() == s.to_multiset().insert(fs.last()));
        assert(init.push(fs.last()) =~= fs);
        assert(init.push(fs.last()).to_multiset() == init.to_multiset().insert(fs.last()));
    }
}

/// An entry whose name is never tracked, put anywhere among a directory's
/// entries, leaves the entries of its tree (and so the tree and its name)
/// unchanged, and adds no bad entry.
pub proof fn lemma_ignored_entry_left_out(
    fs: Seq<(u32, Seq<u8>, Seq<u8>)>,
    i: int,
    f: (u32, Seq<u8>, Seq<u8>),
)
    requires
        0 <= i <= fs.len(),
        ignored_names().contains(f.2),
    ensures
        tracked_entries(fs.insert(i, f)) == tracked_entries(fs),
        tree_entries(fs.insert(i, f)) == tree_entries(fs),
        bad_entry(fs) is None ==> bad_entry(fs.insert(i, f)) is None,
    decreases fs.len(),
{
    let g = fs.insert(i, f);
    if i == fs.len() {
        assert(g.drop_last() =~= fs);
        assert(g.last() == f);
    } else {
        assert(g.drop_last() =~= fs.drop_last().insert(i, f));
        assert(g.last() == fs.last());
        lemma_ignored_entry_left_out(fs.drop_last(), i, f);
    }
}

/// Every tracked entry is one of the entries.
proof fn lemma_tracked_members(fs: Seq<(u32, Seq<u8>, Seq<u8>)>)
    ensures
        forall|k: int| 0 <= k < tracked_entries(fs).len() ==> fs.contains(#[trigger] tracked_entries(fs)[k]),
    decreases fs.len(),
{
    if fs.len() > 0 {
        let init = fs.drop_last();
        lemma_tracked_members(init);
        let t = tracked_entries(fs);
        assert forall|k: int| 0 <= k < t.len() implies fs.contains(#[trigger] t[k]) by {
            if k < tracked_entries(init).len() {
                let x = t[k];
                assert(x == tracked_entries(init)[k]);
                assert(init.contains(x));
                let w = choose|w: int| 0 <= w < init.len() && init[w] == x;
                assert(fs[w] == x);
            } else {
                assert(t[k] == fs[fs.len() - 1]);
            }
        }
    }
}

/// Where every entry's object name is hexadecimal, none is bad.
proof fn lemma_no_bad_entry(fs: Seq<(u32, Seq<u8>, Seq<u8>)>)
    requires
        forall|i: int| 0 <= i < fs.len() ==> (#[trigger] hex_bytes(fs[i].1)) is Some,
    ensures
        bad_entry(fs) is None,
    decreases fs.len(),
{
    if fs.len() > 0 {
        let init = fs.drop_last();
        assert forall|i: int| 0 <= i < init.len() implies (#[trigger] hex_bytes(init[i].1)) is Some by {
            assert(init[i] == fs[i]);
        }
        lemma_no_bad_entry(init);
        assert(hex_bytes(fs[fs.len() - 1].1) is Some);
    }
}

/// The tree written for a directory holds its tracked entries sorted by
/// key, and listing it gives each of them back, in that order and without
/// error.
pub proof fn lemma_directory_tree_reads_back(fs: Seq<(u32, Seq<u8>, Seq<u8>)>)
    requires
        forall|i: int| 0 <= i < fs.len() ==> entry_reads_back(#[trigger] fs[i]),
    ensures
        bad_entry(fs) is None,
        keys_sorted(tree_entries(fs)),
        tree_content(tree_entries(fs)) is Ok,
        parse_tree(tree_content(tree_entries(fs))->Ok_0, 0) == (
            tree_entries(fs).map_values(|f: (u32, Seq<u8>, Seq<u8>)| read_back_entry(f)),
            None::<LsError>,
        ),
{
    broadcast use vstd::seq_lib::group_to_multiset_ensures;

    assert forall|i: int| 0 <= i < fs.len() implies (#[trigger] hex_bytes(fs[i].1)) is Some by {
        assert(entry_reads_back(fs[i]));
        lemma_hex_bytes_text(fs[i].1);
    }
    lemma_no_bad_entry(fs);
    let t = tracked_entries(fs);
    let s = tree_entries(fs);
    lemma_tracked_members(fs);
    lemma_sort_entries(t);
    assert forall|k: int| 0 <= k < s.len() implies entry_reads_back(#[trigger] s[k]) by {
        let x = s[k];
        assert(s.contains(x));
        assert(s.to_multiset().count(x) > 0);
        assert(t.to_multiset().count(x) > 0);
        assert(t.contains(x));
        let w = choose|w: int| 0 <= w < t.len() && t[w] == x;
        assert(fs.contains(t[w]));
        let v = choose|v: int| 0 <= v < fs.len() && fs[v] == x;
        assert(entry_reads_back(fs[v]));
    }
    lemma_tree_roundtrip(s);
}

/// What `cat-file` shows of an object once it is read back from its bytes:
/// its content (or a tree listing, for a tree), its kind's name, or the length
/// of its content.
pub proof fn lemma_cat_after_write(kind: BlobKind, content: Seq<u8>)
    requires
        content.len() <= usize::MAX,
    ensures
        parse_object(object_bytes(kind, content)) == Ok::<_, ObjectError>(
            (kind, decimal(content.len()), content),
        ),
        cat_spec(CatOptions::PrettyPrint, kind, decimal(content.len()), content) == (if kind
            == BlobKind::Tree {
            Ok::<Result<Seq<u8>, ()>, CatError>(Err(()))
        } else {
            Ok(Ok(content))
        }),
        cat_spec(CatOptions::ShowType, kind, decimal(content.len()), content) == Ok::<
            Result<Seq<u8>, ()>,
            CatError,
        >(Ok(kind_name(kind))),
        cat_spec(CatOptions::ShowSize, kind, decimal(content.len()), content) == Ok::<
            Result<Seq<u8>, ()>,
            CatError,
        >(Ok(decimal(content.len()))),
{
    lemma_parse_object_bytes(kind, content);
    lemma_parse_decimal(content.len(), usize::MAX as nat);
    assert(content.take(content.len() as int) =~= content);
}

/// An object stored under the name `sha` is looked up by any abbreviation
/// of that name with four characters or more in the directory it was stored
/// in, and the name of its file begins with the prefix that the abbreviation
/// asks for.
pub proof fn lemma_abbreviation_finds_stored(sha: Seq<u8>, abbr: Seq<u8>)
    requires
        4 <= abbr.len() <= sha.len(),
        has_prefix(sha, abbr),
    ensures
        abbr.take(2) == sha.take(2),
        has_prefix(sha.skip(2), abbr.skip(2)),
{
    assert(abbr.take(2) =~= sha.take(2));
    assert(sha.skip(2).take(abbr.len() - 2) =~= abbr.skip(2));
}

/// A freshly laid out repository's `HEAD` passes the repository check, so
/// a second `init` of the same directory lays nothing out.
pub proof fn lemma_init_head_is_repo()
    ensures
        has_prefix(head_text(), head_prefix()),
{
    assert(head_text().take(head_prefix().len() as int) =~= head_prefix());
}

/// Trimming leaves no trailing `/.git`.
pub proof fn lemma_trim_git_suffix(s: Seq<u8>)
    ensures
        !has_git_suffix(trim_git_suffix(s)),
    decreases s.len(),
{
    if has_git_suffix(s) {
        lemma_trim_git_suffix(s.take(s.len() - 5));
    }
}

/// `ls-tree -d` lists a subtree with the very line that `ls-tree` without an
/// option gives it, and lists nothing for any other entry; `ls-tree -r`
/// lists every entry that is not a subtree as `ls-tree` without an option
/// does; `--name-only` gives the name alone, which is how the full line ends.
pub proof fn lemma_listing_options_agree(e: (u32, Seq<u8>, Seq<u8>, BlobKind), a: LsAction)
    ensures
        e.3 == BlobKind::Tree ==> (is_action_for(Some(TreeOptions::OnlyTrees), e, a) <==> is_action_for(
            None,
            e,
            a,
        )),
        e.3 != BlobKind::Tree ==> (is_action_for(Some(TreeOptions::OnlyTrees), e, a) <==> a is Skip),
        e.3 != BlobKind::Tree ==> (is_action_for(Some(TreeOptions::Recurse), e, a) <==> is_action_for(
            None,
            e,
            a,
        )),
        is_action_for(None, e, a) ==> (a matches LsAction::Print(l) && l@.len() > e.1.len() + 4 && l@.skip(
            l@.len() - e.1.len() - 4,
        ) == seq![32u8, 32u8, 32u8, 32u8] + e.1),
        is_action_for(Some(TreeOptions::NamesOnly), e, a) ==> (a matches LsAction::Print(l) && l@ == e.1),
{
    let l = entry_line(e);
    let k = l.len() - e.1.len() - 4;
    assert(l.skip(k) =~= seq![32u8, 32u8, 32u8, 32u8] + e.1);
}

/// What `ls-tree` prints for an entry that a tree was written with: the
/// octal digits of the entry's mode, the kind its mode names, its object
/// name, four spaces and its file name.
pub proof fn lemma_written_entry_line(f: (u32, Seq<u8>, Seq<u8>))
    requires
        entry_reads_back(f),
    ensures
        entry_line(read_back_entry(f)) == octal(f.0 as nat) + seq![32u8] + kind_name(
            mode_kind(f.0).unwrap(),
        ) + seq![32u8] + f.1 + seq![32u8, 32u8, 32u8, 32u8] + f.2,
{
    lemma_written_kind(f.0);
    lemma_listed_mode_digits(f.0 as nat);
}

/// The tree of a directory leaves out exactly the entries whose names are
/// ignored: an entry with any other name is kept, after the ones before it,
/// and the tracked entries are the entries filtered by name.
pub proof fn lemma_tracked_entries_keep_others(fs: Seq<(u32, Seq<u8>, Seq<u8>)>, f: (u32, Seq<u8>, Seq<u8>))
    ensures
        !ignored_names().contains(f.2) ==> tracked_entries(fs.push(f)) == tracked_entries(fs).push(f),
        ignored_names().contains(f.2) ==> tracked_entries(fs.push(f)) == tracked_entries(fs),
{
    assert(fs.push(f).drop_last() =~= fs);
}

/// The tracked entries are the entries whose names are not ignored, in
/// their order.
pub proof fn lemma_tracked_entries_filter(fs: Seq<(u32, Seq<u8>, Seq<u8>)>)
    ensures
        tracked_entries(fs) == fs.filter(|f: (u32, Seq<u8>, Seq<u8>)| !ignored_names().contains(f.2)),
    decreases fs.len(),
{
    reveal(Seq::filter);
    if fs.len() > 0 {
        lemma_tracked_entries_filter(fs.drop_last());
    }
}

/// Writing a tree fails exactly where some tracked entry's object name is
/// not hexadecimal text, and then at the first such entry.
pub proof fn lemma_bad_entry_first(fs: Seq<(u32, Seq<u8>, Seq<u8>)>)
    ensures
        bad_entry(fs) is None <==> forall|i: int|
            0 <= i < fs.len() && !ignored_names().contains(#[trigger] fs[i].2) ==> hex_bytes(fs[i].1) is Some,
        bad_entry(fs) matches Some(i) ==> i < fs.len() && !ignored_names().contains(fs[i as int].2) && hex_bytes(
            fs[i as int].1,
        ) is None && forall|j: int|
            0 <= j < i && !ignored_names().contains(#[trigger] fs[j].2) ==> hex_bytes(fs[j].1) is Some,
    decreases fs.len(),
{
    if fs.len() > 0 {
        let init = fs.drop_last();
        lemma_bad_entry_first(init);
        let last = fs.len() - 1;
        match bad_entry(init) {
            Some(i) => {
                assert(init[i as int] == fs[i as int]);
                assert forall|j: int|
                    0 <= j < i && !ignored_names().contains(#[trigger] fs[j].2) implies hex_bytes(
                    fs[j].1,
                ) is Some by {
                    assert(init[j] == fs[j]);
                }
                assert(!(forall|k: int|
                    0 <= k < fs.len() && !ignored_names().contains(#[trigger] fs[k].2) ==> hex_bytes(
                        fs[k].1,
                    ) is Some)) by {
                    assert(0 <= i < fs.len() && !ignored_names().contains(fs[i as int].2));
                }
            },
            None => {
                assert forall|j: int|
                    0 <= j < last && !ignored_names().contains(#[trigger] fs[j].2) implies hex_bytes(
                    fs[j].1,
                ) is Some by {
                    assert(init[j] == fs[j]);
                    assert(!ignored_names().contains(init[j].2));
                }
                if bad_entry(fs) is None {
                    assert forall|j: int|
                        0 <= j < fs.len() && !ignored_names().contains(#[trigger] fs[j].2) implies hex_bytes(
                        fs[j].1,
                    ) is Some by {
                        if j < last {
                            assert(init[j] == fs[j]);
                            assert(!ignored_names().contains(init[j].2));
                        }
                    }
                } else {
                    assert(bad_entry(fs) == Some(last as nat));
                }
            },
        }
    }
}

/// An object's name is the hexadecimal SHA-1 of exactly the bytes that are
/// stored for it, whose header names the object's own kind and length.
pub proof fn lemma_object_name_is_stored_bytes_digest(kind: BlobKind, content: Seq<u8>)
    requires
        content.len() <= usize::MAX,
    ensures
        object_name(kind, content) == hex_text(sha1_of(object_bytes(kind, content))),
        parse_object(object_bytes(kind, content)) == Ok::<_, ObjectError>(
            (kind, decimal(content.len()), content),
        ),
        object_bytes(kind, content).take(kind_name(kind).len() as int) == kind_name(kind),
{
    lemma_parse_object_bytes(kind, content);
    assert(object_bytes(kind, content).take(kind_name(kind).len() as int) =~= kind_name(kind));
}

/// The entry count of the index is the big-endian reading of its four bytes:
/// the bytes of any 32-bit number, most significant first, read back as it.
pub proof fn lemma_be_u32_reads_big_endian(n: u32)
    ensures
        be_u32(
            (n / 16777216) as u8,
            ((n / 65536) % 256) as u8,
            ((n / 256) % 256) as u8,
            (n % 256) as u8,
        ) == n,
{
    let b0 = n / 16777216;
    let b1 = (n / 65536) % 256;
    let b2 = (n / 256) % 256;
    let b3 = n % 256;
    assert(b0 < 256 && b0 * 16777216 + b1 * 65536 + b2 * 256 + b3 == n) by (nonlinear_arith)
        requires
            b0 == n / 16777216,
            b1 == (n / 65536) % 256,
            b2 == (n / 256) % 256,
            b3 == n % 256,
            n < 4294967296,
    ;
}

/// `init` with `.` or no name lays out the current directory; with any
/// other name it lays out the directory of that name: the path ends with the
/// name, and for a name that is not absolute it lies inside `cwd`.
pub proof fn lemma_init_dir_names_target(cwd: Seq<u8>, n: Seq<u8>)
    ensures
        init_dir(cwd, None) == cwd,
        init_dir(cwd, Some(seq![46u8])) == cwd,
        n != seq![46u8] ==> init_dir(cwd, Some(n)).len() >= n.len() && init_dir(cwd, Some(n)).skip(
            init_dir(cwd, Some(n)).len() - n.len(),
        ) == n,
        n != seq![46u8] && !(n.len() > 0 && n[0] == 47u8) ==> has_prefix(init_dir(cwd, Some(n)), cwd)
            && init_dir(cwd, Some(n)).len() >= cwd.len() + n.len(),
{
    let d = init_dir(cwd, Some(n));
    if n != seq![46u8] {
        if n.len() > 0 && n[0] == 47u8 {
            assert(d.skip(0) =~= n);
        } else if cwd.len() > 0 && cwd.last() == 47u8 {
            assert(d.skip(d.len() - n.len()) =~= n);
            assert(d.take(cwd.len() as int) =~= cwd);
        } else {
            assert(d.skip(d.len() - n.len()) =~= n);
            assert(d.take(cwd.len() as int) =~= cwd);
        }
    }
}

} // verus!

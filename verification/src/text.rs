//! Decimal and octal numerals over bytes, as git headers and tree entries
//! write them.

use vstd::prelude::*;

verus! {

/// An ASCII decimal digit.
pub open spec fn is_digit(b: u8) -> bool {
    48 <= b <= 57
}

/// Every byte of `s` is an ASCII decimal digit.
pub open spec fn all_digits(s: Seq<u8>) -> bool {
    forall|i: int| 0 <= i < s.len() ==> #[trigger] is_digit(s[i])
}

/// The number that a string of digits in the given base denotes.
pub open spec fn digits_value(s: Seq<u8>, base: nat) -> nat
    decreases s.len(),
{
    if s.len() == 0 {
        0
    } else {
        digits_value(s.drop_last(), base) * base + (s.last() - 48) as nat
    }
}

/// What `str::parse` gives for an unsigned integer type whose largest value
/// is `max`: an optional `+`, then one or more decimal digits, whose value
/// must not exceed `max`.
pub open spec fn parse_unsigned(s: Seq<u8>, max: nat) -> Option<nat> {
    let d = if s.len() > 0 && s[0] == 43u8 { s.drop_first() } else { s };
    if d.len() > 0 && all_digits(d) && digits_value(d, 10) <= max {
        Some(digits_value(d, 10))
    } else {
        None
    }
}

/// The numeral of `n` in the given base (2 to 10), without leading zeros.
pub open spec fn numeral(n: nat, base: nat) -> Seq<u8>
    recommends
        2 <= base <= 10,
    decreases n,
{
    if n < base || base < 2 {
        seq![(48 + n) as u8]
    } else {
        proof {
            assert(n / base < n) by (nonlinear_arith)
                requires
                    n >= base,
                    base >= 2,
            ;
        }
        numeral(n / base, base).push((48 + n % base) as u8)
    }
}

/// The decimal numeral of `n`.
pub open spec fn decimal(n: nat) -> Seq<u8> {
    numeral(n, 10)
}

/// The octal numeral of `n`, as `{:o}` writes it.
pub open spec fn octal(n: nat) -> Seq<u8> {
    numeral(n, 8)
}

/// The decimal numeral of a signed integer, with a leading `-` when it is
/// negative.
pub open spec fn signed_decimal(x: int) -> Seq<u8> {
    if x < 0 {
        seq![45u8] + decimal((-x) as nat)
    } else {
        decimal(x as nat)
    }
}

/// Appends the numeral of `n` in `base` to `out`.
fn push_numeral(n: u64, base: u64, out: &mut Vec<u8>)
    requires
        2 <= base <= 10,
    ensures
        final(out)@ == old(out)@ + numeral(n as nat, base as nat),
    decreases n,
{
    if n >= base {
        assert(n / base < n) by (nonlinear_arith)
            requires
                n >= base,
                base >= 2,
        ;
        push_numeral(n / base, base, out);
    } else {
        assert(n % base == n) by (nonlinear_arith)
            requires
                n < base,
                base >= 2,
        ;
    }
    assert(n % base < base) by (nonlinear_arith)
        requires
            base >= 2,
    ;
    let d: u8 = (n % base) as u8;
    out.push(48u8 + d);
    assert(out@ =~= old(out)@ + numeral(n as nat, base as nat));
}

/// The decimal numeral of `n`.
pub fn decimal_bytes(n: u64) -> (res: Vec<u8>)
    ensures
        res@ == decimal(n as nat),
{
    let mut out: Vec<u8> = Vec::new();
    push_numeral(n, 10, &mut out);
    assert(out@ =~= decimal(n as nat));
    out
}

/// The octal numeral of `n`.
pub fn octal_bytes(n: u64) -> (res: Vec<u8>)
    ensures
        res@ == octal(n as nat),
{
    let mut out: Vec<u8> = Vec::new();
    push_numeral(n, 8, &mut out);
    assert(out@ =~= octal(n as nat));
    out
}

/// Every byte of `s` is a digit below `base`.
pub open spec fn all_digits_below(s: Seq<u8>, base: nat) -> bool {
    forall|i: int| 0 <= i < s.len() ==> 48 <= #[trigger] s[i] < 48 + base
}

/// A numeral is nonempty, is made of digits of its base, and denotes the
/// number it was made from.
pub proof fn lemma_numeral_value(n: nat, base: nat)
    requires
        2 <= base <= 10,
    ensures
        numeral(n, base).len() > 0,
        all_digits_below(numeral(n, base), base),
        digits_value(numeral(n, base), base) == n,
    decreases n,
{
    let s = numeral(n, base);
    if n < base {
        assert(s.drop_last() =~= Seq::<u8>::empty());
        assert(digits_value(s.drop_last(), base) == 0);
        assert(0 * base == 0) by (nonlinear_arith);
        assert(s.last() == (48 + n) as u8);
        assert((s.last() - 48) as nat == n);
        assert(digits_value(s, base) == digits_value(s.drop_last(), base) * base + (s.last()
            - 48) as nat);
    } else {
        assert(n / base < n) by (nonlinear_arith)
            requires
                n >= base,
                base >= 2,
        ;
        lemma_numeral_value(n / base, base);
        assert(n % base < base && (n / base) * base + n % base == n) by (nonlinear_arith)
            requires
                base >= 2,
        ;
        assert(s.drop_last() =~= numeral(n / base, base));
        assert(s.last() == (48 + n % base) as u8);
        assert((s.last() - 48) as nat == n % base);
        assert(digits_value(s, base) == digits_value(s.drop_last(), base) * base + (s.last()
            - 48) as nat);
        assert(all_digits_below(s, base)) by {
            assert forall|i: int| 0 <= i < s.len() implies 48 <= #[trigger] s[i] < 48 + base by {
                if i < s.len() - 1 {
                    assert(s[i] == s.drop_last()[i]);
                }
            }
        }
    }
}

/// Extending a string of digits never lowers its value.
pub proof fn lemma_digits_value_prefix(s: Seq<u8>, k: int)
    requires
        0 <= k <= s.len(),
        all_digits(s),
    ensures
        digits_value(s.take(k), 10) <= digits_value(s, 10),
    decreases s.len(),
{
    if k < s.len() {
        lemma_digits_value_prefix(s.drop_last(), k);
        assert(s.drop_last().take(k) =~= s.take(k));
    } else {
        assert(s.take(k) =~= s);
    }
}

/// `str::parse` gives back the number whose decimal numeral it reads.
pub proof fn lemma_parse_decimal(n: nat, max: nat)
    requires
        n <= max,
    ensures
        parse_unsigned(decimal(n), max) == Some(n),
{
    lemma_numeral_value(n, 10);
    let s = decimal(n);
    assert(is_digit(s[0]));
    assert(all_digits(s)) by {
        assert forall|i: int| 0 <= i < s.len() implies #[trigger] is_digit(s[i]) by {
            assert(48 <= s[i] < 58);
        }
    }
}

/// Reads a decimal number the way `str::parse` reads an unsigned integer
/// type whose largest value is `max`.
pub fn parse_unsigned_bytes(s: &[u8], max: u64) -> (res: Option<u64>)
    ensures
        res == (match parse_unsigned(s@, max as nat) {
            Some(v) => Some(v as u64),
            None => None::<u64>,
        }),
{
    let len = s.len();
    let mut start: usize = 0;
    if len > 0 && s[0] == 43u8 {
        start = 1;
    }
    let ghost d = if s@.len() > 0 && s@[0] == 43u8 { s@.drop_first() } else { s@ };
    assert(d =~= s@.subrange(start as int, len as int));
    if start == len {
        return None;
    }
    let mut i: usize = start;
    let mut v: u64 = 0;
    assert(s@.subrange(start as int, start as int) =~= Seq::<u8>::empty());
    while i < len
        invariant
            start < len,
            start <= i <= len,
            len == s@.len(),
            d == s@.subrange(start as int, len as int),
            d == (if s@.len() > 0 && s@[0] == 43u8 { s@.drop_first() } else { s@ }),
            all_digits(s@.subrange(start as int, i as int)),
            v == digits_value(s@.subrange(start as int, i as int), 10),
            v <= max,
        decreases len - i,
    {
        let b = s[i];
        let ghost pre = s@.subrange(start as int, i as int);
        let ghost next = s@.subrange(start as int, i + 1);
        assert(next.drop_last() =~= pre);
        assert(next =~= d.take(i + 1 - start));
        if b < 48u8 || b > 57u8 {
            assert(!is_digit(d[i - start]));
            return None;
        }
        let dig: u64 = (b - 48u8) as u64;
        assert(digits_value(next, 10) == v * 10 + dig);
        if dig > max || v > (max - dig) / 10 {
            assert(v * 10 + dig > max) by (nonlinear_arith)
                requires
                    dig > max || v > (max - dig) / 10,
            ;
            proof {
                if all_digits(d) {
                    lemma_digits_value_prefix(d, i + 1 - start);
                }
            }
            return None;
        }
        assert(v * 10 + dig <= max) by (nonlinear_arith)
            requires
                dig <= max,
                v <= (max - dig) / 10,
        ;
        v = v * 10 + dig;
        i = i + 1;
        assert(all_digits(next)) by {
            assert forall|j: int| 0 <= j < next.len() implies #[trigger] is_digit(next[j]) by {
                if j < next.len() - 1 {
                    assert(next[j] == pre[j]);
                }
            }
        }
    }
    assert(s@.subrange(start as int, len as int) =~= d);
    Some(v)
}

/// Byte-wise equality of two byte strings.
pub fn bytes_eq(a: &[u8], b: &[u8]) -> (res: bool)
    ensures
        res == (a@ == b@),
{
    if a.len() != b.len() {
        return false;
    }
    let mut i: usize = 0;
    while i < a.len()
        invariant
            a@.len() == b@.len(),
            i <= a@.len(),
            forall|j: int| 0 <= j < i ==> a@[j] == b@[j],
        decreases a.len() - i,
    {
        if a[i] != b[i] {
            return false;
        }
        i = i + 1;
    }
    assert(a@ =~= b@);
    true
}

/// `b` is a prefix of `a`.
pub open spec fn has_prefix(a: Seq<u8>, b: Seq<u8>) -> bool {
    b.len() <= a.len() && a.take(b.len() as int) == b
}

/// Whether `a` begins with `b`.
pub fn starts_with(a: &[u8], b: &[u8]) -> (res: bool)
    ensures
        res == has_prefix(a@, b@),
{
    if b.len() > a.len() {
        return false;
    }
    let mut i: usize = 0;
    while i < b.len()
        invariant
            b@.len() <= a@.len(),
            i <= b@.len(),
            forall|j: int| 0 <= j < i ==> a@[j] == b@[j],
        decreases b.len() - i,
    {
        if a[i] != b[i] {
            assert(a@.take(b@.len() as int)[i as int] != b@[i as int]);
            return false;
        }
        i = i + 1;
    }
    assert(a@.take(b@.len() as int) =~= b@);
    true
}

/// Appends the bytes of `src` to `out`.
pub fn push_all(out: &mut Vec<u8>, src: &[u8])
    ensures
        final(out)@ == old(out)@ + src@,
{
    let mut i: usize = 0;
    while i < src.len()
        invariant
            i <= src@.len(),
            out@ == old(out)@ + src@.take(i as int),
        decreases src.len() - i,
    {
        out.push(src[i]);
        i = i + 1;
        assert(out@ =~= old(out)@ + src@.take(i as int));
    }
    assert(src@.take(src@.len() as int) =~= src@);
}

/// A copy of `src[from..to]`.
pub fn copy_range(src: &[u8], from: usize, to: usize) -> (res: Vec<u8>)
    requires
        from <= to <= src@.len(),
    ensures
        res@ == src@.subrange(from as int, to as int),
{
    let mut out: Vec<u8> = Vec::new();
    let mut i: usize = from;
    while i < to
        invariant
            from <= i <= to,
            to <= src@.len(),
            out@ == src@.subrange(from as int, i as int),
        decreases to - i,
    {
        out.push(src[i]);
        i = i + 1;
        assert(out@ =~= src@.subrange(from as int, i as int));
    }
    out
}

/// The index of the first `b` in `s`, if `b` occurs there.
pub open spec fn first_index(s: Seq<u8>, b: u8) -> Option<int> {
    if exists|i: int| 0 <= i < s.len() && s[i] == b {
        Some(
            choose|i: int|
                0 <= i < s.len() && s[i] == b && forall|j: int| 0 <= j < i ==> s[j] != b,
        )
    } else {
        None
    }
}

/// The first occurrence of a byte is the one with none before it.
pub proof fn lemma_first_index(s: Seq<u8>, b: u8, i: int)
    requires
        0 <= i < s.len(),
        s[i] == b,
        forall|j: int| 0 <= j < i ==> s[j] != b,
    ensures
        first_index(s, b) == Some(i),
{
    let c = choose|c: int| 0 <= c < s.len() && s[c] == b && forall|j: int| 0 <= j < c ==> s[j] != b;
    assert(0 <= c < s.len() && s[c] == b && forall|j: int| 0 <= j < c ==> s[j] != b);
    if c < i {
        assert(s[c] != b);
    }
    if c > i {
        assert(s[i] != b);
    }
}

/// Searches `s[from..]` for the byte `b`, giving the first position where it
/// stands.
pub fn find_byte(s: &[u8], from: usize, b: u8) -> (res: Option<usize>)
    requires
        from <= s@.len(),
    ensures
        match res {
            Some(i) => from <= i < s@.len() && s@[i as int] == b && forall|j: int|
                from <= j < i ==> s@[j] != b,
            None => forall|j: int| from <= j < s@.len() ==> s@[j] != b,
        },
{
    let mut i: usize = from;
    while i < s.len()
        invariant
            from <= i <= s@.len(),
            forall|j: int| from <= j < i ==> s@[j] != b,
        decreases s.len() - i,
    {
        if s[i] == b {
            return Some(i);
        }
        i = i + 1;
    }
    None
}

/// How many bytes `read_until(0)` takes from `b` at `pos`: up to and
/// including the first NUL, or to the end of `b`.
pub open spec fn until_nul_len(b: Seq<u8>, pos: int) -> int {
    match first_index(b.skip(pos), 0u8) {
        Some(k) => k + 1,
        None => b.len() - pos,
    }
}

/// Where `read_until(0)` from `pos` stops (see `until_nul_len`).
pub fn until_nul_end(b: &[u8], pos: usize) -> (end: usize)
    requires
        pos < b@.len(),
    ensures
        end == pos + until_nul_len(b@, pos as int),
        pos < end <= b@.len(),
{
    let ghost rest = b@.skip(pos as int);
    let len = b.len();
    match find_byte(b, pos, 0u8) {
        Some(k) => {
            assert(k < len);
            proof {
                assert forall|j: int| 0 <= j < k - pos implies #[trigger] rest[j] != 0u8 by {
                    assert(rest[j] == b@[pos + j]);
                }
                lemma_first_index(rest, 0u8, k - pos);
            }
            k + 1
        },
        None => {
            assert(!exists|i: int| 0 <= i < rest.len() && rest[i] == 0u8);
            b.len()
        },
    }
}

/// `s` without the NUL that ends it, where it ends with one.
pub open spec fn without_nul(s: Seq<u8>) -> Seq<u8> {
    if s.len() > 0 && s.last() == 0u8 {
        s.drop_last()
    } else {
        s
    }
}

/// Byte order of strings: `a` comes no later than `b` when at the first
/// byte where they differ `a`'s is smaller, or when `a` is a prefix of `b`.
pub open spec fn lex_le(a: Seq<u8>, b: Seq<u8>) -> bool
    decreases a.len(),
{
    if a.len() == 0 {
        true
    } else if b.len() == 0 {
        false
    } else if a[0] < b[0] {
        true
    } else if a[0] > b[0] {
        false
    } else {
        lex_le(a.drop_first(), b.drop_first())
    }
}

/// Any two strings are ordered one way or the other.
pub proof fn lemma_lex_total(a: Seq<u8>, b: Seq<u8>)
    ensures
        lex_le(a, b) || lex_le(b, a),
    decreases a.len(),
{
    if a.len() > 0 && b.len() > 0 && a[0] == b[0] {
        lemma_lex_total(a.drop_first(), b.drop_first());
    }
}

/// The byte order is transitive.
pub proof fn lemma_lex_trans(a: Seq<u8>, b: Seq<u8>, c: Seq<u8>)
    requires
        lex_le(a, b),
        lex_le(b, c),
    ensures
        lex_le(a, c),
    decreases a.len(),
{
    if a.len() > 0 && b.len() > 0 && c.len() > 0 && a[0] == b[0] && b[0] == c[0] {
        lemma_lex_trans(a.drop_first(), b.drop_first(), c.drop_first());
    }
}

/// Whether `a` comes no later than `b` in byte order (see `lex_le`).
pub fn lex_le_bytes(a: &[u8], b: &[u8]) -> (res: bool)
    ensures
        res == lex_le(a@, b@),
{
    let mut i: usize = 0;
    assert(a@.skip(0) =~= a@);
    assert(b@.skip(0) =~= b@);
    while i < a.len() && i < b.len()
        invariant
            i <= a@.len(),
            i <= b@.len(),
            lex_le(a@, b@) == lex_le(a@.skip(i as int), b@.skip(i as int)),
        decreases a.len() - i,
    {
        assert(a@.skip(i as int)[0] == a@[i as int]);
        assert(b@.skip(i as int)[0] == b@[i as int]);
        if a[i] < b[i] {
            return true;
        }
        if a[i] > b[i] {
            return false;
        }
        assert(a@.skip(i as int).drop_first() =~= a@.skip(i + 1));
        assert(b@.skip(i as int).drop_first() =~= b@.skip(i + 1));
        i = i + 1;
    }
    if i == a.len() {
        assert(a@.skip(i as int).len() == 0);
        true
    } else {
        assert(b@.skip(i as int).len() == 0);
        assert(a@.skip(i as int).len() > 0);
        false
    }
}

} // verus!

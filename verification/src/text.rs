//! Byte-level text handling shared by the assembler and the VM
//! translator: line splitting, comment stripping, trimming, decimal
//! parsing and decimal printing, each against an exact specification.

use vstd::prelude::*;

verus! {

/// ASCII whitespace: space and the five control characters tab through
/// carriage return.
pub open spec fn is_space(b: u8) -> bool {
    b == 32 || (9 <= b && b <= 13)
}

/// An ASCII decimal digit.
pub open spec fn is_digit(b: u8) -> bool {
    48 <= b && b <= 57
}

/// The index of the first occurrence of `b` in `s`, or `s.len()` when
/// `b` does not occur.
pub open spec fn byte_index(s: Seq<u8>, b: u8) -> int
    decreases s.len(),
{
    if s.len() == 0 {
        0
    } else if s[0] == b {
        0
    } else {
        1 + byte_index(s.drop_first(), b)
    }
}

/// What `byte_index` promises: it points at the first occurrence.
pub proof fn lemma_byte_index(s: Seq<u8>, b: u8)
    ensures
        0 <= byte_index(s, b) <= s.len(),
        byte_index(s, b) < s.len() ==> s[byte_index(s, b)] == b,
        forall|i: int| 0 <= i < byte_index(s, b) ==> s[i] != b,
    decreases s.len(),
{
    if s.len() > 0 && s[0] != b {
        lemma_byte_index(s.drop_first(), b);
        let t = s.drop_first();
        let j = byte_index(t, b);
        assert(forall|i: int| 0 <= i < j ==> t[i] != b);
        assert(forall|i: int| 1 <= i < j + 1 ==> s[i] == t[i - 1]);
    }
}

/// The index where a `//` comment starts, or `s.len()` when there is
/// no comment.
pub open spec fn comment_start(s: Seq<u8>) -> int
    decreases s.len(),
{
    if s.len() < 2 {
        s.len() as int
    } else if s[0] == 47 && s[1] == 47 {
        0
    } else {
        1 + comment_start(s.drop_first())
    }
}

pub proof fn lemma_comment_start(s: Seq<u8>)
    ensures
        0 <= comment_start(s) <= s.len(),
        comment_start(s) < s.len() ==> comment_start(s) + 1 < s.len() && s[comment_start(s)] == 47
            && s[comment_start(s) + 1] == 47,
        forall|i: int|
            0 <= i < comment_start(s) && i + 1 < s.len() ==> !(#[trigger] s[i] == 47 && s[i + 1]
                == 47),
    decreases s.len(),
{
    if s.len() >= 2 && !(s[0] == 47 && s[1] == 47) {
        lemma_comment_start(s.drop_first());
        let t = s.drop_first();
        let j = comment_start(t);
        assert(forall|i: int| 1 <= i < j + 1 && i < s.len() ==> s[i] == t[i - 1]);
        assert(forall|i: int| 1 <= i < j + 1 && i + 1 < s.len() ==> s[i + 1] == t[i]);
    }
}

/// Everything before the first `//`.
pub open spec fn strip_comment(s: Seq<u8>) -> Seq<u8> {
    s.take(comment_start(s))
}

/// `s` without leading ASCII whitespace.
pub open spec fn trim_start(s: Seq<u8>) -> Seq<u8>
    decreases s.len(),
{
    if s.len() > 0 && is_space(s[0]) {
        trim_start(s.drop_first())
    } else {
        s
    }
}

/// `s` without trailing ASCII whitespace.
pub open spec fn trim_end(s: Seq<u8>) -> Seq<u8>
    decreases s.len(),
{
    if s.len() > 0 && is_space(s.last()) {
        trim_end(s.drop_last())
    } else {
        s
    }
}

/// `s` without leading or trailing ASCII whitespace.
pub open spec fn trim(s: Seq<u8>) -> Seq<u8> {
    trim_end(trim_start(s))
}

/// The lines of `s`, split at every newline byte.
pub open spec fn split_lines(s: Seq<u8>) -> Seq<Seq<u8>>
    decreases s.len(),
    via split_lines_decreases
{
    let j = byte_index(s, 10);
    if j == s.len() {
        seq![s]
    } else {
        seq![s.take(j)] + split_lines(s.skip(j + 1))
    }
}

#[via_fn]
proof fn split_lines_decreases(s: Seq<u8>) {
    lemma_byte_index(s, 10);
}

/// Splits a byte string into its lines.
pub fn lines_of(s: &[u8]) -> (r: Vec<Vec<u8>>)
    ensures
        r.deep_view() == split_lines(s@),
{
    let mut r: Vec<Vec<u8>> = Vec::new();
    let mut start: usize = 0;
    proof {
        assert(r.deep_view() =~~= Seq::<Seq<u8>>::empty());
        assert(s@.skip(0) =~= s@);
        assert(split_lines(s@) =~= r.deep_view() + split_lines(s@.skip(0)));
    }
    loop
        invariant
            0 <= start <= s@.len(),
            split_lines(s@) == r.deep_view() + split_lines(s@.skip(start as int)),
        decreases s@.len() - start,
    {
        let ghost rest = s@.skip(start as int);
        let mut i = start;
        while i < s.len() && s[i] != 10
            invariant
                start <= i <= s@.len(),
                forall|k: int| start <= k < i ==> s@[k] != 10,
            decreases s@.len() - i,
        {
            i = i + 1;
        }
        proof {
            lemma_byte_index(rest, 10);
            assert forall|k: int| 0 <= k < i - start implies rest[k] != 10 by {
                assert(rest[k] == s@[start + k]);
            }
            if byte_index(rest, 10) < i - start {
                assert(rest[byte_index(rest, 10)] == 10);
                assert(false);
            }
            if i < s@.len() {
                assert(rest[i - start] == s@[i as int]);
                if byte_index(rest, 10) > i - start {
                    assert(rest[i - start] != 10);
                    assert(false);
                }
            }
            assert(byte_index(rest, 10) == i - start);
        }
        let mut line: Vec<u8> = Vec::new();
        let mut k = start;
        while k < i
            invariant
                start <= k <= i <= s@.len(),
                line@ == s@.subrange(start as int, k as int),
            decreases i - k,
        {
            line.push(s[k]);
            k = k + 1;
        }
        proof {
            assert(line@ =~= rest.take(i - start));
        }
        let ghost rdv = r.deep_view();
        let ghost linev = line@;
        r.push(line);
        proof {
            assert(r.deep_view() =~~= rdv + seq![linev]);
        }
        if i == s.len() {
            proof {
                assert(rest.take(i - start) =~= rest);
                assert(split_lines(rest) =~= seq![rest]);
                assert(split_lines(s@) =~= r.deep_view());
            }
            return r;
        }
        proof {
            assert(split_lines(rest) == seq![rest.take(i - start)] + split_lines(
                rest.skip(i - start + 1),
            ));
            assert(rest.skip(i - start + 1) =~= s@.skip(i + 1));
            assert(split_lines(s@) =~= r.deep_view() + split_lines(s@.skip(i + 1)));
        }
        start = i + 1;
    }
}

/// Everything before the first `//`, computed on bytes.
pub fn strip_comment_of(line: &[u8]) -> (r: Vec<u8>)
    ensures
        r@ == strip_comment(line@),
{
    let n = line.len();
    let mut i: usize = 0;
    while i < n && !(line[i] == 47 && i + 1 < n && line[i + 1] == 47)
        invariant
            0 <= i <= n,
            n == line@.len(),
            forall|k: int|
                0 <= k < i && k + 1 < n ==> !(#[trigger] line@[k] == 47 && line@[k + 1] == 47),
        decreases n - i,
    {
        i = i + 1;
    }
    let cut = i;
    proof {
        lemma_comment_start(line@);
        if comment_start(line@) < cut {
            assert(!(line@[comment_start(line@)] == 47 && line@[comment_start(line@) + 1] == 47));
            assert(false);
        }
        if comment_start(line@) > cut {
            assert(i < n);
            assert(false);
        }
    }
    let mut r: Vec<u8> = Vec::new();
    let mut k: usize = 0;
    while k < cut
        invariant
            0 <= k <= cut <= line@.len(),
            r@ == line@.subrange(0, k as int),
        decreases cut - k,
    {
        r.push(line[k]);
        k = k + 1;
    }
    proof {
        assert(r@ =~= line@.take(comment_start(line@)));
    }
    r
}

/// Drops leading and trailing ASCII whitespace.
pub fn trim_of(line: &[u8]) -> (r: Vec<u8>)
    ensures
        r@ == trim(line@),
{
    let mut i: usize = 0;
    proof {
        assert(line@.skip(0) =~= line@);
    }
    while i < line.len() && (line[i] == 32 || (9 <= line[i] && line[i] <= 13))
        invariant
            0 <= i <= line@.len(),
            trim_start(line@) == trim_start(line@.skip(i as int)),
        decreases line@.len() - i,
    {
        proof {
            let rest = line@.skip(i as int);
            assert(rest[0] == line@[i as int]);
            assert(rest.drop_first() =~= line@.skip(i + 1));
        }
        i = i + 1;
    }
    proof {
        let rest = line@.skip(i as int);
        if rest.len() > 0 {
            assert(rest[0] == line@[i as int]);
        }
        assert(trim_start(line@) == rest);
    }
    let mut j: usize = line.len();
    proof {
        assert(line@.skip(i as int) =~= line@.subrange(i as int, line@.len() as int));
    }
    while j > i && (line[j - 1] == 32 || (9 <= line[j - 1] && line[j - 1] <= 13))
        invariant
            i <= j <= line@.len(),
            trim_end(line@.skip(i as int)) == trim_end(line@.subrange(i as int, j as int)),
        decreases j,
    {
        proof {
            let part = line@.subrange(i as int, j as int);
            assert(part.last() == line@[j - 1]);
            assert(part.drop_last() =~= line@.subrange(i as int, j - 1));
        }
        j = j - 1;
    }
    proof {
        let part = line@.subrange(i as int, j as int);
        if part.len() > 0 {
            assert(part.last() == line@[j - 1]);
        }
        assert(trim_end(line@.skip(i as int)) == part);
    }
    let mut r: Vec<u8> = Vec::new();
    let mut k = i;
    while k < j
        invariant
            i <= k <= j <= line@.len(),
            r@ == line@.subrange(i as int, k as int),
        decreases j - k,
    {
        r.push(line[k]);
        k = k + 1;
    }
    proof {
        assert(r@ =~= line@.subrange(i as int, j as int));
    }
    r
}

/// The numeric value of a digit string, most significant digit first.
pub open spec fn digits_val(s: Seq<u8>) -> nat
    decreases s.len(),
{
    if s.len() == 0 {
        0
    } else {
        digits_val(s.drop_last()) * 10 + (s.last() - 48) as nat
    }
}

/// Whether every byte is a decimal digit.
pub open spec fn all_digits(s: Seq<u8>) -> bool {
    forall|i: int| 0 <= i < s.len() ==> is_digit(#[trigger] s[i])
}

/// What `str::parse::<i16>` accepts and returns: an optional sign, then
/// one or more digits, with the value in the signed 16-bit range.
pub open spec fn parse_i16_spec(s: Seq<u8>) -> Option<i16> {
    let neg = s.len() > 0 && s[0] == 45;
    let ds = if s.len() > 0 && (s[0] == 43 || s[0] == 45) {
        s.drop_first()
    } else {
        s
    };
    if ds.len() == 0 || !all_digits(ds) {
        Option::None
    } else if neg {
        if digits_val(ds) <= 0x8000 {
            Option::Some((-(digits_val(ds) as int)) as i16)
        } else {
            Option::None
        }
    } else {
        if digits_val(ds) <= 0x7FFF {
            Option::Some(digits_val(ds) as i16)
        } else {
            Option::None
        }
    }
}

/// Parses a signed 16-bit decimal, exactly as `str::parse::<i16>` does.
pub fn parse_i16(s: &[u8]) -> (r: Option<i16>)
    ensures
        r == parse_i16_spec(s@),
{
    let neg = s.len() > 0 && s[0] == 45;
    let start: usize = if s.len() > 0 && (s[0] == 43 || s[0] == 45) {
        1
    } else {
        0
    };
    let ghost ds = if s@.len() > 0 && (s@[0] == 43 || s@[0] == 45) {
        s@.drop_first()
    } else {
        s@
    };
    proof {
        assert(ds =~= s@.subrange(start as int, s@.len() as int));
    }
    if s.len() == start {
        return Option::None;
    }
    let mut acc: u32 = 0;
    let mut k = start;
    while k < s.len()
        invariant
            start <= k <= s@.len(),
            s@.len() > start,
            ds == s@.subrange(start as int, s@.len() as int),
            ds == (if s@.len() > 0 && (s@[0] == 43 || s@[0] == 45) {
                s@.drop_first()
            } else {
                s@
            }),
            all_digits(s@.subrange(start as int, k as int)),
            acc <= 33000,
            digits_val(s@.subrange(start as int, k as int)) <= 0x8000 ==> acc == digits_val(
                s@.subrange(start as int, k as int),
            ),
            digits_val(s@.subrange(start as int, k as int)) > 0x8000 ==> acc > 0x8000,
        decreases s@.len() - k,
    {
        let b = s[k];
        if !(48 <= b && b <= 57) {
            proof {
                assert(ds[k - start] == s@[k as int]);
                assert(!is_digit(ds[k - start]));
                assert(!all_digits(ds));
                assert(ds.len() == 0 || !all_digits(ds));
                assert(parse_i16_spec(s@) == Option::<i16>::None);
            }
            return Option::None;
        }
        let ghost before = s@.subrange(start as int, k as int);
        let ghost after = s@.subrange(start as int, k + 1);
        proof {
            assert(after.drop_last() =~= before);
            assert(after.last() == b);
            assert(forall|i: int| 0 <= i < before.len() ==> after[i] == before[i]);
        }
        let t: u32 = acc * 10 + ((b - 48) as u32);
        acc = if t > 0x8000 {
            33000
        } else {
            t
        };
        k = k + 1;
    }
    proof {
        assert(s@.subrange(start as int, s@.len() as int) == ds);
    }
    if neg {
        if acc <= 0x8000 {
            Option::Some((-(acc as i32)) as i16)
        } else {
            Option::None
        }
    } else {
        if acc <= 0x7FFF {
            Option::Some(acc as i16)
        } else {
            Option::None
        }
    }
}

/// The decimal digits of `n`, most significant first.
pub open spec fn dec_digits(n: nat) -> Seq<u8>
    decreases n,
{
    if n < 10 {
        seq![(48 + n) as u8]
    } else {
        dec_digits(n / 10) + seq![(48 + n % 10) as u8]
    }
}

/// The decimal text of an integer, with a leading minus when negative.
pub open spec fn dec_repr(n: int) -> Seq<u8> {
    if n < 0 {
        seq![45u8] + dec_digits((-n) as nat)
    } else {
        dec_digits(n as nat)
    }
}

/// Appends the decimal digits of `n`.
pub fn push_decimal_u64(out: &mut Vec<u8>, n: u64)
    ensures
        final(out)@ == old(out)@ + dec_digits(n as nat),
    decreases n,
{
    if n < 10 {
        out.push(48 + (n as u8));
        proof {
            assert(out@ =~= old(out)@ + dec_digits(n as nat));
        }
    } else {
        push_decimal_u64(out, n / 10);
        out.push(48 + ((n % 10) as u8));
        proof {
            assert(out@ =~= old(out)@ + dec_digits(n as nat));
        }
    }
}

/// Appends the decimal text of a signed 16-bit integer.
pub fn push_decimal_i16(out: &mut Vec<u8>, n: i16)
    ensures
        final(out)@ == old(out)@ + dec_repr(n as int),
{
    if n < 0 {
        out.push(45);
        let m: u64 = ((-(n as i32)) as u64);
        push_decimal_u64(out, m);
        proof {
            assert(out@ =~= old(out)@ + dec_repr(n as int));
        }
    } else {
        push_decimal_u64(out, n as u64);
    }
}

/// Appends one byte string to another.
pub fn push_bytes(out: &mut Vec<u8>, s: &[u8])
    ensures
        final(out)@ == old(out)@ + s@,
{
    let mut k: usize = 0;
    proof {
        assert(out@ =~= old(out)@ + s@.subrange(0, 0));
    }
    while k < s.len()
        invariant
            0 <= k <= s@.len(),
            out@ == old(out)@ + s@.subrange(0, k as int),
        decreases s@.len() - k,
    {
        out.push(s[k]);
        k = k + 1;
    }
    proof {
        assert(out@ =~= old(out)@ + s@);
    }
}

/// The position of the first `b` in `s`, or `s.len()` when absent.
pub fn find_byte(s: &[u8], b: u8) -> (r: usize)
    ensures
        r as int == byte_index(s@, b),
{
    let mut i: usize = 0;
    while i < s.len() && s[i] != b
        invariant
            0 <= i <= s@.len(),
            forall|k: int| 0 <= k < i ==> s@[k] != b,
        decreases s@.len() - i,
    {
        i = i + 1;
    }
    proof {
        lemma_byte_index(s@, b);
        if byte_index(s@, b) < i as int {
            assert(s@[byte_index(s@, b)] == b);
            assert(false);
        }
        if i < s@.len() && byte_index(s@, b) > i as int {
            assert(s@[i as int] != b);
            assert(false);
        }
    }
    i
}

/// Copies the byte range `from..to` out of `s`.
pub fn copy_range(s: &[u8], from: usize, to: usize) -> (r: Vec<u8>)
    requires
        from <= to <= s@.len(),
    ensures
        r@ == s@.subrange(from as int, to as int),
{
    let mut r: Vec<u8> = Vec::new();
    let mut k = from;
    while k < to
        invariant
            from <= k <= to <= s@.len(),
            r@ == s@.subrange(from as int, k as int),
        decreases to - k,
    {
        r.push(s[k]);
        k = k + 1;
    }
    proof {
        assert(r@ =~= s@.subrange(from as int, to as int));
    }
    r
}

/// Whether two byte strings hold the same bytes.
pub fn bytes_eq(a: &[u8], b: &[u8]) -> (r: bool)
    ensures
        r == (a@ == b@),
{
    if a.len() != b.len() {
        proof {
            assert(a@ != b@);
        }
        return false;
    }
    let mut k: usize = 0;
    while k < a.len()
        invariant
            0 <= k <= a@.len(),
            a@.len() == b@.len(),
            forall|i: int| 0 <= i < k ==> a@[i] == b@[i],
        decreases a@.len() - k,
    {
        if a[k] != b[k] {
            return false;
        }
        k = k + 1;
    }
    proof {
        assert(a@ =~= b@);
    }
    true
}

/// Whether a byte string equals a fixed pattern.
pub fn bytes_is<const N: usize>(a: &[u8], pat: &[u8; N]) -> (r: bool)
    ensures
        r == (a@ == pat@),
{
    if a.len() != N {
        proof {
            assert(a@ != pat@);
        }
        return false;
    }
    let mut k: usize = 0;
    while k < N
        invariant
            0 <= k <= N,
            a@.len() == N as int,
            forall|i: int| 0 <= i < k ==> a@[i] == pat@[i],
        decreases N - k,
    {
        if a[k] != pat[k] {
            return false;
        }
        k = k + 1;
    }
    proof {
        assert(a@ =~= pat@);
    }
    true
}

} // verus!

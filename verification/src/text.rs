//! Byte-level primitives of the map file text format: hexadecimal and
//! decimal numerals, space runs, and line splitting, each with an exact
//! specification and the lemmas that make rendering and parsing inverses.

use vstd::prelude::*;

use crate::parse_error::ParseError;

verus! {

/// The upper-case hexadecimal digit for a value below 16.
pub open spec fn spec_hex_digit(d: int) -> u8 {
    if d < 10 {
        (d + 0x30) as u8
    } else {
        (d - 10 + 0x41) as u8
    }
}

/// Whether `b` is an ASCII hexadecimal digit.
pub open spec fn is_hex_digit(b: u8) -> bool {
    (0x30 <= b <= 0x39) || (0x41 <= b <= 0x46) || (0x61 <= b <= 0x66)
}

/// The value of an ASCII hexadecimal digit.
pub open spec fn hex_digit_value(b: u8) -> int {
    if 0x30 <= b <= 0x39 {
        b - 0x30
    } else if 0x41 <= b <= 0x46 {
        b - 0x41 + 10
    } else {
        b - 0x61 + 10
    }
}

/// The shortest upper-case hexadecimal numeral of `v`, most significant
/// digit first.
pub open spec fn spec_hex(v: int) -> Seq<u8>
    decreases v,
{
    if v < 16 {
        seq![spec_hex_digit(v)]
    } else {
        spec_hex(v / 16).push(spec_hex_digit(v % 16))
    }
}

/// The value of a sequence of hexadecimal digits, most significant first.
pub open spec fn hex_value(s: Seq<u8>) -> int
    decreases s.len(),
{
    if s.len() == 0 {
        0
    } else {
        hex_value(s.drop_last()) * 16 + hex_digit_value(s.last())
    }
}

/// Whether `b` is an ASCII decimal digit.
pub open spec fn is_dec_digit(b: u8) -> bool {
    0x30 <= b <= 0x39
}

/// The shortest decimal numeral of `v`, most significant digit first.
pub open spec fn spec_dec(v: int) -> Seq<u8>
    decreases v,
{
    if v < 10 {
        seq![(v + 0x30) as u8]
    } else {
        spec_dec(v / 10).push((v % 10 + 0x30) as u8)
    }
}

/// The value of a sequence of decimal digits, most significant first.
pub open spec fn dec_value(s: Seq<u8>) -> int
    decreases s.len(),
{
    if s.len() == 0 {
        0
    } else {
        dec_value(s.drop_last()) * 10 + (s.last() - 0x30)
    }
}

/// `n` ASCII zeros.
pub open spec fn zero_seq(n: int) -> Seq<u8> {
    Seq::new(n as nat, |i: int| 0x30u8)
}

/// `n` ASCII spaces.
pub open spec fn space_seq(n: int) -> Seq<u8> {
    Seq::new(n as nat, |i: int| 0x20u8)
}

/// Every byte of a numeral is a hexadecimal digit, and never a space,
/// newline, or letter `x`.
pub proof fn lemma_spec_hex_digits(v: int)
    requires
        0 <= v,
    ensures
        spec_hex(v).len() > 0,
        forall|i: int| 0 <= i < spec_hex(v).len() ==> is_hex_digit(#[trigger] spec_hex(v)[i]),
    decreases v,
{
    if v < 16 {
    } else {
        lemma_spec_hex_digits(v / 16);
        assert forall|i: int|
            0 <= i < spec_hex(v).len() implies is_hex_digit(#[trigger] spec_hex(v)[i]) by {
            if i < spec_hex(v).len() - 1 {
                assert(spec_hex(v)[i] == spec_hex(v / 16)[i]);
            } else {
                assert(spec_hex(v)[i] == spec_hex_digit(v % 16));
                vstd::arithmetic::div_mod::lemma_mod_bound(v, 16);
            }
        }
    }
}

/// Reading back the numeral of `v` yields `v`.
pub proof fn lemma_hex_value_of_spec_hex(v: int)
    requires
        0 <= v,
    ensures
        hex_value(spec_hex(v)) == v,
    decreases v,
{
    if v < 16 {
        assert(spec_hex(v).drop_last() =~= Seq::<u8>::empty());
        assert(hex_value(Seq::<u8>::empty()) == 0);
        assert(spec_hex(v).last() == spec_hex_digit(v));
        assert(hex_value(spec_hex(v)) == hex_value(spec_hex(v).drop_last()) * 16
            + hex_digit_value(spec_hex(v).last()));
    } else {
        lemma_hex_value_of_spec_hex(v / 16);
        assert(spec_hex(v).drop_last() =~= spec_hex(v / 16));
        assert(spec_hex(v).last() == spec_hex_digit(v % 16));
        assert(hex_value(spec_hex(v)) == hex_value(spec_hex(v).drop_last()) * 16
            + hex_digit_value(spec_hex(v).last()));
        vstd::arithmetic::div_mod::lemma_fundamental_div_mod(v, 16);
        vstd::arithmetic::div_mod::lemma_mod_bound(v, 16);
    }
}

/// Digit sequences have non-negative values.
pub proof fn lemma_hex_value_nonneg(s: Seq<u8>)
    requires
        forall|i: int| 0 <= i < s.len() ==> is_hex_digit(#[trigger] s[i]),
    ensures
        hex_value(s) >= 0,
    decreases s.len(),
{
    if s.len() > 0 {
        assert forall|i: int|
            0 <= i < s.drop_last().len() implies is_hex_digit(#[trigger] s.drop_last()[i]) by {
            assert(s.drop_last()[i] == s[i]);
        }
        lemma_hex_value_nonneg(s.drop_last());
    }
}

/// Leading zeros do not change a numeral's value.
pub proof fn lemma_hex_value_zero_prefix(n: int, s: Seq<u8>)
    requires
        0 <= n,
    ensures
        hex_value(zero_seq(n) + s) == hex_value(s),
    decreases s.len(),
{
    if s.len() == 0 {
        assert(zero_seq(n) + s =~= zero_seq(n));
        lemma_hex_value_all_zeros(n);
    } else {
        assert((zero_seq(n) + s).drop_last() =~= zero_seq(n) + s.drop_last());
        assert((zero_seq(n) + s).last() == s.last());
        lemma_hex_value_zero_prefix(n, s.drop_last());
    }
}

pub proof fn lemma_hex_value_all_zeros(n: int)
    requires
        0 <= n,
    ensures
        hex_value(zero_seq(n)) == 0,
    decreases n,
{
    if n > 0 {
        assert(zero_seq(n).drop_last() =~= zero_seq(n - 1));
        lemma_hex_value_all_zeros(n - 1);
    }
}

/// Reading back a decimal numeral yields its value.
pub proof fn lemma_dec_value_of_spec_dec(v: int)
    requires
        0 <= v,
    ensures
        dec_value(spec_dec(v)) == v,
        spec_dec(v).len() > 0,
        forall|i: int| 0 <= i < spec_dec(v).len() ==> is_dec_digit(#[trigger] spec_dec(v)[i]),
    decreases v,
{
    if v < 10 {
        assert(spec_dec(v).drop_last() =~= Seq::<u8>::empty());
        assert(dec_value(Seq::<u8>::empty()) == 0);
        assert(spec_dec(v).last() == (v + 0x30) as u8);
        assert(dec_value(spec_dec(v)) == dec_value(spec_dec(v).drop_last()) * 10 + (spec_dec(
            v,
        ).last() - 0x30));
    } else {
        lemma_dec_value_of_spec_dec(v / 10);
        assert(spec_dec(v).drop_last() =~= spec_dec(v / 10));
        assert(spec_dec(v).last() == (v % 10 + 0x30) as u8);
        assert(dec_value(spec_dec(v)) == dec_value(spec_dec(v).drop_last()) * 10 + (spec_dec(
            v,
        ).last() - 0x30));
        vstd::arithmetic::div_mod::lemma_fundamental_div_mod(v, 10);
        vstd::arithmetic::div_mod::lemma_mod_bound(v, 10);
        assert forall|i: int|
            0 <= i < spec_dec(v).len() implies is_dec_digit(#[trigger] spec_dec(v)[i]) by {
            if i < spec_dec(v).len() - 1 {
                assert(spec_dec(v)[i] == spec_dec(v / 10)[i]);
            } else {
                assert(spec_dec(v)[i] == (v % 10 + 0x30) as u8);
            }
        }
    }
}

/// Appending digits cannot shrink a numeral's value.
pub proof fn lemma_hex_value_mono(s: Seq<u8>, a: int, m: int, j: int)
    requires
        0 <= a <= m <= j <= s.len(),
        forall|i: int| a <= i < j ==> is_hex_digit(#[trigger] s[i]),
    ensures
        hex_value(s.subrange(a, j)) >= hex_value(s.subrange(a, m)),
    decreases j - m,
{
    if m < j {
        assert(s.subrange(a, m + 1).drop_last() =~= s.subrange(a, m));
        assert(s.subrange(a, m + 1).last() == s[m]);
        assert forall|i: int|
            0 <= i < s.subrange(a, m).len() implies is_hex_digit(
                #[trigger] s.subrange(a, m)[i],
            ) by {
            assert(s.subrange(a, m)[i] == s[a + i]);
        }
        lemma_hex_value_nonneg(s.subrange(a, m));
        assert(hex_value(s.subrange(a, m + 1)) == hex_value(s.subrange(a, m)) * 16
            + hex_digit_value(s[m]));
        lemma_hex_value_mono(s, a, m + 1, j);
    }
}

/// The first index at or past `i` that does not hold a hex digit.
pub open spec fn span_hex(s: Seq<u8>, i: int) -> int
    decreases s.len() - i when 0 <= i <= s.len()
{
    if i >= s.len() || !is_hex_digit(s[i]) {
        i
    } else {
        span_hex(s, i + 1)
    }
}

/// The first index at or past `i` that does not hold a space.
pub open spec fn span_spaces(s: Seq<u8>, i: int) -> int
    decreases s.len() - i when 0 <= i <= s.len()
{
    if i >= s.len() || s[i] != 0x20 {
        i
    } else {
        span_spaces(s, i + 1)
    }
}

/// The first index at or past `i` that does not hold a decimal digit.
pub open spec fn span_dec(s: Seq<u8>, i: int) -> int
    decreases s.len() - i when 0 <= i <= s.len()
{
    if i >= s.len() || !is_dec_digit(s[i]) {
        i
    } else {
        span_dec(s, i + 1)
    }
}

/// `span_hex` lands exactly where the digits stop.
pub proof fn lemma_span_hex_is(s: Seq<u8>, i: int, j: int)
    requires
        0 <= i <= j <= s.len(),
        forall|k: int| i <= k < j ==> is_hex_digit(#[trigger] s[k]),
        j == s.len() || !is_hex_digit(s[j]),
    ensures
        span_hex(s, i) == j,
    decreases j - i,
{
    if i < j {
        lemma_span_hex_is(s, i + 1, j);
    }
}

pub proof fn lemma_span_spaces_is(s: Seq<u8>, i: int, j: int)
    requires
        0 <= i <= j <= s.len(),
        forall|k: int| i <= k < j ==> #[trigger] s[k] == 0x20,
        j == s.len() || s[j] != 0x20,
    ensures
        span_spaces(s, i) == j,
    decreases j - i,
{
    if i < j {
        lemma_span_spaces_is(s, i + 1, j);
    }
}

pub proof fn lemma_span_dec_is(s: Seq<u8>, i: int, j: int)
    requires
        0 <= i <= j <= s.len(),
        forall|k: int| i <= k < j ==> is_dec_digit(#[trigger] s[k]),
        j == s.len() || !is_dec_digit(s[j]),
    ensures
        span_dec(s, i) == j,
    decreases j - i,
{
    if i < j {
        lemma_span_dec_is(s, i + 1, j);
    }
}

/// A hex field (`0x` and at least one digit) read at position `i`: its
/// value and the index just past its digits, or nothing if the text there
/// is not a hex field.
pub open spec fn parse_hex_at(s: Seq<u8>, i: int) -> Option<(int, int)> {
    if 0 <= i && i + 2 <= s.len() && s[i] == 0x30 && s[i + 1] == 0x78 {
        let j = span_hex(s, i + 2);
        if j > i + 2 {
            Some((hex_value(s.subrange(i + 2, j)), j))
        } else {
            None
        }
    } else {
        None
    }
}

/// A decimal numeral (at least one digit) read at position `i`.
pub open spec fn parse_dec_at(s: Seq<u8>, i: int) -> Option<(int, int)> {
    if 0 <= i <= s.len() {
        let j = span_dec(s, i);
        if j > i {
            Some((dec_value(s.subrange(i, j)), j))
        } else {
            None
        }
    } else {
        None
    }
}

/// The index of the first occurrence of `b` in `s`, or `s.len()`.
pub open spec fn find_byte(s: Seq<u8>, b: u8) -> int
    decreases s.len(),
{
    if s.len() == 0 {
        0
    } else if s[0] == b {
        0
    } else {
        1 + find_byte(s.drop_first(), b)
    }
}

pub proof fn lemma_find_byte(s: Seq<u8>, b: u8)
    ensures
        0 <= find_byte(s, b) <= s.len(),
        forall|k: int| 0 <= k < find_byte(s, b) ==> #[trigger] s[k] != b,
        find_byte(s, b) < s.len() ==> s[find_byte(s, b)] == b,
    decreases s.len(),
{
    if s.len() > 0 && s[0] != b {
        lemma_find_byte(s.drop_first(), b);
        assert forall|k: int| 0 <= k < find_byte(s, b) implies #[trigger] s[k] != b by {
            if k > 0 {
                assert(s.drop_first()[k - 1] == s[k]);
            }
        }
        if find_byte(s, b) < s.len() {
            assert(s.drop_first()[find_byte(s.drop_first(), b)] == s[find_byte(s, b)]);
        }
    }
}

/// `find_byte` lands exactly on the first occurrence.
pub proof fn lemma_find_byte_is(s: Seq<u8>, b: u8, j: int)
    requires
        0 <= j <= s.len(),
        forall|k: int| 0 <= k < j ==> #[trigger] s[k] != b,
        j == s.len() || s[j] == b,
    ensures
        find_byte(s, b) == j,
    decreases s.len(),
{
    if s.len() > 0 && s[0] != b {
        assert forall|k: int| 0 <= k < j - 1 implies #[trigger] s.drop_first()[k] != b by {
            assert(s.drop_first()[k] == s[k + 1]);
        }
        if j < s.len() {
            assert(s.drop_first()[j - 1] == s[j]);
        }
        lemma_find_byte_is(s.drop_first(), b, j - 1);
    }
}

/// The lines of `s`, split on newline bytes. A trailing newline ends the
/// last line rather than opening an empty one.
pub open spec fn split_lines(s: Seq<u8>) -> Seq<Seq<u8>>
    decreases s.len(),
    via split_lines_decreases
{
    if s.len() == 0 {
        Seq::empty()
    } else {
        let j = find_byte(s, 10);
        if j >= s.len() {
            seq![s]
        } else {
            seq![s.take(j)] + split_lines(s.skip(j + 1))
        }
    }
}

#[via_fn]
proof fn split_lines_decreases(s: Seq<u8>) {
    if s.len() > 0 {
        lemma_find_byte(s, 10);
    }
}

/// Splitting takes one newline-free line off the front at a time.
pub proof fn lemma_split_lines_step(l: Seq<u8>, rest: Seq<u8>)
    requires
        forall|k: int| 0 <= k < l.len() ==> #[trigger] l[k] != 10,
    ensures
        split_lines(l + seq![10u8] + rest) == seq![l] + split_lines(rest),
{
    let s = l + seq![10u8] + rest;
    assert forall|k: int| 0 <= k < l.len() implies #[trigger] s[k] != 10 by {
        assert(s[k] == l[k]);
    }
    assert(s[l.len() as int] == 10);
    lemma_find_byte_is(s, 10, l.len() as int);
    assert(s.take(l.len() as int) =~= l);
    assert(s.skip(l.len() as int + 1) =~= rest);
}

/// A non-empty text without newlines is a single line.
pub proof fn lemma_split_lines_whole(s: Seq<u8>)
    requires
        s.len() > 0,
        forall|k: int| 0 <= k < s.len() ==> #[trigger] s[k] != 10,
    ensures
        split_lines(s) == seq![s],
{
    lemma_find_byte_is(s, 10, s.len() as int);
}

/// Whether a line is a comment, beginning with `#`.
pub open spec fn is_content(l: Seq<u8>) -> bool {
    !(l.len() > 0 && l[0] == 0x23)
}

/// The lines of `ls` that are not comments.
pub open spec fn filter_content(ls: Seq<Seq<u8>>) -> Seq<Seq<u8>> {
    ls.filter(|l: Seq<u8>| is_content(l))
}

/// The non-comment lines of a map file text.
pub open spec fn content_lines(s: Seq<u8>) -> Seq<Seq<u8>> {
    filter_content(split_lines(s))
}

/// Filtering comments distributes over push.
pub proof fn lemma_filter_content_push(ls: Seq<Seq<u8>>, l: Seq<u8>)
    ensures
        filter_content(ls.push(l)) == if is_content(l) {
            filter_content(ls).push(l)
        } else {
            filter_content(ls)
        },
{
    reveal(Seq::filter);
    assert(ls.push(l).drop_last() =~= ls);
    assert(ls.push(l).last() == l);
}

/// The zero padding before the numeral of `v`, filling short numerals to
/// eight digits.
pub open spec fn spec_hex_pad(v: int) -> Seq<u8> {
    if spec_hex(v).len() < 8 {
        zero_seq(8 - spec_hex(v).len())
    } else {
        Seq::empty()
    }
}

/// A hex field as written to a map file: `0x`, zero padding to at least
/// eight digits, then the numeral.
pub open spec fn spec_hex_field(v: int) -> Seq<u8> {
    seq![0x30u8, 0x78u8] + spec_hex_pad(v) + spec_hex(v)
}

pub fn is_hex_digit_byte(b: u8) -> (r: bool)
    ensures
        r == is_hex_digit(b),
{
    (0x30 <= b && b <= 0x39) || (0x41 <= b && b <= 0x46) || (0x61 <= b && b <= 0x66)
}

pub fn is_dec_digit_byte(b: u8) -> (r: bool)
    ensures
        r == is_dec_digit(b),
{
    0x30 <= b && b <= 0x39
}

fn hex_digit_value_byte(b: u8) -> (v: u8)
    requires
        is_hex_digit(b),
    ensures
        v == hex_digit_value(b),
        v < 16,
{
    if 0x30 <= b && b <= 0x39 {
        b - 0x30
    } else if 0x41 <= b && b <= 0x46 {
        b - 0x41 + 10
    } else {
        b - 0x61 + 10
    }
}

/// Append the shortest upper-case hexadecimal numeral of `v`.
pub fn push_hex(v: u64, out: &mut Vec<u8>)
    ensures
        final(out)@ == old(out)@ + spec_hex(v as int),
    decreases v,
{
    let ghost prefix = out@;
    if v >= 16 {
        push_hex(v / 16, out);
    }
    let d = (v % 16) as u8;
    let b = if d < 10 {
        d + 0x30
    } else {
        (d - 10) + 0x41
    };
    out.push(b);
    proof {
        assert(b == spec_hex_digit(v as int % 16));
        if v < 16 {
            assert(v as int % 16 == v as int);
            assert(spec_hex(v as int) == seq![spec_hex_digit(v as int)]);
            assert(final(out)@ =~= prefix + spec_hex(v as int));
        } else {
            assert(spec_hex(v as int) == spec_hex(v as int / 16).push(
                spec_hex_digit(v as int % 16),
            ));
            assert(final(out)@ =~= prefix + spec_hex(v as int));
        }
    }
}

/// Powers of sixteen, for bounding the width of a numeral.
pub open spec fn pow16(k: int) -> int
    decreases k,
{
    if k <= 0 {
        1
    } else {
        16 * pow16(k - 1)
    }
}

/// A value below the `k`-th power of sixteen has at most `k` digits.
pub proof fn lemma_spec_hex_len(v: int, k: int)
    requires
        0 <= v < pow16(k),
        1 <= k,
    ensures
        spec_hex(v).len() <= k,
    decreases k,
{
    if v >= 16 {
        assert(pow16(k) == 16 * pow16(k - 1));
        assert(v / 16 < pow16(k - 1)) by (nonlinear_arith)
            requires
                v < 16 * pow16(k - 1),
                0 <= v,
        ;
        lemma_spec_hex_len(v / 16, k - 1);
        assert(spec_hex(v) == spec_hex(v / 16).push(spec_hex_digit(v % 16)));
    }
}

/// The number of digits in the numeral of `v`.
pub fn hex_len(v: u64) -> (n: usize)
    ensures
        n == spec_hex(v as int).len(),
        1 <= n <= 16,
    decreases v,
{
    proof {
        reveal_with_fuel(pow16, 17);
        assert(pow16(16) == 0x1_0000_0000_0000_0000);
        lemma_spec_hex_len(v as int, 16);
    }
    if v < 16 {
        1
    } else {
        let m = hex_len(v / 16);
        proof {
            assert(spec_hex(v as int) == spec_hex(v as int / 16).push(
                spec_hex_digit(v as int % 16),
            ));
        }
        m + 1
    }
}

/// Append a full hex field: `0x`, zero padding to eight digits, and the
/// numeral of `v`.
pub fn push_hex_field(v: u64, out: &mut Vec<u8>)
    ensures
        final(out)@ == old(out)@ + spec_hex_field(v as int),
{
    let ghost prefix = out@;
    out.push(0x30);
    out.push(0x78);
    let n = hex_len(v);
    let mut pad: usize = if n < 8 {
        8 - n
    } else {
        0
    };
    let ghost total_pad = pad as int;
    while pad > 0
        invariant
            0 <= pad <= total_pad,
            out@ == prefix + seq![0x30u8, 0x78u8] + zero_seq(total_pad - pad),
        decreases pad,
    {
        out.push(0x30);
        proof {
            assert(zero_seq(total_pad - pad + 1) =~= zero_seq(total_pad - pad).push(0x30u8));
            assert(out@ =~= prefix + seq![0x30u8, 0x78u8] + zero_seq(total_pad - (pad - 1)));
        }
        pad -= 1;
    }
    proof {
        assert(zero_seq(total_pad) == spec_hex_pad(v as int));
    }
    push_hex(v, out);
    proof {
        assert(final(out)@ =~= prefix + spec_hex_field(v as int));
    }
}

/// Append the shortest decimal numeral of `v`.
pub fn push_dec(v: u64, out: &mut Vec<u8>)
    ensures
        final(out)@ == old(out)@ + spec_dec(v as int),
    decreases v,
{
    let ghost prefix = out@;
    if v >= 10 {
        push_dec(v / 10, out);
    }
    let b = (v % 10) as u8 + 0x30;
    out.push(b);
    proof {
        if v < 10 {
            assert(v as int % 10 == v as int);
            assert(spec_dec(v as int) == seq![(v as int + 0x30) as u8]);
            assert(final(out)@ =~= prefix + spec_dec(v as int));
        } else {
            assert(spec_dec(v as int) == spec_dec(v as int / 10).push(
                (v as int % 10 + 0x30) as u8,
            ));
            assert(final(out)@ =~= prefix + spec_dec(v as int));
        }
    }
}

/// The index just past the spaces beginning at `from`.
pub fn skip_spaces(s: &[u8], from: usize) -> (j: usize)
    requires
        from <= s@.len(),
    ensures
        j == span_spaces(s@, from as int),
        from <= j <= s@.len(),
{
    let n = s.len();
    let mut i = from;
    while i < n && s[i] == 0x20
        invariant
            from <= i <= n,
            n == s@.len(),
            forall|k: int| from <= k < i ==> #[trigger] s@[k] == 0x20,
        decreases n - i,
    {
        i += 1;
    }
    proof {
        lemma_span_spaces_is(s@, from as int, i as int);
    }
    i
}

/// A hex field read at `from`, or the error naming it: the spec answer of
/// [`parse_hex_at`], with values above `u64::MAX` rejected.
pub open spec fn parse_hex_u64_at(s: Seq<u8>, i: int) -> Result<(u64, int), Seq<char>> {
    match parse_hex_at(s, i) {
        None => Err("hex value"@),
        Some((v, j)) => if v <= u64::MAX {
            Ok((v as u64, j))
        } else {
            Err("hex value"@)
        },
    }
}

/// Read a hex field at `from`: `0x`, then as many digits as there are.
pub fn parse_hex_field(s: &[u8], from: usize) -> (r: Result<(u64, usize), ParseError>)
    requires
        from <= s@.len(),
    ensures
        match r {
            Ok(p) => parse_hex_u64_at(s@, from as int) == Ok::<(u64, int), Seq<char>>(
                (p.0, p.1 as int),
            ) && from < p.1 <= s@.len(),
            Err(e) => parse_hex_u64_at(s@, from as int) is Err && e@ == "hex value"@,
        },
{
    let n = s.len();
    if n - from < 2 || s[from] != 0x30 || s[from + 1] != 0x78 {
        return Err(ParseError::new("hex value"));
    }
    let mut i = from + 2;
    let mut acc: u64 = 0;
    let ghost a = from as int + 2;
    while i < n && is_hex_digit_byte(s[i])
        invariant
            a == from as int + 2,
            from + 2 <= i <= n,
            n == s@.len(),
            forall|k: int| a <= k < i ==> is_hex_digit(#[trigger] s@[k]),
            acc == hex_value(s@.subrange(a, i as int)),
        decreases n - i,
    {
        let d = hex_digit_value_byte(s[i]);
        proof {
            assert(s@.subrange(a, i as int + 1).drop_last() =~= s@.subrange(a, i as int));
            assert(s@.subrange(a, i as int + 1).last() == s@[i as int]);
            assert forall|k: int|
                0 <= k < s@.subrange(a, i as int).len() implies is_hex_digit(
                #[trigger] s@.subrange(a, i as int)[k]) by {
                assert(s@.subrange(a, i as int)[k] == s@[a + k]);
            }
            lemma_hex_value_nonneg(s@.subrange(a, i as int));
        }
        if acc > (u64::MAX - d as u64) / 16 {
            // the digits read so far already exceed the largest offset, so
            // the whole field does too
            proof {
                let j = span_hex(s@, a);
                lemma_span_hex_is_at_least(s@, a, i as int + 1);
                assert forall|k: int| a <= k < j implies is_hex_digit(#[trigger] s@[k]) by {
                    lemma_span_hex_range(s@, a, k);
                }
                lemma_hex_value_mono(s@, a, i as int + 1, j);
                assert(hex_value(s@.subrange(a, i as int + 1)) == acc * 16 + d);
                assert(acc * 16 + d > u64::MAX);
            }
            return Err(ParseError::new("hex value"));
        }
        acc = acc * 16 + d as u64;
        i += 1;
    }
    proof {
        lemma_span_hex_is(s@, a, i as int);
    }
    if i == from + 2 {
        return Err(ParseError::new("hex value"));
    }
    Ok((acc, i))
}

/// The span of hex digits reaches at least as far as any known digit run.
pub proof fn lemma_span_hex_is_at_least(s: Seq<u8>, i: int, j: int)
    requires
        0 <= i <= j <= s.len(),
        forall|k: int| i <= k < j ==> is_hex_digit(#[trigger] s[k]),
    ensures
        j <= span_hex(s, i) <= s.len(),
    decreases j - i,
{
    if i < j {
        lemma_span_hex_is_at_least(s, i + 1, j);
    } else {
        lemma_span_hex_in_range(s, i);
    }
}

pub proof fn lemma_span_hex_in_range(s: Seq<u8>, i: int)
    requires
        0 <= i <= s.len(),
    ensures
        i <= span_hex(s, i) <= s.len(),
    decreases s.len() - i,
{
    if i < s.len() && is_hex_digit(s[i]) {
        lemma_span_hex_in_range(s, i + 1);
    }
}

/// Every byte before the span's end is a hex digit.
pub proof fn lemma_span_hex_range(s: Seq<u8>, i: int, k: int)
    requires
        0 <= i <= s.len(),
        i <= k < span_hex(s, i),
    ensures
        is_hex_digit(s[k]),
    decreases k - i,
{
    lemma_span_hex_in_range(s, i);
    if i < k {
        lemma_span_hex_range(s, i + 1, k);
    }
}

/// A decimal numeral read at `from`, with values above `u64::MAX`
/// rejected; it names the pass counter when it fails.
pub open spec fn parse_dec_u64_at(s: Seq<u8>, i: int) -> Result<(u64, int), Seq<char>> {
    match parse_dec_at(s, i) {
        None => Err("pass"@),
        Some((v, j)) => if v <= u64::MAX {
            Ok((v as u64, j))
        } else {
            Err("pass"@)
        },
    }
}

pub proof fn lemma_span_dec_is_at_least(s: Seq<u8>, i: int, j: int)
    requires
        0 <= i <= j <= s.len(),
        forall|k: int| i <= k < j ==> is_dec_digit(#[trigger] s[k]),
    ensures
        j <= span_dec(s, i) <= s.len(),
    decreases j - i,
{
    if i < j {
        lemma_span_dec_is_at_least(s, i + 1, j);
    } else {
        lemma_span_dec_in_range(s, i);
    }
}

pub proof fn lemma_span_dec_in_range(s: Seq<u8>, i: int)
    requires
        0 <= i <= s.len(),
    ensures
        i <= span_dec(s, i) <= s.len(),
    decreases s.len() - i,
{
    if i < s.len() && is_dec_digit(s[i]) {
        lemma_span_dec_in_range(s, i + 1);
    }
}

pub proof fn lemma_span_dec_range(s: Seq<u8>, i: int, k: int)
    requires
        0 <= i <= s.len(),
        i <= k < span_dec(s, i),
    ensures
        is_dec_digit(s[k]),
    decreases k - i,
{
    lemma_span_dec_in_range(s, i);
    if i < k {
        lemma_span_dec_range(s, i + 1, k);
    }
}

pub proof fn lemma_dec_value_nonneg(s: Seq<u8>)
    requires
        forall|i: int| 0 <= i < s.len() ==> is_dec_digit(#[trigger] s[i]),
    ensures
        dec_value(s) >= 0,
    decreases s.len(),
{
    if s.len() > 0 {
        assert forall|i: int|
            0 <= i < s.drop_last().len() implies is_dec_digit(#[trigger] s.drop_last()[i]) by {
            assert(s.drop_last()[i] == s[i]);
        }
        lemma_dec_value_nonneg(s.drop_last());
    }
}

pub proof fn lemma_dec_value_mono(s: Seq<u8>, a: int, m: int, j: int)
    requires
        0 <= a <= m <= j <= s.len(),
        forall|i: int| a <= i < j ==> is_dec_digit(#[trigger] s[i]),
    ensures
        dec_value(s.subrange(a, j)) >= dec_value(s.subrange(a, m)),
    decreases j - m,
{
    if m < j {
        assert(s.subrange(a, m + 1).drop_last() =~= s.subrange(a, m));
        assert(s.subrange(a, m + 1).last() == s[m]);
        assert forall|i: int|
            0 <= i < s.subrange(a, m).len() implies is_dec_digit(
                #[trigger] s.subrange(a, m)[i],
            ) by {
            assert(s.subrange(a, m)[i] == s[a + i]);
        }
        lemma_dec_value_nonneg(s.subrange(a, m));
        assert(dec_value(s.subrange(a, m + 1)) == dec_value(s.subrange(a, m)) * 10 + (s[m]
            - 0x30));
        lemma_dec_value_mono(s, a, m + 1, j);
    }
}

/// Read a decimal numeral at `from`: as many digits as there are.
pub fn parse_dec_field(s: &[u8], from: usize) -> (r: Result<(u64, usize), ParseError>)
    requires
        from <= s@.len(),
    ensures
        match r {
            Ok(p) => parse_dec_u64_at(s@, from as int) == Ok::<(u64, int), Seq<char>>(
                (p.0, p.1 as int),
            ) && from < p.1 <= s@.len(),
            Err(e) => parse_dec_u64_at(s@, from as int) is Err && e@ == "pass"@,
        },
{
    let n = s.len();
    let mut i = from;
    let mut acc: u64 = 0;
    let ghost a = from as int;
    while i < n && is_dec_digit_byte(s[i])
        invariant
            a == from as int,
            from <= i <= n,
            n == s@.len(),
            forall|k: int| a <= k < i ==> is_dec_digit(#[trigger] s@[k]),
            acc == dec_value(s@.subrange(a, i as int)),
        decreases n - i,
    {
        let d = s[i] - 0x30;
        proof {
            assert(s@.subrange(a, i as int + 1).drop_last() =~= s@.subrange(a, i as int));
            assert(s@.subrange(a, i as int + 1).last() == s@[i as int]);
            assert forall|k: int|
                0 <= k < s@.subrange(a, i as int).len() implies is_dec_digit(
                #[trigger] s@.subrange(a, i as int)[k]) by {
                assert(s@.subrange(a, i as int)[k] == s@[a + k]);
            }
            lemma_dec_value_nonneg(s@.subrange(a, i as int));
        }
        if acc > (u64::MAX - d as u64) / 10 {
            proof {
                let j = span_dec(s@, a);
                lemma_span_dec_is_at_least(s@, a, i as int + 1);
                assert forall|k: int| a <= k < j implies is_dec_digit(#[trigger] s@[k]) by {
                    lemma_span_dec_range(s@, a, k);
                }
                lemma_dec_value_mono(s@, a, i as int + 1, j);
                assert(dec_value(s@.subrange(a, i as int + 1)) == acc * 10 + d);
                assert(acc * 10 + d > u64::MAX);
            }
            return Err(ParseError::new("pass"));
        }
        acc = acc * 10 + d as u64;
        i += 1;
    }
    proof {
        lemma_span_dec_is(s@, a, i as int);
    }
    if i == from {
        return Err(ParseError::new("pass"));
    }
    Ok((acc, i))
}

} // verus!

//! Byte-level primitives of the status wire format.
//!
//! Status frames travel as UTF-8 JSON text. This module holds the small
//! pieces both sides share: decimal numbers, string escaping, and the
//! matching parsers, each an executable function proved against a spec
//! function, with lemmas showing that parsing inverts emission.

use vstd::prelude::*;
use vstd::string::StrSliceExecFns;
use vstd::string::StringSliceAdditionalSpecFns;

verus! {

pub const QUOTE: u8 = 34;
pub const BACKSLASH: u8 = 92;
pub const LBRACE: u8 = 123;
pub const RBRACE: u8 = 125;
pub const LOWER_U: u8 = 117;
pub const DIGIT_ZERO: u8 = 48;

/// ASCII decimal digit.
pub open spec fn is_digit(b: u8) -> bool {
    48 <= b <= 57
}

/// Value of an ASCII decimal digit.
pub open spec fn digit_val(b: u8) -> nat {
    (b - 48) as nat
}

/// The decimal digits of `n`, most significant first.
pub open spec fn dec_digits(n: nat) -> Seq<u8>
    decreases n,
{
    if n < 10 {
        seq![(48 + n) as u8]
    } else {
        dec_digits(n / 10).push((48 + n % 10) as u8)
    }
}

/// Lowercase hexadecimal digit for a value below 16.
pub open spec fn hex_digit(n: nat) -> u8 {
    if n < 10 {
        (48 + n) as u8
    } else {
        (87 + n) as u8
    }
}

/// ASCII hexadecimal digit, either case.
pub open spec fn is_hex(b: u8) -> bool {
    (48 <= b <= 57) || (97 <= b <= 102) || (65 <= b <= 70)
}

/// Value of an ASCII hexadecimal digit.
pub open spec fn hex_val(b: u8) -> nat {
    if 48 <= b <= 57 {
        (b - 48) as nat
    } else if 97 <= b <= 102 {
        (b - 87) as nat
    } else if 65 <= b <= 70 {
        (b - 55) as nat
    } else {
        0
    }
}

/// The escape of one byte inside a JSON string: quote and backslash get a
/// backslash escape, control bytes a `\u00XX` escape, everything else
/// passes through.
pub open spec fn esc_byte(b: u8) -> Seq<u8> {
    if b == QUOTE {
        seq![BACKSLASH, QUOTE]
    } else if b == BACKSLASH {
        seq![BACKSLASH, BACKSLASH]
    } else if b < 32 {
        seq![BACKSLASH, LOWER_U, DIGIT_ZERO, DIGIT_ZERO, hex_digit((b / 16) as nat), hex_digit((b % 16) as nat)]
    } else {
        seq![b]
    }
}

/// The escape of a byte string.
pub open spec fn esc(s: Seq<u8>) -> Seq<u8>
    decreases s.len(),
{
    if s.len() == 0 {
        Seq::empty()
    } else {
        esc_byte(s[0]) + esc(s.drop_first())
    }
}

/// Escaping distributes over appending one byte at the end.
pub proof fn lemma_esc_push(s: Seq<u8>, x: u8)
    ensures
        esc(s.push(x)) == esc(s) + esc_byte(x),
    decreases s.len(),
{
    if s.len() == 0 {
        assert(s.push(x)[0] == x);
        assert(s.push(x).drop_first() =~= Seq::<u8>::empty());
        assert(esc(s.push(x)) =~= esc_byte(x) + esc(Seq::<u8>::empty()));
        assert(esc(s.push(x)) =~= esc_byte(x));
        assert(esc(s) + esc_byte(x) =~= esc_byte(x));
    } else {
        assert(s.push(x)[0] == s[0]);
        assert(s.push(x).drop_first() =~= s.drop_first().push(x));
        lemma_esc_push(s.drop_first(), x);
        assert(esc(s.push(x)) =~= esc(s) + esc_byte(x));
    }
}

/// Reading digits left to right onto an accumulator.
pub open spec fn fold_digits(s: Seq<u8>, acc: nat) -> nat
    decreases s.len(),
{
    if s.len() == 0 {
        acc
    } else {
        fold_digits(s.drop_first(), acc * 10 + digit_val(s[0]))
    }
}

/// Folding one more digit multiplies the prefix value by ten.
pub proof fn lemma_fold_push(s: Seq<u8>, x: u8, acc: nat)
    ensures
        fold_digits(s.push(x), acc) == fold_digits(s, acc) * 10 + digit_val(x),
    decreases s.len(),
{
    if s.len() == 0 {
        assert(s.push(x)[0] == x);
        assert(s.push(x).drop_first() =~= Seq::<u8>::empty());
        assert(fold_digits(s.push(x), acc) == fold_digits(
            s.push(x).drop_first(),
            acc * 10 + digit_val(x),
        ));
        assert(fold_digits(Seq::<u8>::empty(), acc * 10 + digit_val(x)) == acc * 10 + digit_val(
            x,
        ));
    } else {
        assert(s.push(x)[0] == s[0]);
        assert(s.push(x).drop_first() =~= s.drop_first().push(x));
        lemma_fold_push(s.drop_first(), x, acc * 10 + digit_val(s[0]));
    }
}

/// The decimal digits of `n` are digits, start with no leading zero run
/// longer than the number itself, and fold back to `n`.
pub proof fn lemma_dec_digits(n: nat)
    ensures
        dec_digits(n).len() >= 1,
        forall|i: int| 0 <= i < dec_digits(n).len() ==> is_digit(#[trigger] dec_digits(n)[i]),
        fold_digits(dec_digits(n), 0) == n,
    decreases n,
{
    if n < 10 {
        assert(dec_digits(n) =~= seq![(48 + n) as u8]);
        assert(dec_digits(n)[0] == (48 + n) as u8);
        assert(digit_val((48 + n) as u8) == n);
        assert(dec_digits(n).drop_first() =~= Seq::<u8>::empty());
        assert(fold_digits(dec_digits(n), 0) == fold_digits(
            dec_digits(n).drop_first(),
            digit_val(dec_digits(n)[0]),
        ));
        assert(fold_digits(Seq::<u8>::empty(), n) == n);
        assert(fold_digits(dec_digits(n), 0) == n);
    } else {
        lemma_dec_digits(n / 10);
        lemma_fold_push(dec_digits(n / 10), (48 + n % 10) as u8, 0);
        assert(digit_val((48 + n % 10) as u8) == n % 10);
        assert(fold_digits(dec_digits(n), 0) == (n / 10) * 10 + n % 10);
        assert((n / 10) * 10 + n % 10 == n);
        assert forall|i: int| 0 <= i < dec_digits(n).len() implies is_digit(
            #[trigger] dec_digits(n)[i],
        ) by {
            if i < dec_digits(n / 10).len() {
                assert(dec_digits(n)[i] == dec_digits(n / 10)[i]);
            }
        }
    }
}

/// Matching a fixed byte string at a position.
pub open spec fn sp_expect(b: Seq<u8>, pos: int, lit: Seq<u8>) -> Option<int> {
    if 0 <= pos && pos + lit.len() <= b.len() && b.subrange(pos, pos + lit.len()) == lit {
        Some(pos + lit.len())
    } else {
        None
    }
}

/// A region holding exactly the expected bytes matches.
pub proof fn lemma_expect_at(b: Seq<u8>, pos: int, lit: Seq<u8>)
    requires
        0 <= pos,
        pos + lit.len() <= b.len(),
        b.subrange(pos, pos + lit.len()) =~= lit,
    ensures
        sp_expect(b, pos, lit) == Some(pos + lit.len()),
{
}

/// Reading a run of digits onto an accumulator, returning the value and
/// the position after the run.
pub open spec fn sp_digits_acc(b: Seq<u8>, pos: int, acc: nat) -> (nat, int)
    decreases b.len() - pos,
{
    if 0 <= pos < b.len() && is_digit(b[pos]) {
        sp_digits_acc(b, pos + 1, acc * 10 + digit_val(b[pos]))
    } else {
        (acc, pos)
    }
}

/// Parsing a decimal number: at least one digit, read greedily.
pub open spec fn sp_num(b: Seq<u8>, pos: int) -> Option<(nat, int)> {
    if 0 <= pos < b.len() && is_digit(b[pos]) {
        Some(sp_digits_acc(b, pos, 0))
    } else {
        None
    }
}

/// The digit run never decreases the accumulator.
pub proof fn lemma_digits_acc_ge(b: Seq<u8>, pos: int, acc: nat)
    ensures
        sp_digits_acc(b, pos, acc).0 >= acc,
    decreases b.len() - pos,
{
    if 0 <= pos < b.len() && is_digit(b[pos]) {
        lemma_digits_acc_ge(b, pos + 1, acc * 10 + digit_val(b[pos]));
    }
}

/// Reading a region that holds a digit string bounded by a non-digit
/// folds exactly that string onto the accumulator.
pub proof fn lemma_digits_at(b: Seq<u8>, pos: int, s: Seq<u8>, acc: nat)
    requires
        0 <= pos,
        pos + s.len() <= b.len(),
        b.subrange(pos, pos + s.len()) =~= s,
        forall|i: int| 0 <= i < s.len() ==> is_digit(#[trigger] s[i]),
        pos + s.len() == b.len() || !is_digit(b[pos + s.len()]),
    ensures
        sp_digits_acc(b, pos, acc) == (fold_digits(s, acc), pos + s.len()),
    decreases s.len(),
{
    if s.len() == 0 {
    } else {
        assert(b[pos] == s[0]);
        assert(b.subrange(pos + 1, pos + s.len()) =~= s.drop_first());
        lemma_digits_at(b, pos + 1, s.drop_first(), acc * 10 + digit_val(s[0]));
    }
}

/// A serialized number followed by a non-digit parses back to itself.
pub proof fn lemma_num_at(b: Seq<u8>, pos: int, n: nat)
    requires
        0 <= pos,
        pos + dec_digits(n).len() <= b.len(),
        b.subrange(pos, pos + dec_digits(n).len()) =~= dec_digits(n),
        pos + dec_digits(n).len() == b.len() || !is_digit(b[pos + dec_digits(n).len()]),
    ensures
        sp_num(b, pos) == Some((n, pos + dec_digits(n).len())),
{
    lemma_dec_digits(n);
    assert(b[pos] == dec_digits(n)[0]);
    lemma_digits_at(b, pos, dec_digits(n), 0);
}

/// Parsing the body of a JSON string from just after the opening quote:
/// raw bytes at or above 0x20, backslash escapes for quote and backslash,
/// and `\u00XX`-style escapes; ends at the closing quote. Returns the
/// unescaped bytes and the position after the closing quote.
pub open spec fn sp_str(b: Seq<u8>, pos: int) -> Option<(Seq<u8>, int)>
    decreases b.len() - pos,
{
    if !(0 <= pos < b.len()) {
        None
    } else if b[pos] == QUOTE {
        Some((Seq::empty(), pos + 1))
    } else if b[pos] == BACKSLASH {
        if pos + 1 < b.len() && (b[pos + 1] == QUOTE || b[pos + 1] == BACKSLASH) {
            match sp_str(b, pos + 2) {
                Some((tail, end)) => Some((seq![b[pos + 1]] + tail, end)),
                None => None,
            }
        } else if pos + 5 < b.len() && b[pos + 1] == LOWER_U && b[pos + 2] == DIGIT_ZERO && b[pos
            + 3] == DIGIT_ZERO && is_hex(b[pos + 4]) && is_hex(b[pos + 5]) {
            match sp_str(b, pos + 6) {
                Some((tail, end)) => Some(
                    (seq![(hex_val(b[pos + 4]) * 16 + hex_val(b[pos + 5])) as u8] + tail, end),
                ),
                None => None,
            }
        } else {
            None
        }
    } else if b[pos] >= 32 {
        match sp_str(b, pos + 1) {
            Some((tail, end)) => Some((seq![b[pos]] + tail, end)),
            None => None,
        }
    } else {
        None
    }
}

/// An escaped byte string followed by a closing quote parses back to the
/// original bytes.
pub proof fn lemma_str_at(b: Seq<u8>, pos: int, s: Seq<u8>)
    requires
        0 <= pos,
        pos + esc(s).len() < b.len(),
        b.subrange(pos, pos + esc(s).len()) =~= esc(s),
        b[pos + esc(s).len()] == QUOTE,
    ensures
        sp_str(b, pos) == Some((s, pos + esc(s).len() + 1)),
    decreases s.len(),
{
    if s.len() == 0 {
        assert(esc(s).len() == 0);
        assert(b[pos] == QUOTE);
    } else {
        let x = s[0];
        let rest = s.drop_first();
        let k = esc_byte(x).len();
        assert(esc(s) =~= esc_byte(x) + esc(rest));
        assert forall|i: int| 0 <= i < k implies b[pos + i] == esc_byte(x)[i] by {
            assert(esc(s)[i] == esc_byte(x)[i]);
        }
        assert(b.subrange(pos + k, pos + k + esc(rest).len()) =~= esc(rest)) by {
            assert forall|i: int| 0 <= i < esc(rest).len() implies b[pos + k + i] == esc(rest)[i] by {
                assert(esc(s)[k + i] == esc(rest)[i]);
            }
        }
        lemma_str_at(b, pos + k, rest);
        if x == QUOTE || x == BACKSLASH {
            assert(b[pos] == BACKSLASH);
            assert(b[pos + 1] == x);
            assert(sp_str(b, pos) == Some((seq![x] + rest, pos + esc(s).len() + 1)));
            assert(seq![x] + rest =~= s);
        } else if x < 32 {
            assert(b[pos] == BACKSLASH);
            assert(b[pos + 1] == LOWER_U);
            assert(b[pos + 2] == DIGIT_ZERO);
            assert(b[pos + 3] == DIGIT_ZERO);
            assert(b[pos + 4] == hex_digit((x / 16) as nat));
            assert(b[pos + 5] == hex_digit((x % 16) as nat));
            assert(is_hex(hex_digit((x / 16) as nat)));
            assert(is_hex(hex_digit((x % 16) as nat)));
            assert(hex_val(hex_digit((x / 16) as nat)) == x / 16);
            assert(hex_val(hex_digit((x % 16) as nat)) == x % 16);
            assert((hex_val(b[pos + 4]) * 16 + hex_val(b[pos + 5])) as u8 == x);
            assert(seq![x] + rest =~= s);
        } else {
            assert(b[pos] == esc_byte(x)[0]);
            assert(esc_byte(x) =~= seq![x]);
            assert(b[pos] == x);
            assert(x >= 32 && x != QUOTE && x != BACKSLASH);
            assert(seq![x] + rest =~= s);
        }
    }
}

/// Appends the decimal digits of `n`.
pub fn emit_u64(out: &mut Vec<u8>, n: u64)
    ensures
        final(out)@ == old(out)@ + dec_digits(n as nat),
    decreases n,
{
    if n < 10 {
        out.push(48 + n as u8);
        proof {
            assert(final(out)@ =~= old(out)@ + dec_digits(n as nat));
        }
    } else {
        emit_u64(out, n / 10);
        out.push(48 + (n % 10) as u8);
        proof {
            assert(final(out)@ =~= old(out)@ + dec_digits(n as nat));
        }
    }
}

/// Appends the escaped bytes of a string.
pub fn emit_escaped(out: &mut Vec<u8>, s: &str)
    ensures
        final(out)@ == old(out)@ + esc(s.spec_bytes()),
{
    let bytes = s.as_bytes_vec();
    let n = bytes.len();
    let mut i: usize = 0;
    proof {
        assert(bytes@.take(0) =~= Seq::<u8>::empty());
        assert(out@ + esc(bytes@.take(0)) =~= out@);
    }
    while i < n
        invariant
            i <= n,
            n == bytes@.len(),
            bytes@ == s.spec_bytes(),
            out@ == old(out)@ + esc(bytes@.take(i as int)),
        decreases n - i,
    {
        let b = bytes[i];
        if b == QUOTE || b == BACKSLASH {
            out.push(BACKSLASH);
            out.push(b);
        } else if b < 32 {
            out.push(BACKSLASH);
            out.push(LOWER_U);
            out.push(DIGIT_ZERO);
            out.push(DIGIT_ZERO);
            let hi = b / 16;
            let lo = b % 16;
            out.push(if hi < 10 {
                48 + hi
            } else {
                87 + hi
            });
            out.push(if lo < 10 {
                48 + lo
            } else {
                87 + lo
            });
        } else {
            out.push(b);
        }
        proof {
            lemma_esc_push(bytes@.take(i as int), bytes@[i as int]);
            assert(bytes@.take(i as int).push(bytes@[i as int]) =~= bytes@.take(i + 1));
            assert(out@ =~= old(out)@ + esc(bytes@.take(i + 1)));
        }
        i = i + 1;
    }
    proof {
        assert(bytes@.take(n as int) =~= bytes@);
    }
}

/// Appends the bytes of a string verbatim; for fixed wire text that needs
/// no escaping.
pub fn emit_lit(out: &mut Vec<u8>, s: &str)
    ensures
        final(out)@ == old(out)@ + s.spec_bytes(),
{
    let bytes = s.as_bytes_vec();
    let n = bytes.len();
    let mut i: usize = 0;
    while i < n
        invariant
            i <= n,
            n == bytes@.len(),
            bytes@ == s.spec_bytes(),
            out@ == old(out)@ + bytes@.take(i as int),
        decreases n - i,
    {
        out.push(bytes[i]);
        proof {
            assert(out@ =~= old(out)@ + bytes@.take(i + 1));
        }
        i = i + 1;
    }
    proof {
        assert(bytes@.take(n as int) =~= bytes@);
    }
}

/// Matches a fixed byte string; the position after it on success.
pub fn expect_lit(buf: &Vec<u8>, pos: usize, lit: &str) -> (r: Option<usize>)
    ensures
        match r {
            Some(end) => sp_expect(buf@, pos as int, lit.spec_bytes()) == Some(end as int),
            None => sp_expect(buf@, pos as int, lit.spec_bytes()) is None,
        },
{
    let bytes = lit.as_bytes_vec();
    let n = bytes.len();
    let blen = buf.len();
    if pos > blen || n > blen - pos {
        proof {
            assert(pos + bytes@.len() > buf@.len());
        }
        return None;
    }
    let mut i: usize = 0;
    while i < n
        invariant
            i <= n,
            n == bytes@.len(),
            bytes@ == lit.spec_bytes(),
            blen == buf@.len(),
            pos + n <= blen,
            forall|k: int| 0 <= k < i ==> buf@[pos + k] == bytes@[k],
        decreases n - i,
    {
        if buf[pos + i] != bytes[i] {
            proof {
                assert(buf@.subrange(pos as int, pos + bytes@.len())[i as int] != bytes@[i as int]);
            }
            return None;
        }
        i = i + 1;
    }
    proof {
        assert(buf@.subrange(pos as int, pos + bytes@.len()) =~= bytes@);
    }
    Some(pos + n)
}

/// Parses a decimal number; absent when no digit is present or the value
/// does not fit in a `u64`.
pub fn parse_num(buf: &Vec<u8>, pos: usize) -> (r: Option<(u64, usize)>)
    ensures
        match r {
            Some(v) => sp_num(buf@, pos as int) == Some((v.0 as nat, v.1 as int)) && v.1
                <= buf@.len(),
            None => match sp_num(buf@, pos as int) {
                Some(v) => v.0 > u64::MAX,
                None => true,
            },
        },
{
    if pos >= buf.len() {
        return None;
    }
    let b = buf[pos];
    if b < 48 || b > 57 {
        return None;
    }
    match parse_digits(buf, pos, 0) {
        Some(v) => Some(v),
        None => None,
    }
}

/// Reads a digit run onto an accumulator; absent on `u64` overflow.
fn parse_digits(buf: &Vec<u8>, pos: usize, acc: u64) -> (r: Option<(u64, usize)>)
    requires
        pos <= buf@.len(),
    ensures
        match r {
            Some(v) => sp_digits_acc(buf@, pos as int, acc as nat) == (v.0 as nat, v.1 as int)
                && pos <= v.1 <= buf@.len(),
            None => sp_digits_acc(buf@, pos as int, acc as nat).0 > u64::MAX,
        },
    decreases buf@.len() - pos,
{
    if pos >= buf.len() {
        return Some((acc, pos));
    }
    let b = buf[pos];
    if b < 48 || b > 57 {
        return Some((acc, pos));
    }
    let d = (b - 48) as u64;
    if acc > (u64::MAX - d) / 10 {
        proof {
            lemma_digits_acc_ge(buf@, pos + 1, acc as nat * 10 + digit_val(b));
            assert(acc as nat * 10 + digit_val(b) > u64::MAX) by (nonlinear_arith)
                requires
                    acc as nat > (u64::MAX - digit_val(b)) / 10,
                    digit_val(b) < 10,
            ;
        }
        return None;
    }
    proof {
        assert(acc * 10 + d <= u64::MAX) by (nonlinear_arith)
            requires
                acc <= (u64::MAX - d) / 10,
                d < 10,
        ;
    }
    parse_digits(buf, pos + 1, acc * 10 + d)
}

/// Parses a JSON string body from just after the opening quote; the
/// unescaped bytes and the position after the closing quote.
pub fn parse_string_raw(buf: &Vec<u8>, pos: usize) -> (r: Option<(Vec<u8>, usize)>)
    ensures
        match r {
            Some(v) => sp_str(buf@, pos as int) == Some((v.0@, v.1 as int)) && pos < v.1
                <= buf@.len(),
            None => sp_str(buf@, pos as int) is None,
        },
    decreases buf@.len() - pos,
{
    if pos >= buf.len() {
        return None;
    }
    let b = buf[pos];
    if b == QUOTE {
        let empty: Vec<u8> = Vec::new();
        proof {
            assert(empty@ =~= Seq::<u8>::empty());
        }
        return Some((empty, pos + 1));
    }
    if b == BACKSLASH {
        if buf.len() - pos > 1 && (buf[pos + 1] == QUOTE || buf[pos + 1] == BACKSLASH) {
            let decoded = buf[pos + 1];
            match parse_string_raw(buf, pos + 2) {
                Some((mut tail, end)) => {
                    tail.insert(0, decoded);
                    proof {
                        assert(tail@ =~= seq![buf@[pos + 1]] + tail@.drop_first());
                    }
                    return Some((tail, end));
                },
                None => {
                    return None;
                },
            }
        } else if buf.len() - pos > 5 && buf[pos + 1] == LOWER_U && buf[pos + 2] == DIGIT_ZERO
            && buf[pos + 3] == DIGIT_ZERO && hex_ok(buf[pos + 4]) && hex_ok(buf[pos + 5]) {
            let decoded = hex_value(buf[pos + 4]) * 16 + hex_value(buf[pos + 5]);
            match parse_string_raw(buf, pos + 6) {
                Some((mut tail, end)) => {
                    tail.insert(0, decoded);
                    proof {
                        assert(tail@ =~= seq![(hex_val(buf@[pos + 4]) * 16 + hex_val(
                            buf@[pos + 5],
                        )) as u8] + tail@.drop_first());
                    }
                    return Some((tail, end));
                },
                None => {
                    return None;
                },
            }
        } else {
            return None;
        }
    }
    if b >= 32 {
        match parse_string_raw(buf, pos + 1) {
            Some((mut tail, end)) => {
                tail.insert(0, b);
                proof {
                    assert(tail@ =~= seq![buf@[pos as int]] + tail@.drop_first());
                }
                return Some((tail, end));
            },
            None => {
                return None;
            },
        }
    }
    None
}

/// ASCII hexadecimal digit, either case.
fn hex_ok(b: u8) -> (r: bool)
    ensures
        r == is_hex(b),
{
    (48 <= b && b <= 57) || (97 <= b && b <= 102) || (65 <= b && b <= 70)
}

/// Value of an ASCII hexadecimal digit.
fn hex_value(b: u8) -> (r: u8)
    requires
        is_hex(b),
    ensures
        r as nat == hex_val(b),
        r < 16,
{
    if 48 <= b && b <= 57 {
        b - 48
    } else if 97 <= b && b <= 102 {
        b - 87
    } else {
        b - 55
    }
}

} // verus!

//! Reading bytes from whitespace-separated numeric text, and writing them back.
use vstd::prelude::*;

use crate::{Byte, ByteList, ConversionMode, EmptyListError, ParseByteError, PrintMode, TextError};

verus! {

/// The characters that separate tokens: Unicode's White_Space property.
pub open spec fn is_ws(c: char) -> bool {
    let u = c as u32;
    ||| 0x09 <= u <= 0x0D
    ||| u == 0x20
    ||| u == 0x85
    ||| u == 0xA0
    ||| u == 0x1680
    ||| 0x2000 <= u <= 0x200A
    ||| u == 0x2028
    ||| u == 0x2029
    ||| u == 0x202F
    ||| u == 0x205F
    ||| u == 0x3000
}

/// The maximal runs of non-whitespace characters of `s`, from left to right.
pub open spec fn words(s: Seq<char>) -> Seq<Seq<char>>
    decreases s.len(),
{
    if s.len() == 0 {
        seq![]
    } else {
        let w = words(s.drop_last());
        let c = s.last();
        if is_ws(c) {
            w
        } else if s.len() >= 2 && !is_ws(s[s.len() - 2]) {
            w.drop_last().push(w.last().push(c))
        } else {
            w.push(seq![c])
        }
    }
}

/// The value of a digit character in radix 36 (`0-9`, `a-z`, `A-Z`), or 36 for
/// any other character.
pub open spec fn digit_value(c: char) -> nat {
    let u = c as u32;
    if 0x30 <= u <= 0x39 {
        (u - 0x30) as nat
    } else if 0x61 <= u <= 0x7A {
        (u - 0x61 + 10) as nat
    } else if 0x41 <= u <= 0x5A {
        (u - 0x41 + 10) as nat
    } else {
        36
    }
}

/// Reads the digits `ds` from left to right onto the value `acc`, failing at the
/// first character that is no digit of `radix` or that takes the value past 255.
pub open spec fn fold_digits(ds: Seq<char>, radix: nat, acc: nat) -> Result<u8, ParseByteError>
    decreases ds.len(),
{
    if ds.len() == 0 {
        Ok(acc as u8)
    } else if digit_value(ds[0]) >= radix {
        Err(ParseByteError::InvalidDigit)
    } else if acc * radix + digit_value(ds[0]) > 255 {
        Err(ParseByteError::Overflow)
    } else {
        fold_digits(ds.drop_first(), radix, acc * radix + digit_value(ds[0]))
    }
}

/// A token read as an unsigned byte: an optional `+` sign, then digits of `radix`.
pub open spec fn parse_token(s: Seq<char>, radix: nat) -> Result<u8, ParseByteError> {
    if s.len() == 0 {
        Err(ParseByteError::Empty)
    } else if (s[0] == '+' || s[0] == '-') && s.len() == 1 {
        Err(ParseByteError::InvalidDigit)
    } else if s[0] == '+' {
        fold_digits(s.drop_first(), radix, 0)
    } else {
        fold_digits(s, radix, 0)
    }
}

/// Every token read as a byte; the leftmost token that fails gives the error.
pub open spec fn parse_words(ws: Seq<Seq<char>>, radix: nat) -> Result<Seq<u8>, ParseByteError>
    decreases ws.len(),
{
    if ws.len() == 0 {
        Ok(seq![])
    } else {
        match parse_words(ws.drop_last(), radix) {
            Err(e) => Err(e),
            Ok(v) => match parse_token(ws.last(), radix) {
                Err(e) => Err(e),
                Ok(b) => Ok(v.push(b)),
            },
        }
    }
}

/// What `parse_bytes` returns for the text `s`.
pub open spec fn parse_text(s: Seq<char>, radix: nat) -> Result<Seq<u8>, TextError> {
    if s.len() == 0 {
        Err(TextError::EmptyList(EmptyListError))
    } else {
        match parse_words(words(s), radix) {
            Ok(v) => Ok(v),
            Err(e) => Err(TextError::Parse(e)),
        }
    }
}

/// The sixteen lower-case digit characters, in order of value.
pub open spec fn digit_chars() -> Seq<char> {
    seq!['0', '1', '2', '3', '4', '5', '6', '7', '8', '9', 'a', 'b', 'c', 'd', 'e', 'f']
}

/// The lower-case digit character of a value below 16.
pub open spec fn digit_char(d: nat) -> char {
    digit_chars()[d as int]
}

/// The digits of `n` in `radix`, most significant first, without leading zeros.
pub open spec fn digits(n: nat, radix: nat) -> Seq<char>
    decreases n,
    via digits_decreases
{
    if n < radix || radix < 2 {
        seq![digit_char(n)]
    } else {
        digits(n / radix, radix).push(digit_char(n % radix))
    }
}

#[via_fn]
proof fn digits_decreases(n: nat, radix: nat) {
    if !(n < radix || radix < 2) {
        assert(n / radix < n) by (nonlinear_arith)
            requires n >= radix, radix >= 2;
    }
}

/// `k` zero characters.
pub open spec fn zeros(k: nat) -> Seq<char> {
    Seq::new(k, |i: int| '0')
}

/// A byte written in the radix of `mode`; in binary it is padded to eight digits.
pub open spec fn byte_text(b: u8, mode: PrintMode) -> Seq<char> {
    let d = digits(b as nat, mode.spec_radix() as nat);
    if mode == PrintMode::Binary && d.len() < 8 {
        zeros((8 - d.len()) as nat) + d
    } else {
        d
    }
}

/// The bytes `bs` written one by one and joined by single spaces.
pub open spec fn render(bs: Seq<u8>, mode: PrintMode) -> Seq<char>
    decreases bs.len(),
{
    if bs.len() == 0 {
        seq![]
    } else if bs.len() == 1 {
        byte_text(bs[0], mode)
    } else {
        render(bs.drop_last(), mode) + seq![' '] + byte_text(bs.last(), mode)
    }
}

fn is_whitespace(c: char) -> (r: bool)
    ensures
        r == is_ws(c),
{
    let u = c as u32;
    (0x09 <= u && u <= 0x0D) || u == 0x20 || u == 0x85 || u == 0xA0 || u == 0x1680 || (0x2000
        <= u && u <= 0x200A) || u == 0x2028 || u == 0x2029 || u == 0x202F || u == 0x205F || u
        == 0x3000
}

fn digit_of(c: char) -> (r: u32)
    ensures
        r == digit_value(c),
{
    let u = c as u32;
    if 0x30 <= u && u <= 0x39 {
        u - 0x30
    } else if 0x61 <= u && u <= 0x7A {
        u - 0x61 + 10
    } else if 0x41 <= u && u <= 0x5A {
        u - 0x41 + 10
    } else {
        36
    }
}

/// Reads the characters of one token as a byte in `radix`.
pub fn byte_from_chars(s: &Vec<char>, radix: u32) -> (r: Result<Byte, ParseByteError>)
    requires
        2 <= radix <= 36,
    ensures
        r == parse_token(s@, radix as nat),
{
    if s.len() == 0 {
        return Err(ParseByteError::Empty);
    }
    if (s[0] == '+' || s[0] == '-') && s.len() == 1 {
        return Err(ParseByteError::InvalidDigit);
    }
    let start: usize = if s[0] == '+' { 1 } else { 0 };
    let ghost ds = s@.skip(start as int);
    if start == 1 {
        assert(ds =~= s@.drop_first());
    } else {
        assert(ds =~= s@);
    }
    assert(parse_token(s@, radix as nat) == fold_digits(ds, radix as nat, 0));
    let mut acc: u32 = 0;
    let mut j: usize = start;
    while j < s.len()
        invariant
            start <= j <= s.len(),
            acc <= 255,
            ds == s@.skip(start as int),
            2 <= radix <= 36,
            parse_token(s@, radix as nat) == fold_digits(ds, radix as nat, 0),
            fold_digits(ds, radix as nat, 0) == fold_digits(s@.skip(j as int), radix as nat, acc as nat),
        decreases s.len() - j,
    {
        let ghost rest = s@.skip(j as int);
        assert(rest[0] == s@[j as int]);
        assert(rest.drop_first() =~= s@.skip(j + 1));
        let d = digit_of(s[j]);
        if d >= radix {
            assert(fold_digits(rest, radix as nat, acc as nat) == Err::<u8, ParseByteError>(
                ParseByteError::InvalidDigit,
            ));
            return Err(ParseByteError::InvalidDigit);
        }
        assert(acc * radix <= 255 * 36) by (nonlinear_arith)
            requires acc <= 255, radix <= 36;
        let next = acc * radix + d;
        assert(next as nat == acc as nat * radix as nat + digit_value(rest[0]));
        if next > 255 {
            assert(fold_digits(rest, radix as nat, acc as nat) == Err::<u8, ParseByteError>(
                ParseByteError::Overflow,
            ));
            return Err(ParseByteError::Overflow);
        }
        acc = next;
        j = j + 1;
    }
    assert(s@.skip(j as int).len() == 0);
    Ok(acc as u8)
}

/// Reads one token as a byte in the radix of `mode`.
pub fn byte_from_str(s: &str, mode: ConversionMode) -> (r: Result<Byte, ParseByteError>)
    ensures
        r == parse_token(s@, mode.spec_radix() as nat),
{
    let n = s.unicode_len();
    let mut cs: Vec<char> = Vec::new();
    let mut i: usize = 0;
    while i < n
        invariant
            n == s@.len(),
            i <= n,
            cs@ == s@.take(i as int),
        decreases n - i,
    {
        cs.push(s.get_char(i));
        i = i + 1;
        assert(cs@ =~= s@.take(i as int));
    }
    assert(cs@ =~= s@);
    byte_from_chars(&cs, mode.radix())
}

proof fn lemma_words_step(t: Seq<char>, c: char)
    ensures
        t.push(c).drop_last() == t,
        t.push(c).last() == c,
        t.len() >= 1 ==> t.push(c)[t.len() - 1] == t.last(),
{
    assert(t.push(c).drop_last() =~= t);
}

fn close_word(cur: &Vec<char>, radix: u32, out: &mut Vec<u8>, failed: &mut Option<ParseByteError>)
    requires
        2 <= radix <= 36,
    ensures
        match *old(failed) {
            Some(e) => *final(failed) == Some(e) && final(out)@ == old(out)@,
            None => match parse_token(cur@, radix as nat) {
                Ok(b) => *final(failed) is None && final(out)@ == old(out)@.push(b),
                Err(e) => *final(failed) == Some(e) && final(out)@ == old(out)@,
            },
        },
{
    if failed.is_none() {
        match byte_from_chars(cur, radix) {
            Ok(b) => out.push(b),
            Err(e) => *failed = Some(e),
        }
    }
}

/// Reads the whitespace-separated tokens of `src` as bytes in the radix of `mode`.
pub fn parse_bytes(src: &str, mode: ConversionMode) -> (r: Result<ByteList, TextError>)
    ensures
        match r {
            Ok(v) => parse_text(src@, mode.spec_radix() as nat) == Ok::<Seq<u8>, TextError>(v@),
            Err(e) => parse_text(src@, mode.spec_radix() as nat) == Err::<Seq<u8>, TextError>(e),
        },
{
    if src.is_empty() {
        return Err(TextError::EmptyList(EmptyListError));
    }
    let radix = mode.radix();
    let ghost s = src@;
    let n = src.unicode_len();
    let mut out: Vec<u8> = Vec::new();
    let mut failed: Option<ParseByteError> = None;
    let mut cur: Vec<char> = Vec::new();
    let ghost mut done: Seq<Seq<char>> = seq![];
    let mut i: usize = 0;
    assert(s.take(0) =~= Seq::<char>::empty());
    while i < n
        invariant
            s == src@,
            n == s.len(),
            i <= n,
            2 <= radix <= 36,
            radix == mode.spec_radix(),
            words(s.take(i as int)) == if cur@.len() == 0 {
                done
            } else {
                done.push(cur@)
            },
            cur@.len() > 0 <==> (i > 0 && !is_ws(s[i - 1])),
            match failed {
                None => parse_words(done, radix as nat) == Ok::<Seq<u8>, ParseByteError>(out@),
                Some(e) => parse_words(done, radix as nat) == Err::<Seq<u8>, ParseByteError>(e),
            },
        decreases n - i,
    {
        let c = src.get_char(i);
        let ghost t = s.take(i as int);
        assert(s.take(i + 1) =~= t.push(c));
        proof {
            lemma_words_step(t, c);
        }
        if is_whitespace(c) {
            if cur.len() > 0 {
                close_word(&cur, radix, &mut out, &mut failed);
                proof {
                    assert(done.push(cur@).drop_last() =~= done);
                    done = done.push(cur@);
                }
                cur = Vec::new();
            }
        } else {
            if cur.len() > 0 {
                assert(done.push(cur@).drop_last() =~= done);
            }
            cur.push(c);
            if cur.len() == 1 {
                assert(cur@ =~= seq![c]);
            }
        }
        i = i + 1;
    }
    assert(s.take(n as int) =~= s);
    if cur.len() > 0 {
        close_word(&cur, radix, &mut out, &mut failed);
        proof {
            assert(done.push(cur@).drop_last() =~= done);
            done = done.push(cur@);
        }
    }
    match failed {
        Some(e) => Err(TextError::Parse(e)),
        None => Ok(out),
    }
}

/// The one-character string of a digit below 16.
fn digit_str(d: u32) -> (r: &'static str)
    requires
        d < 16,
    ensures
        r@ == seq![digit_char(d as nat)],
{
    let all = "0123456789abcdef";
    proof {
        reveal_strlit("0123456789abcdef");
    }
    let r = all.substring_char(d as usize, d as usize + 1);
    assert(r@ =~= seq![digit_char(d as nat)]);
    r
}

fn push_digits(out: &mut String, n: u32, radix: u32)
    requires
        2 <= radix <= 16,
    ensures
        final(out)@ == old(out)@ + digits(n as nat, radix as nat),
    decreases n,
{
    if n >= radix {
        assert(n / radix < n) by (nonlinear_arith)
            requires n >= radix, radix >= 2;
        push_digits(out, n / radix, radix);
    }
    out.append(digit_str(n % radix));
    assert(digits(n as nat, radix as nat) == if n < radix {
        seq![digit_char(n as nat)]
    } else {
        digits((n / radix) as nat, radix as nat).push(digit_char((n % radix) as nat))
    });
    if n < radix {
        assert(n % radix == n) by (nonlinear_arith)
            requires n < radix, radix >= 2;
    }
}

impl PrintMode {
    /// The numeric radix of this mode.
    pub fn radix(self) -> (r: u32)
        ensures
            r == self.spec_radix(),
    {
        match self {
            PrintMode::Binary => 2,
            PrintMode::Hexadecimal => 16,
            PrintMode::Octal => 8,
            PrintMode::Decimal => 10,
        }
    }
}

/// Writes one byte in the radix of `mode`: lower-case digits without leading
/// zeros, except in binary, where it is padded with zeros to eight digits.
pub fn print_byte(b: Byte, mode: PrintMode) -> (r: String)
    ensures
        r@ == byte_text(b, mode),
{
    let mut d = String::new();
    push_digits(&mut d, b as u32, mode.radix());
    assert(d@ =~= digits(b as nat, mode.spec_radix() as nat));
    match mode {
        PrintMode::Binary => {
            let len = d.as_str().unicode_len();
            if len < 8 {
                let mut r = String::new();
                let mut k: usize = 0;
                while k < 8 - len
                    invariant
                        len < 8,
                        k <= 8 - len,
                        r@ == zeros(k as nat),
                    decreases 8 - len - k,
                {
                    proof {
                        reveal_strlit("0");
                    }
                    r.append("0");
                    k = k + 1;
                    assert(r@ =~= zeros(k as nat));
                }
                r.append(d.as_str());
                r
            } else {
                d
            }
        },
        _ => d,
    }
}

/// Writes the bytes of `src` in the radix of `mode`, joined by single spaces.
pub fn print_bytes(src: &[Byte], print_mode: PrintMode) -> (r: Result<String, TextError>)
    ensures
        src@.len() == 0 ==> r == Err::<String, TextError>(TextError::EmptyList(EmptyListError)),
        src@.len() > 0 ==> r is Ok && r->Ok_0@ == render(src@, print_mode),
{
    if src.len() == 0 {
        return Err(TextError::EmptyList(EmptyListError));
    }
    let mut out = print_byte(src[0], print_mode);
    assert(src@.take(1).drop_last() =~= Seq::<u8>::empty());
    let mut i: usize = 1;
    while i < src.len()
        invariant
            1 <= i <= src@.len(),
            out@ == render(src@.take(i as int), print_mode),
        decreases src@.len() - i,
    {
        proof {
            reveal_strlit(" ");
        }
        out.append(" ");
        let t = print_byte(src[i], print_mode);
        out.append(t.as_str());
        assert(src@.take(i + 1).drop_last() =~= src@.take(i as int));
        i = i + 1;
    }
    assert(src@.take(i as int) =~= src@);
    Ok(out)
}

/// A digit character is no whitespace, no sign, and reads back as its value.
proof fn lemma_digit_char(d: nat)
    requires
        d < 16,
    ensures
        digit_value(digit_char(d)) == d,
        !is_ws(digit_char(d)),
        digit_char(d) != '+',
        digit_char(d) != '-',
{
    assert(digit_char(d) == digit_chars()[d as int]);
    if d == 0 { assert(digit_char(d) == '0'); }
    else if d == 1 { assert(digit_char(d) == '1'); }
    else if d == 2 { assert(digit_char(d) == '2'); }
    else if d == 3 { assert(digit_char(d) == '3'); }
    else if d == 4 { assert(digit_char(d) == '4'); }
    else if d == 5 { assert(digit_char(d) == '5'); }
    else if d == 6 { assert(digit_char(d) == '6'); }
    else if d == 7 { assert(digit_char(d) == '7'); }
    else if d == 8 { assert(digit_char(d) == '8'); }
    else if d == 9 { assert(digit_char(d) == '9'); }
    else if d == 10 { assert(digit_char(d) == 'a'); }
    else if d == 11 { assert(digit_char(d) == 'b'); }
    else if d == 12 { assert(digit_char(d) == 'c'); }
    else if d == 13 { assert(digit_char(d) == 'd'); }
    else if d == 14 { assert(digit_char(d) == 'e'); }
    else { assert(digit_char(d) == 'f'); }
}
/// Reading one more digit after a prefix that reads without error.
proof fn lemma_fold_push(ds: Seq<char>, c: char, radix: nat, acc: nat, v: u8)
    requires
        acc <= 255,
        fold_digits(ds, radix, acc) == Ok::<u8, ParseByteError>(v),
        digit_value(c) < radix,
        v * radix + digit_value(c) <= 255,
    ensures
        fold_digits(ds.push(c), radix, acc) == Ok::<u8, ParseByteError>(
            (v * radix + digit_value(c)) as u8,
        ),
    decreases ds.len(),
{
    if ds.len() == 0 {
        assert(v as nat == acc);
        assert(v * radix == acc * radix);
        let next = acc * radix + digit_value(c);
        assert(ds.push(c).drop_first() =~= Seq::<char>::empty());
        assert(fold_digits(ds.push(c).drop_first(), radix, next) == Ok::<u8, ParseByteError>(
            next as u8,
        ));
    } else {
        let next = acc * radix + digit_value(ds[0]);
        assert(ds.push(c).drop_first() =~= ds.drop_first().push(c));
        assert(ds.push(c)[0] == ds[0]);
        lemma_fold_push(ds.drop_first(), c, radix, next, v);
    }
}

/// The digits of a byte read back as the byte.
proof fn lemma_digits(n: nat, radix: nat)
    requires
        n <= 255,
        2 <= radix <= 16,
    ensures
        digits(n, radix).len() > 0,
        forall|i: int|
            0 <= i < digits(n, radix).len() ==> digit_value(#[trigger] digits(n, radix)[i])
                < radix && !is_ws(digits(n, radix)[i]) && digits(n, radix)[i] != '+'
                && digits(n, radix)[i] != '-',
        fold_digits(digits(n, radix), radix, 0) == Ok::<u8, ParseByteError>(n as u8),
    decreases n,
{
    if n < radix {
        lemma_digit_char(n);
        let ds = seq![digit_char(n)];
        assert(digits(n, radix) == ds);
        assert(0 * radix == 0);
        assert(ds.drop_first() =~= Seq::<char>::empty());
        assert(fold_digits(ds.drop_first(), radix, n) == Ok::<u8, ParseByteError>(n as u8));
    } else {
        let q = n / radix;
        let d = n % radix;
        assert(q < n && q * radix + d == n && d < radix) by (nonlinear_arith)
            requires n >= radix, radix >= 2, q == n / radix, d == n % radix;
        lemma_digits(q, radix);
        lemma_digit_char(d);
        lemma_fold_push(digits(q, radix), digit_char(d), radix, 0, q as u8);
        assert(digits(n, radix) == digits(q, radix).push(digit_char(d)));
        assert((q as u8) * radix + digit_value(digit_char(d)) == n);
        let ds = digits(n, radix);
        assert forall|i: int| 0 <= i < ds.len() implies digit_value(#[trigger] ds[i]) < radix
            && !is_ws(ds[i]) && ds[i] != '+' && ds[i] != '-' by {
            if i < ds.len() - 1 {
                assert(ds[i] == digits(q, radix)[i]);
            }
        }
    }
}

/// Leading zeros do not change what digits read as.
proof fn lemma_fold_zeros(k: nat, ds: Seq<char>, radix: nat)
    requires
        2 <= radix,
    ensures
        fold_digits(zeros(k) + ds, radix, 0) == fold_digits(ds, radix, 0),
    decreases k,
{
    if k > 0 {
        lemma_digit_char(0);
        assert((zeros(k) + ds)[0] == '0');
        assert((zeros(k) + ds).drop_first() =~= zeros((k - 1) as nat) + ds);
        lemma_fold_zeros((k - 1) as nat, ds, radix);
    } else {
        assert(zeros(k) + ds =~= ds);
    }
}

/// A written byte is a single token that reads back as the byte.
proof fn lemma_byte_text(b: u8, mode: PrintMode)
    ensures
        byte_text(b, mode).len() > 0,
        forall|i: int| 0 <= i < byte_text(b, mode).len() ==> !is_ws(#[trigger] byte_text(b, mode)[i]),
        parse_token(byte_text(b, mode), mode.spec_radix() as nat) == Ok::<u8, ParseByteError>(b),
{
    let r = mode.spec_radix() as nat;
    let d = digits(b as nat, r);
    lemma_digits(b as nat, r);
    lemma_digit_char(0);
    if mode == PrintMode::Binary && d.len() < 8 {
        let k = (8 - d.len()) as nat;
        lemma_fold_zeros(k, d, r);
        assert forall|i: int| 0 <= i < (zeros(k) + d).len() implies !is_ws(
            #[trigger] (zeros(k) + d)[i],
        ) by {
            if i >= k {
                assert((zeros(k) + d)[i] == d[i - k]);
            }
        }
        assert((zeros(k) + d)[0] == '0');
    } else {
        assert(d[0] != '+' && d[0] != '-');
    }
}

/// Appending a run of non-whitespace after whitespace (or at the start) adds
/// one token.
proof fn lemma_words_append(a: Seq<char>, w: Seq<char>)
    requires
        a.len() == 0 || is_ws(a.last()),
        w.len() > 0,
        forall|i: int| 0 <= i < w.len() ==> !is_ws(#[trigger] w[i]),
    ensures
        words(a + w) == words(a).push(w),
    decreases w.len(),
{
    let s = a + w;
    let c = w.last();
    assert(!is_ws(w[w.len() - 1]));
    assert(s.drop_last() =~= a + w.drop_last());
    assert(s.last() == c);
    if w.len() == 1 {
        assert(a + w.drop_last() =~= a);
        if s.len() >= 2 {
            assert(s[s.len() - 2] == a.last());
        }
        assert(w =~= seq![c]);
    } else {
        let w2 = w.drop_last();
        assert forall|i: int| 0 <= i < w2.len() implies !is_ws(#[trigger] w2[i]) by {
            assert(w2[i] == w[i]);
        }
        lemma_words_append(a, w2);
        assert(s[s.len() - 2] == w[w.len() - 2]);
        assert(words(a).push(w2).drop_last() =~= words(a));
        assert(w2.push(c) =~= w);
    }
}

/// The tokens of a written byte sequence are the written bytes.
proof fn lemma_render_words(bs: Seq<u8>, mode: PrintMode)
    requires
        bs.len() > 0,
    ensures
        words(render(bs, mode)) == bs.map_values(|b: u8| byte_text(b, mode)),
    decreases bs.len(),
{
    let w = byte_text(bs.last(), mode);
    lemma_byte_text(bs.last(), mode);
    if bs.len() == 1 {
        lemma_words_append(seq![], w);
        assert(Seq::<char>::empty() + w =~= w);
        assert(words(Seq::<char>::empty()) =~= Seq::<Seq<char>>::empty());
        assert(bs.map_values(|b: u8| byte_text(b, mode)) =~= seq![w]);
    } else {
        let init = render(bs.drop_last(), mode);
        lemma_render_words(bs.drop_last(), mode);
        let a = init + seq![' '];
        assert(a =~= init.push(' '));
        assert(a.drop_last() =~= init);
        assert(is_ws(' '));
        lemma_words_append(a, w);
        assert(bs.map_values(|b: u8| byte_text(b, mode)) =~= bs.drop_last().map_values(
            |b: u8| byte_text(b, mode),
        ).push(w));
    }
}

/// The written bytes, read token by token, give the bytes back.
proof fn lemma_parse_words(bs: Seq<u8>, mode: PrintMode)
    ensures
        parse_words(bs.map_values(|b: u8| byte_text(b, mode)), mode.spec_radix() as nat) == Ok::<
            Seq<u8>,
            ParseByteError,
        >(bs),
    decreases bs.len(),
{
    let ws = bs.map_values(|b: u8| byte_text(b, mode));
    if bs.len() == 0 {
        assert(bs =~= Seq::<u8>::empty());
    } else {
        lemma_parse_words(bs.drop_last(), mode);
        lemma_byte_text(bs.last(), mode);
        assert(ws.drop_last() =~= bs.drop_last().map_values(|b: u8| byte_text(b, mode)));
        assert(bs.drop_last().push(bs.last()) =~= bs);
    }
}

/// Writing a non-empty byte sequence and reading it back in the same radix
/// gives the same bytes.
pub proof fn lemma_round_trip(bs: Seq<u8>, print_mode: PrintMode, mode: ConversionMode)
    requires
        bs.len() > 0,
        print_mode.spec_radix() == mode.spec_radix(),
    ensures
        parse_text(render(bs, print_mode), mode.spec_radix() as nat) == Ok::<Seq<u8>, TextError>(bs),
{
    lemma_render_words(bs, print_mode);
    lemma_parse_words(bs, print_mode);
    let ws = bs.map_values(|b: u8| byte_text(b, print_mode));
    assert(ws.len() > 0);
    if render(bs, print_mode).len() == 0 {
        assert(render(bs, print_mode) =~= Seq::<char>::empty());
    }
}

} // verus!

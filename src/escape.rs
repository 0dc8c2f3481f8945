//! Decoding of backslash escape sequences in quoted strings and character
//! literals.
//!
//! Decoding works on the UTF-8 bytes of the text. A backslash byte never occurs
//! inside the encoding of another character, so copying bytes is the same as
//! copying the characters they encode.

use crate::error::ErrorKind;
use vstd::string::StringSliceAdditionalSpecFns;
use vstd::prelude::*;

verus! {

pub open spec fn is_hex_digit(b: u8) -> bool {
    (0x30 <= b <= 0x39) || (0x41 <= b <= 0x46) || (0x61 <= b <= 0x66)
}

pub open spec fn is_oct_digit(b: u8) -> bool {
    0x30 <= b <= 0x37
}

/// The value of one digit byte, for digits of any radix up to 36.
pub open spec fn digit_value(b: u8) -> nat {
    if 0x30 <= b <= 0x39 {
        (b - 0x30) as nat
    } else if 0x41 <= b <= 0x5a {
        (b - 0x41 + 10) as nat
    } else if 0x61 <= b <= 0x7a {
        (b - 0x61 + 10) as nat
    } else {
        36
    }
}

/// The value of a string of digits, most significant first.
pub open spec fn digits_value(d: Seq<u8>, radix: nat) -> nat
    decreases d.len(),
{
    if d.len() == 0 {
        0
    } else {
        digits_value(d.drop_last(), radix) * radix + digit_value(d.last())
    }
}

/// How many hex digits (at most two) start at `i`.
pub open spec fn hex_run(s: Seq<u8>, i: int) -> int {
    if i < s.len() && is_hex_digit(s[i]) {
        if i + 1 < s.len() && is_hex_digit(s[i + 1]) {
            2
        } else {
            1
        }
    } else {
        0
    }
}

/// How many octal digits (at most three) start at `i`.
pub open spec fn oct_run(s: Seq<u8>, i: int) -> int {
    if i < s.len() && is_oct_digit(s[i]) {
        if i + 1 < s.len() && is_oct_digit(s[i + 1]) {
            if i + 2 < s.len() && is_oct_digit(s[i + 2]) {
                3
            } else {
                2
            }
        } else {
            1
        }
    } else {
        0
    }
}

/// The byte that a one-letter escape stands for, if `c` is such a letter.
pub open spec fn simple_escape(c: u8) -> Option<u8> {
    if c == 0x61 {
        Some(0x07u8)  // \a
    } else if c == 0x62 {
        Some(0x08u8)  // \b
    } else if c == 0x66 {
        Some(0x0cu8)  // \f
    } else if c == 0x6e {
        Some(0x0au8)  // \n
    } else if c == 0x72 {
        Some(0x0du8)  // \r
    } else if c == 0x74 {
        Some(0x09u8)  // \t
    } else if c == 0x76 {
        Some(0x0bu8)  // \v
    } else {
        None
    }
}

pub open spec fn prepend(p: Seq<u8>, r: Result<Seq<u8>, ErrorKind>) -> Result<Seq<u8>, ErrorKind> {
    match r {
        Ok(rest) => Ok(p + rest),
        Err(e) => Err(e),
    }
}

/// Decoding of `s` from byte `i` on.
pub open spec fn unescape_from(s: Seq<u8>, i: int) -> Result<Seq<u8>, ErrorKind>
    decreases s.len() - i,
{
    if i < 0 || i >= s.len() {
        Ok(Seq::empty())
    } else if s[i] != 0x5c {
        prepend(seq![s[i]], unescape_from(s, i + 1))
    } else if i + 1 >= s.len() {
        Err(ErrorKind::UnterminatedEscape((i + 1) as usize))
    } else {
        let c = s[i + 1];
        if simple_escape(c) is Some {
            prepend(seq![simple_escape(c)->0], unescape_from(s, i + 2))
        } else if c == 0x78 {
            let n = hex_run(s, i + 2);
            if n == 0 {
                Err(ErrorKind::BadHexEscape((i + 2) as usize))
            } else {
                let v = digits_value(s.subrange(i + 2, i + 2 + n), 16);
                prepend(seq![v as u8], unescape_from(s, i + 2 + n))
            }
        } else if is_oct_digit(c) {
            let n = oct_run(s, i + 1);
            let v = digits_value(s.subrange(i + 1, i + 1 + n), 8);
            if v > 255 {
                Err(ErrorKind::BadOctalEscape((i + 1) as usize))
            } else {
                prepend(seq![v as u8], unescape_from(s, i + 1 + n))
            }
        } else {
            prepend(seq![c], unescape_from(s, i + 2))
        }
    }
}

/// Decoding of a whole byte string.
pub open spec fn unescape_spec(s: Seq<u8>) -> Result<Seq<u8>, ErrorKind> {
    unescape_from(s, 0)
}

/// Decoding of a character literal: exactly one byte.
pub open spec fn unescape_char_spec(s: Seq<u8>) -> Result<u8, ErrorKind> {
    match unescape_spec(s) {
        Ok(r) => if r.len() == 1 {
            Ok(r[0])
        } else {
            Err(ErrorKind::CharLiteralLength(r.len() as usize))
        },
        Err(e) => Err(e),
    }
}

/// Text without a backslash decodes to itself.
pub proof fn lemma_unescape_plain(s: Seq<u8>, i: int)
    requires
        0 <= i <= s.len(),
        forall|j: int| i <= j < s.len() ==> s[j] != 0x5c,
    ensures
        unescape_from(s, i) == Ok::<Seq<u8>, ErrorKind>(s.subrange(i, s.len() as int)),
    decreases s.len() - i,
{
    if i < s.len() {
        assert(s[i] != 0x5c);
        lemma_unescape_plain(s, i + 1);
        assert(seq![s[i]] + s.subrange(i + 1, s.len() as int) =~= s.subrange(i, s.len() as int));
    } else {
        assert(s.subrange(i, s.len() as int) =~= Seq::<u8>::empty());
    }
}

/// Decoding is the identity on every text that holds no backslash.
pub proof fn lemma_unescape_no_backslash(s: Seq<u8>)
    requires
        !s.contains(0x5cu8),
    ensures
        unescape_spec(s) == Ok::<Seq<u8>, ErrorKind>(s),
{
    assert forall|j: int| 0 <= j < s.len() implies s[j] != 0x5c by {
        if s[j] == 0x5c {
            assert(s.contains(0x5cu8));
        }
    }
    lemma_unescape_plain(s, 0);
    assert(s.subrange(0, s.len() as int) =~= s);
}

proof fn lemma_digits_step(s: Seq<u8>, a: int, b: int, radix: nat)
    requires
        0 <= a <= b < s.len(),
    ensures
        digits_value(s.subrange(a, b + 1), radix) == digits_value(s.subrange(a, b), radix) * radix
            + digit_value(s[b]),
        digits_value(s.subrange(a, a), radix) == 0,
{
    assert(s.subrange(a, b + 1).drop_last() =~= s.subrange(a, b));
}

proof fn lemma_prepend_assoc(a: Seq<u8>, b: Seq<u8>, r: Result<Seq<u8>, ErrorKind>)
    ensures
        prepend(a, prepend(b, r)) == prepend(a + b, r),
{
    if let Ok(rest) = r {
        assert(a + (b + rest) =~= (a + b) + rest);
    }
}

fn hex_value(b: u8) -> (r: u8)
    requires
        is_hex_digit(b),
    ensures
        r as nat == digit_value(b),
        r < 16,
{
    if b <= 0x39 {
        b - 0x30
    } else if b <= 0x46 {
        b - 0x41 + 10
    } else {
        b - 0x61 + 10
    }
}

/// Decodes the escape sequences of `s`, the text between the quotes of a
/// string or character literal.
pub fn unescape(s: &str) -> (r: Result<Vec<u8>, ErrorKind>)
    ensures
        match r {
            Ok(v) => unescape_spec(s.spec_bytes()) == Ok::<Seq<u8>, ErrorKind>(v@),
            Err(e) => unescape_spec(s.spec_bytes()) == Err::<Seq<u8>, ErrorKind>(e),
        },
        !s.spec_bytes().contains(0x5cu8) ==> r is Ok && r->Ok_0@ == s.spec_bytes(),
        r matches Err(e) ==> e is UnterminatedEscape || e is BadHexEscape || e is BadOctalEscape,
{
    let b = s.as_bytes();
    let ghost sb = b@;
    let mut k: usize = 0;
    let mut plain = true;
    while k < b.len()
        invariant
            b@ == sb,
            sb == s.spec_bytes(),
            k <= sb.len(),
            plain == (forall|j: int| 0 <= j < k ==> sb[j] != 0x5c),
        decreases sb.len() - k,
    {
        if b[k] == 0x5c {
            plain = false;
        }
        k += 1;
    }
    if plain {
        proof {
            assert(!sb.contains(0x5cu8));
            lemma_unescape_no_backslash(sb);
        }
        return Ok(vstd::slice::slice_to_vec(b));
    }
    proof {
        let j = choose|j: int| 0 <= j < sb.len() && sb[j] == 0x5c;
        assert(sb.contains(0x5cu8));
        lemma_prepend_empty(sb);
    }
    let mut r: Vec<u8> = Vec::new();
    let mut i: usize = 0;
    while i < b.len()
        invariant
            b@ == sb,
            sb == s.spec_bytes(),
            i <= sb.len(),
            unescape_from(sb, 0) == prepend(r@, unescape_from(sb, i as int)),
        decreases sb.len() - i,
    {
        let ghost r0 = r@;
        let c = b[i];
        if c != 0x5c {
            proof {
                assert(unescape_from(sb, i as int) == prepend(seq![c], unescape_from(sb, i + 1)));
                lemma_prepend_assoc(r@, seq![c], unescape_from(sb, i + 1));
            }
            r.push(c);
            assert(r@ =~= r0 + seq![c]);
            i += 1;
            continue;
        }
        if i + 1 >= b.len() {
            assert(unescape_from(sb, i as int) == Err::<Seq<u8>, ErrorKind>(ErrorKind::UnterminatedEscape((i + 1) as usize)));
            return Err(ErrorKind::UnterminatedEscape(i + 1));
        }
        let e = b[i + 1];
        let simple: u8 = if e == 0x61 {
            0x07
        } else if e == 0x62 {
            0x08
        } else if e == 0x66 {
            0x0c
        } else if e == 0x6e {
            0x0a
        } else if e == 0x72 {
            0x0d
        } else if e == 0x74 {
            0x09
        } else if e == 0x76 {
            0x0b
        } else {
            0
        };
        if simple != 0 {
            proof {
                lemma_prepend_assoc(r@, seq![simple], unescape_from(sb, i + 2));
            }
            r.push(simple);
            assert(r@ =~= r0 + seq![simple]);
            i += 2;
        } else if e == 0x78 {
            let j = i + 2;
            if j >= b.len() || !(is_hex_byte(b[j])) {
                assert(unescape_from(sb, i as int) == Err::<Seq<u8>, ErrorKind>(ErrorKind::BadHexEscape(j)));
                return Err(ErrorKind::BadHexEscape(j));
            }
            let mut v: u8 = hex_value(b[j]);
            let mut n: usize = 1;
            if j + 1 < b.len() && is_hex_byte(b[j + 1]) {
                v = v * 16 + hex_value(b[j + 1]);
                n = 2;
            }
            proof {
                lemma_digits_step(sb, j as int, j as int, 16);
                if n == 2 {
                    lemma_digits_step(sb, j as int, j + 1, 16);
                }
                lemma_prepend_assoc(r@, seq![v], unescape_from(sb, j + n));
            }
            r.push(v);
            assert(r@ =~= r0 + seq![v]);
            i = j + n;
        } else if 0x30 <= e && e <= 0x37 {
            let j = i + 1;
            let mut v: u32 = (e - 0x30) as u32;
            let mut n: usize = 1;
            if j + 1 < b.len() && 0x30 <= b[j + 1] && b[j + 1] <= 0x37 {
                v = v * 8 + (b[j + 1] - 0x30) as u32;
                n = 2;
                if j + 2 < b.len() && 0x30 <= b[j + 2] && b[j + 2] <= 0x37 {
                    v = v * 8 + (b[j + 2] - 0x30) as u32;
                    n = 3;
                }
            }
            proof {
                let d = sb.subrange(j as int, j + n);
                assert(oct_run(sb, j as int) == n);
                lemma_digits_step(sb, j as int, j as int, 8);
                if n >= 2 {
                    lemma_digits_step(sb, j as int, j + 1, 8);
                }
                if n == 3 {
                    lemma_digits_step(sb, j as int, j + 2, 8);
                }
                assert(v as nat == digits_value(d, 8));
            }
            if v > 255 {
                assert(unescape_from(sb, i as int) == Err::<Seq<u8>, ErrorKind>(ErrorKind::BadOctalEscape(j)));
                return Err(ErrorKind::BadOctalEscape(j));
            }
            proof {
                lemma_prepend_assoc(r@, seq![v as u8], unescape_from(sb, j + n));
            }
            r.push(v as u8);
            assert(r@ =~= r0 + seq![v as u8]);
            i = j + n;
        } else {
            proof {
                lemma_prepend_assoc(r@, seq![e], unescape_from(sb, i + 2));
            }
            r.push(e);
            assert(r@ =~= r0 + seq![e]);
            i += 2;
        }
    }
    proof {
        assert(r@ + Seq::<u8>::empty() =~= r@);
    }
    Ok(r)
}

proof fn lemma_prepend_empty(s: Seq<u8>)
    ensures
        unescape_from(s, 0) == prepend(Seq::<u8>::empty(), unescape_from(s, 0)),
{
    if let Ok(rest) = unescape_from(s, 0) {
        assert(Seq::<u8>::empty() + rest =~= rest);
    }
}

fn is_hex_byte(b: u8) -> (r: bool)
    ensures
        r == is_hex_digit(b),
{
    (0x30 <= b && b <= 0x39) || (0x41 <= b && b <= 0x46) || (0x61 <= b && b <= 0x66)
}

/// Decodes a character literal, which must come to exactly one byte.
pub fn unescape_char(s: &str) -> (r: Result<u8, ErrorKind>)
    ensures
        r == unescape_char_spec(s.spec_bytes()),
        r matches Err(e) ==> e is UnterminatedEscape || e is BadHexEscape || e is BadOctalEscape
            || e is CharLiteralLength,
{
    let bytes = unescape(s)?;
    if bytes.len() == 1 {
        Ok(bytes[0])
    } else {
        Err(ErrorKind::CharLiteralLength(bytes.len()))
    }
}

} // verus!

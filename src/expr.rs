//! The integer expression language of cell values: unsigned 64-bit values,
//! C-like operators, lazy `?:`, and a choice between checked and wrapping
//! `+ - *`.

use crate::error::{at, not_missing, placed, Error, ErrorKind, Span};
use crate::escape::{digit_value, digits_value, unescape_char, unescape_char_spec};
use vstd::prelude::*;
use vstd::string::StringSliceAdditionalSpecFns;
use vstd::utf8::encode_utf8;

verus! {

#[derive(Debug, Clone, Copy, PartialEq, Eq, Structural)]
pub enum UnaryOp {
    LogicalNot,
    BitwiseNot,
    Negate,
}

#[derive(Debug, Clone, Copy, PartialEq, Eq, Structural)]
pub enum BinaryOp {
    Add,
    Sub,
    Mul,
    Div,
    Rem,
    Shl,
    Shr,
    BitAnd,
    BitOr,
    BitXor,
    LogicalAnd,
    LogicalOr,
    Lt,
    Gt,
    Le,
    Ge,
    Eq,
    Ne,
}

/// An expression as the parser hands it over: operator precedence is already
/// in the shape of the tree. `span` is where it stands in the source.
#[derive(Debug)]
pub struct Expr {
    pub kind: ExprKind,
    pub span: Span,
}

#[derive(Debug)]
pub enum ExprKind {
    /// A numeric literal, as written (`0x1f`, `017`, `10UL`).
    Number(String),
    /// A character literal: the text between the single quotes.
    Char(String),
    Unary(UnaryOp, Box<Expr>),
    Binary(BinaryOp, Box<Expr>, Box<Expr>),
    /// `cond ? then : otherwise`.
    Ternary(Box<Expr>, Box<Expr>, Box<Expr>),
}

/// `d` with any run of trailing `U` and `L` removed (lower case ones stay).
pub open spec fn strip_int_suffix(d: Seq<u8>) -> Seq<u8>
    decreases d.len(),
{
    if d.len() > 0 && (d.last() == 0x55 || d.last() == 0x4c) {
        strip_int_suffix(d.drop_last())
    } else {
        d
    }
}

pub open spec fn all_digits(d: Seq<u8>, radix: nat) -> bool {
    forall|i: int| 0 <= i < d.len() ==> digit_value(#[trigger] d[i]) < radix
}

/// Reading an unsigned integer in a radix: an optional `+`, then at least one
/// digit, and a value that fits in 64 bits.
pub open spec fn from_radix_spec(d: Seq<u8>, radix: nat) -> Option<u64> {
    let ds = if d.len() > 0 && d[0] == 0x2b {
        d.subrange(1, d.len() as int)
    } else {
        d
    };
    if ds.len() > 0 && all_digits(ds, radix) && digits_value(ds, radix) <= u64::MAX {
        Some(digits_value(ds, radix) as u64)
    } else {
        None
    }
}

/// C's rules for an integer literal: `0`, `0x`/`0X` hex, leading `0` octal,
/// else decimal.
pub open spec fn parse_int_spec(s: Seq<u8>) -> Option<u64> {
    if s =~= seq![0x30u8] {
        Some(0)
    } else if s.len() >= 2 && s[0] == 0x30 && (s[1] == 0x78 || s[1] == 0x58) {
        from_radix_spec(s.subrange(2, s.len() as int), 16)
    } else if s.len() >= 1 && s[0] == 0x30 {
        from_radix_spec(s.subrange(1, s.len() as int), 8)
    } else {
        from_radix_spec(s, 10)
    }
}

pub open spec fn number_spec(s: Seq<u8>) -> Result<u64, ErrorKind> {
    match parse_int_spec(strip_int_suffix(s)) {
        Some(v) => Ok(v),
        None => Err(ErrorKind::BadNumericLiteral),
    }
}

pub open spec fn flag(b: bool) -> u64 {
    if b {
        1
    } else {
        0
    }
}

/// `+ - *` under the overflow policy: checked fails, wrapping wraps.
pub open spec fn arith_spec(exact: int, wrapped: u64, wrapping: bool) -> Result<u64, ErrorKind> {
    if 0 <= exact <= u64::MAX {
        Ok(exact as u64)
    } else if wrapping {
        Ok(wrapped)
    } else {
        Err(ErrorKind::ArithmeticOverflow)
    }
}

pub open spec fn binary_spec(op: BinaryOp, l: u64, r: u64, wrapping: bool) -> Result<u64, ErrorKind> {
    match op {
        BinaryOp::Add => arith_spec(l + r, l.wrapping_add(r), wrapping),
        BinaryOp::Sub => arith_spec(l - r, l.wrapping_sub(r), wrapping),
        BinaryOp::Mul => arith_spec(l * r, l.wrapping_mul(r), wrapping),
        BinaryOp::Div => if r == 0 {
            Err(ErrorKind::DivisionByZero)
        } else {
            Ok(l / r)
        },
        BinaryOp::Rem => if r == 0 {
            Err(ErrorKind::DivisionByZero)
        } else {
            Ok(l % r)
        },
        BinaryOp::Shl => Ok(
            if r < 64 {
                l << r
            } else {
                0
            },
        ),
        BinaryOp::Shr => Ok(
            if r < 64 {
                l >> r
            } else {
                0
            },
        ),
        BinaryOp::BitAnd => Ok(l & r),
        BinaryOp::BitOr => Ok(l | r),
        BinaryOp::BitXor => Ok(l ^ r),
        BinaryOp::LogicalAnd => Ok(flag(l != 0 && r != 0)),
        BinaryOp::LogicalOr => Ok(flag(l != 0 || r != 0)),
        BinaryOp::Lt => Ok(flag(l < r)),
        BinaryOp::Gt => Ok(flag(l > r)),
        BinaryOp::Le => Ok(flag(l <= r)),
        BinaryOp::Ge => Ok(flag(l >= r)),
        BinaryOp::Eq => Ok(flag(l == r)),
        BinaryOp::Ne => Ok(flag(l != r)),
    }
}

pub open spec fn unary_spec(op: UnaryOp, v: u64) -> u64 {
    match op {
        UnaryOp::LogicalNot => flag(v == 0),
        UnaryOp::BitwiseNot => !v,
        UnaryOp::Negate => 0u64.wrapping_sub(v),
    }
}

/// The value of an expression. Both operands of a binary operator are
/// evaluated; of `?:` only the chosen branch is.
pub open spec fn eval_spec(e: Expr, wrapping: bool) -> Result<u64, Error>
    decreases e,
{
    match e.kind {
        ExprKind::Number(s) => placed(number_spec(encode_utf8(s@)), e.span),
        ExprKind::Char(s) => match unescape_char_spec(encode_utf8(s@)) {
            Ok(b) => Ok(b as u64),
            Err(k) => Err(at(k, e.span)),
        },
        ExprKind::Unary(op, a) => match eval_spec(*a, wrapping) {
            Ok(v) => Ok(unary_spec(op, v)),
            Err(err) => Err(err),
        },
        ExprKind::Binary(op, a, b) => match eval_spec(*a, wrapping) {
            Ok(l) => match eval_spec(*b, wrapping) {
                Ok(r) => placed(binary_spec(op, l, r, wrapping), e.span),
                Err(err) => Err(err),
            },
            Err(err) => Err(err),
        },
        ExprKind::Ternary(c, a, b) => match eval_spec(*c, wrapping) {
            Ok(v) => if v != 0 {
                eval_spec(*a, wrapping)
            } else {
                eval_spec(*b, wrapping)
            },
            Err(err) => Err(err),
        },
    }
}

/// Applies a binary operator. `wrapping` selects wrapping `+ - *` in place of
/// failing on overflow.
pub fn eval_binary_op(left: u64, op: BinaryOp, right: u64, wrapping: bool) -> (r: Result<
    u64,
    ErrorKind,
>)
    ensures
        r == binary_spec(op, left, right, wrapping),
{
    match op {
        BinaryOp::Add => match left.checked_add(right) {
            Some(v) => Ok(v),
            None => if wrapping {
                Ok(left.wrapping_add(right))
            } else {
                Err(ErrorKind::ArithmeticOverflow)
            },
        },
        BinaryOp::Sub => match left.checked_sub(right) {
            Some(v) => Ok(v),
            None => if wrapping {
                Ok(left.wrapping_sub(right))
            } else {
                Err(ErrorKind::ArithmeticOverflow)
            },
        },
        BinaryOp::Mul => match left.checked_mul(right) {
            Some(v) => Ok(v),
            None => if wrapping {
                Ok(left.wrapping_mul(right))
            } else {
                Err(ErrorKind::ArithmeticOverflow)
            },
        },
        BinaryOp::Div => if right == 0 {
            Err(ErrorKind::DivisionByZero)
        } else {
            Ok(left / right)
        },
        BinaryOp::Rem => if right == 0 {
            Err(ErrorKind::DivisionByZero)
        } else {
            Ok(left % right)
        },
        BinaryOp::Shl => Ok(
            if right < 64 {
                left << right
            } else {
                0
            },
        ),
        BinaryOp::Shr => Ok(
            if right < 64 {
                left >> right
            } else {
                0
            },
        ),
        BinaryOp::BitAnd => Ok(left & right),
        BinaryOp::BitOr => Ok(left | right),
        BinaryOp::BitXor => Ok(left ^ right),
        BinaryOp::LogicalAnd => Ok(if left != 0 && right != 0 { 1 } else { 0 }),
        BinaryOp::LogicalOr => Ok(if left != 0 || right != 0 { 1 } else { 0 }),
        BinaryOp::Lt => Ok(if left < right { 1 } else { 0 }),
        BinaryOp::Gt => Ok(if left > right { 1 } else { 0 }),
        BinaryOp::Le => Ok(if left <= right { 1 } else { 0 }),
        BinaryOp::Ge => Ok(if left >= right { 1 } else { 0 }),
        BinaryOp::Eq => Ok(if left == right { 1 } else { 0 }),
        BinaryOp::Ne => Ok(if left != right { 1 } else { 0 }),
    }
}

fn digit_of(b: u8) -> (r: u8)
    ensures
        r as nat == digit_value(b),
{
    if 0x30 <= b && b <= 0x39 {
        b - 0x30
    } else if 0x41 <= b && b <= 0x5a {
        b - 0x41 + 10
    } else if 0x61 <= b && b <= 0x7a {
        b - 0x61 + 10
    } else {
        36
    }
}

proof fn lemma_digits_prefix(d: Seq<u8>, k: int, radix: nat)
    requires
        0 <= k < d.len(),
        radix >= 1,
    ensures
        digits_value(d.subrange(0, k + 1), radix) == digits_value(d.subrange(0, k), radix) * radix
            + digit_value(d[k]),
        digits_value(d.subrange(0, k), radix) <= digits_value(d.subrange(0, k + 1), radix),
{
    assert(d.subrange(0, k + 1).drop_last() =~= d.subrange(0, k));
    let a = digits_value(d.subrange(0, k), radix);
    assert(a <= a * radix) by (nonlinear_arith)
        requires
            radix >= 1,
    ;
}

proof fn lemma_digits_monotone(d: Seq<u8>, k: int, radix: nat)
    requires
        0 <= k <= d.len(),
        radix >= 1,
    ensures
        digits_value(d.subrange(0, k), radix) <= digits_value(d, radix),
    decreases d.len() - k,
{
    if k < d.len() {
        lemma_digits_prefix(d, k, radix);
        lemma_digits_monotone(d, k + 1, radix);
    } else {
        assert(d.subrange(0, k) =~= d);
    }
}

/// Reads `d[start..]` as digits of `radix`, as `u64::from_str_radix` does.
fn from_radix(d: &[u8], start: usize, radix: u8) -> (r: Option<u64>)
    requires
        start <= d@.len(),
        2 <= radix <= 36,
    ensures
        r == from_radix_spec(d@.subrange(start as int, d@.len() as int), radix as nat),
{
    let ghost full = d@.subrange(start as int, d@.len() as int);
    let mut i = start;
    if i < d.len() && d[i] == 0x2b {
        i += 1;
    }
    let ghost ds = d@.subrange(i as int, d@.len() as int);
    proof {
        if full.len() > 0 && full[0] == 0x2b {
            assert(ds =~= full.subrange(1, full.len() as int));
        } else {
            assert(ds =~= full);
        }
    }
    if i >= d.len() {
        return None;
    }
    let first = i;
    let mut acc: u64 = 0;
    proof {
        assert(d@.subrange(first as int, first as int).len() == 0);
    }
    while i < d.len()
        invariant
            first <= i <= d@.len(),
            full == d@.subrange(start as int, d@.len() as int),
            ds.len() > 0,
            from_radix_spec(full, radix as nat) == (if all_digits(ds, radix as nat) && digits_value(
                ds,
                radix as nat,
            ) <= u64::MAX {
                Some(digits_value(ds, radix as nat) as u64)
            } else {
                None
            }),
            ds == d@.subrange(first as int, d@.len() as int),
            2 <= radix <= 36,
            all_digits(d@.subrange(first as int, i as int), radix as nat),
            acc as nat == digits_value(d@.subrange(first as int, i as int), radix as nat),
        decreases d@.len() - i,
    {
        let ghost k = (i - first) as int;
        proof {
            assert(ds.subrange(0, k) =~= d@.subrange(first as int, i as int));
            assert(ds.subrange(0, k + 1) =~= d@.subrange(first as int, i + 1));
            lemma_digits_prefix(ds, k, radix as nat);
        }
        let v = digit_of(d[i]);
        if v >= radix {
            proof {
                assert(ds[k] == d@[i as int]);
            }
            return None;
        }
        let m = acc.checked_mul(radix as u64);
        match m {
            None => {
                proof {
                    lemma_digits_monotone(ds, k + 1, radix as nat);
                }
                return None;
            },
            Some(m) => match m.checked_add(v as u64) {
                None => {
                    proof {
                        lemma_digits_monotone(ds, k + 1, radix as nat);
                    }
                    return None;
                },
                Some(n) => {
                    acc = n;
                },
            },
        }
        i += 1;
        proof {
            assert forall|j: int| 0 <= j < d@.subrange(first as int, i as int).len() implies digit_value(
                #[trigger] d@.subrange(first as int, i as int)[j],
            ) < radix as nat by {
                if j < k {
                    assert(d@.subrange(first as int, i as int)[j] == d@.subrange(
                        first as int,
                        i - 1,
                    )[j]);
                }
            }
        }
    }
    proof {
        assert(d@.subrange(first as int, i as int) =~= ds);
    }
    Some(acc)
}

/// Reads an integer literal with C's radix prefixes.
pub fn parse_int(s: &[u8]) -> (r: Option<u64>)
    ensures
        r == parse_int_spec(s@),
{
    if s.len() == 1 && s[0] == 0x30 {
        assert(s@ =~= seq![0x30u8]);
        return Some(0);
    }
    proof {
        if s@ =~= seq![0x30u8] {
            assert(s@.len() == 1);
        }
    }
    if s.len() >= 2 && s[0] == 0x30 && (s[1] == 0x78 || s[1] == 0x58) {
        from_radix(s, 2, 16)
    } else if s.len() >= 1 && s[0] == 0x30 {
        from_radix(s, 1, 8)
    } else {
        proof {
            assert(s@.subrange(0, s@.len() as int) =~= s@);
        }
        from_radix(s, 0, 10)
    }
}

/// The value of a numeric literal: trailing `U` and `L` are dropped, then the
/// rest is read as [`parse_int`] does.
pub fn eval_number(s: &str) -> (r: Result<u64, ErrorKind>)
    ensures
        r == number_spec(s.spec_bytes()),
        r is Err ==> r->Err_0 is BadNumericLiteral,
{
    let b = s.as_bytes();
    let mut end = b.len();
    proof {
        assert(b@.subrange(0, end as int) =~= b@);
    }
    while end > 0 && (b[end - 1] == 0x55 || b[end - 1] == 0x4c)
        invariant
            end <= b@.len(),
            strip_int_suffix(b@) == strip_int_suffix(b@.subrange(0, end as int)),
        decreases end,
    {
        proof {
            assert(b@.subrange(0, end as int).drop_last() =~= b@.subrange(0, end - 1));
        }
        end -= 1;
    }
    let digits = vstd::slice::slice_subrange(b, 0, end);
    proof {
        assert(b@.subrange(0, end as int) =~= digits@);
        if end > 0 {
            assert(digits@.last() == b@[end - 1]);
        }
    }
    match parse_int(digits) {
        Some(v) => Ok(v),
        None => Err(ErrorKind::BadNumericLiteral),
    }
}

/// Under checked arithmetic, `a + b` is the sum of the operands' values when
/// it fits in 64 bits, and fails with an overflow error at the sum when it
/// does not.
pub proof fn lemma_add_checked(a: Expr, b: Expr, span: Span, x: u64, y: u64)
    requires
        eval_spec(a, false) == Ok::<u64, Error>(x),
        eval_spec(b, false) == Ok::<u64, Error>(y),
    ensures
        eval_spec(
            Expr { kind: ExprKind::Binary(BinaryOp::Add, Box::new(a), Box::new(b)), span },
            false,
        ) == if x + y <= u64::MAX {
            Ok::<u64, Error>((x + y) as u64)
        } else {
            Err(at(ErrorKind::ArithmeticOverflow, span))
        },
{
}

/// `c ? t : f` with `c` non-zero is `t`, whatever `f` would give, an error
/// included: the branch not taken is not evaluated.
pub proof fn lemma_ternary_lazy(c: Expr, t: Expr, f: Expr, span: Span, wrapping: bool)
    requires
        eval_spec(c, wrapping) is Ok,
        eval_spec(c, wrapping)->Ok_0 != 0,
    ensures
        eval_spec(
            Expr { kind: ExprKind::Ternary(Box::new(c), Box::new(t), Box::new(f)), span },
            wrapping,
        ) == eval_spec(t, wrapping),
{
}

impl Expr {
    /// Evaluates the expression; `wrapping` selects wrapping `+ - *` in place
    /// of failing with [`ErrorKind::ArithmeticOverflow`].
    pub fn eval(&self, wrapping: bool) -> (r: Result<u64, Error>)
        ensures
            r == eval_spec(*self, wrapping),
            not_missing(r),
        decreases self,
    {
        match &self.kind {
            ExprKind::Number(s) => match eval_number(s.as_str()) {
                Ok(v) => Ok(v),
                Err(k) => Err(Error { kind: k, span: Some(self.span) }),
            },
            ExprKind::Char(s) => match unescape_char(s.as_str()) {
                Ok(b) => Ok(b as u64),
                Err(k) => Err(Error { kind: k, span: Some(self.span) }),
            },
            ExprKind::Unary(op, a) => {
                let v = a.eval(wrapping)?;
                match op {
                    UnaryOp::LogicalNot => Ok(if v == 0 { 1 } else { 0 }),
                    UnaryOp::BitwiseNot => Ok(!v),
                    // Devicetree arithmetic is unsigned: negation wraps.
                    UnaryOp::Negate => Ok(0u64.wrapping_sub(v)),
                }
            },
            ExprKind::Binary(op, a, b) => {
                let l = a.eval(wrapping)?;
                let r = b.eval(wrapping)?;
                match eval_binary_op(l, *op, r, wrapping) {
                    Ok(v) => Ok(v),
                    Err(k) => Err(Error { kind: k, span: Some(self.span) }),
                }
            },
            ExprKind::Ternary(c, a, b) => {
                let v = c.eval(wrapping)?;
                if v != 0 {
                    a.eval(wrapping)
                } else {
                    b.eval(wrapping)
                }
            },
        }
    }
}

} // verus!

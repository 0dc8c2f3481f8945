//! The errors reported by the evaluation pass.

use vstd::prelude::*;

verus! {

/// A byte range of the source text.
#[derive(Debug, Clone, Copy, PartialEq, Eq, Structural)]
pub struct Span {
    pub start: usize,
    pub end: usize,
}

/// What went wrong. Offsets are byte offsets into the text of the literal
/// that was being decoded.
#[derive(Debug, PartialEq, Eq)]
pub enum ErrorKind {
    /// A backslash with nothing after it.
    UnterminatedEscape(usize),
    /// `\x` not followed by a hex digit.
    BadHexEscape(usize),
    /// An octal escape whose value does not fit in a byte.
    BadOctalEscape(usize),
    /// A character literal that does not decode to exactly one byte; holds the
    /// number of bytes it decoded to.
    CharLiteralLength(usize),
    /// A numeric literal that cannot be read as a 64-bit unsigned integer.
    BadNumericLiteral,
    /// `+`, `-` or `*` overflowed under checked arithmetic.
    ArithmeticOverflow,
    /// `/` or `%` with a zero divisor.
    DivisionByZero,
    /// A `/bits/` prefix whose value is not 8, 16, 32 or 64.
    BadBitWidth(u64),
    /// A node reference used as a cell under a width other than 32 bits.
    PhandleNeedsBits32(u64),
    /// A label that no node carries.
    UnknownLabel(String),
    /// A path that names no node of the tree.
    NoSuchNode,
    /// An explicit `phandle` property that is not 4 bytes, or holds 0 or 0xffffffff.
    BadPhandle,
    /// A `phandle` property given as an expression (a possible self-reference).
    PhandleSelfReference,
    /// More nodes are referenced than there are phandle values.
    TooManyPhandles,
    /// A referenced node that was given no phandle. `eval` is proved never to
    /// return it: every node that a cell refers to is given one.
    MissingPhandle,
    /// `/incbin/` is not supported.
    IncbinUnimplemented,
}

/// An error found while evaluating a tree, with the part of the source it
/// is about, where there is one.
#[derive(Debug, PartialEq, Eq)]
pub struct Error {
    pub kind: ErrorKind,
    pub span: Option<Span>,
}

/// The error `kind` about source range `span`.
pub open spec fn at(kind: ErrorKind, span: Span) -> Error {
    Error { kind, span: Some(span) }
}

/// `r` with an error `kind` placed at `span`.
pub open spec fn placed<T>(r: Result<T, ErrorKind>, span: Span) -> Result<T, Error> {
    match r {
        Ok(v) => Ok(v),
        Err(k) => Err(at(k, span)),
    }
}

/// `r` is not the error of a referenced node without a handle.
pub open spec fn not_missing<T>(r: Result<T, Error>) -> bool {
    !(r is Err && r->Err_0.kind is MissingPhandle)
}

impl ErrorKind {
    /// A message for people.
    pub fn message(&self) -> (r: &'static str) {
        match self {
            ErrorKind::UnterminatedEscape(_) => "unterminated escape sequence",
            ErrorKind::BadHexEscape(_) => "bad hex escape sequence",
            ErrorKind::BadOctalEscape(_) => "bad octal escape sequence",
            ErrorKind::CharLiteralLength(_) => "char literal should be one byte",
            ErrorKind::BadNumericLiteral => "bad numeric literal",
            ErrorKind::ArithmeticOverflow => "arithmetic overflow",
            ErrorKind::DivisionByZero => "division by zero",
            ErrorKind::BadBitWidth(_) => "bad bit width: must be 8, 16, 32, or 64",
            ErrorKind::PhandleNeedsBits32(_) => "phandle references need /bits/ == 32",
            ErrorKind::UnknownLabel(_) => "unknown label",
            ErrorKind::NoSuchNode => "no node at this path",
            ErrorKind::BadPhandle => "phandle must be 4 bytes, neither 0 nor 0xffffffff",
            ErrorKind::PhandleSelfReference => "phandle self-reference unimplemented",
            ErrorKind::TooManyPhandles => "too many phandles",
            ErrorKind::MissingPhandle => "referenced node has no phandle",
            ErrorKind::IncbinUnimplemented => "/incbin/ unimplemented",
        }
    }
}

} // verus!

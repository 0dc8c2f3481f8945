//! Evaluation of property values to bytes, and the conversion of the
//! evaluated tree to plain [`Node`]s.

use crate::error::{at, not_missing, Error, ErrorKind, Span};
use crate::escape::{unescape, unescape_spec};
use crate::expr::{eval_number, eval_spec, from_radix_spec, number_spec, parse_int, Expr};
use crate::phandle::{
    assign_phandles, assign_spec, cell_collected, cells_collected, prop_collected, refs_collected,
    table_is, table_wf, PhandleTable,
};
use crate::tree::{
    path_bytes, push_all, push_path_bytes, resolve, resolve_spec, Cell, Cells, LabelMap, Literal,
    PropValue, Reference, TempNode, TempProperty, TempValue, Value,
};
use crate::{Node, Property};
use vstd::prelude::*;
use vstd::utf8::encode_utf8;

verus! {

/// A cell value that did not fit its width: the bits above the width were
/// not all equal. Its low bits were still emitted.
#[derive(Debug, Clone, Copy, PartialEq, Eq, Structural)]
pub struct Truncation {
    pub value: u64,
    pub bits: u64,
    pub span: Span,
}

impl Truncation {
    /// The value as emitted: its low `bits` bits.
    pub fn emitted(&self) -> (r: u64)
        requires
            self.bits < 64,
        ensures
            r == self.value % (1u64 << self.bits),
    {
        let b = self.bits;
        let m: u64 = 1u64 << b;
        assert(m != 0) by (bit_vector)
            requires
                m == 1u64 << b,
                b < 64,
        ;
        self.value % m
    }
}

/// The `len` low-order bytes of `v`, most significant first.
pub open spec fn be_bytes(v: nat, len: nat) -> Seq<u8>
    decreases len,
{
    if len == 0 {
        Seq::empty()
    } else {
        be_bytes(v / 256, (len - 1) as nat).push((v % 256) as u8)
    }
}

/// Whether `n` loses information at `bits` bits: the bits from `bits` up are
/// not all zeros and not all ones.
pub open spec fn truncates(n: u64, bits: u64) -> bool {
    bits < 64 && (n >> bits) != 0 && (n >> bits) != (0xffff_ffff_ffff_ffffu64 >> bits)
}

/// The width given by `/bits/`, 32 when there is none.
pub open spec fn bits_spec(bits: Option<Literal>) -> Result<u64, Error> {
    match bits {
        None => Ok(32),
        Some(t) => match number_spec(encode_utf8(t.text@)) {
            Ok(n) => if n == 8 || n == 16 || n == 32 || n == 64 {
                Ok(n)
            } else {
                Err(at(ErrorKind::BadBitWidth(n), t.span))
            },
            Err(k) => Err(at(k, t.span)),
        },
    }
}

/// The first index at or after `i` of path `p` in the table.
pub open spec fn table_index_from(t: PhandleTable, p: Seq<Seq<char>>, i: int) -> Option<int>
    decreases t.targets@.len() - i,
{
    if i < 0 || i >= t.targets@.len() {
        None
    } else if t.targets@[i].deep_view() == p {
        Some(i)
    } else {
        table_index_from(t, p, i + 1)
    }
}

/// The bytes of one cell at width `bits`.
#[verifier::opaque]
pub open spec fn cell_spec(
    labels: LabelMap,
    root: TempNode,
    t: PhandleTable,
    c: Cell,
    bits: u64,
    wrapping: bool,
) -> Result<Seq<u8>, Error> {
    match c {
        Cell::NodeReference(r) => match resolve_spec(labels, root, r) {
            Ok(p) => if bits != 32 {
                Err(at(ErrorKind::PhandleNeedsBits32(bits), r.span))
            } else {
                match table_index_from(t, p, 0) {
                    Some(i) => Ok(be_bytes(t.values@[i] as nat, 4)),
                    None => Err(at(ErrorKind::MissingPhandle, r.span)),
                }
            },
            Err(e) => Err(e),
        },
        Cell::Expr(e) => match eval_spec(e, wrapping) {
            Ok(n) => Ok(be_bytes(n as nat, (bits / 8) as nat)),
            Err(e) => Err(e),
        },
    }
}

/// The bytes of the first `k` cells, stopping at the first error.
pub open spec fn cells_spec(
    labels: LabelMap,
    root: TempNode,
    t: PhandleTable,
    cells: Seq<Cell>,
    bits: u64,
    wrapping: bool,
    k: int,
) -> Result<Seq<u8>, Error>
    decreases k,
{
    if k <= 0 {
        Ok(Seq::empty())
    } else {
        match cells_spec(labels, root, t, cells, bits, wrapping, k - 1) {
            Ok(a) => match cell_spec(labels, root, t, cells[k - 1], bits, wrapping) {
                Ok(b) => Ok(a + b),
                Err(e) => Err(e),
            },
            Err(e) => Err(e),
        }
    }
}

/// One hex byte of a byte string.
#[verifier::opaque]
pub open spec fn hex_byte_spec(h: Literal) -> Result<u8, Error> {
    match from_radix_spec(encode_utf8(h.text@), 16) {
        Some(v) => if v <= 255 {
            Ok(v as u8)
        } else {
            Err(at(ErrorKind::BadNumericLiteral, h.span))
        },
        None => Err(at(ErrorKind::BadNumericLiteral, h.span)),
    }
}

/// The first `k` bytes of a byte string.
pub open spec fn hex_bytes_spec(hs: Seq<Literal>, k: int) -> Result<Seq<u8>, Error>
    decreases k,
{
    if k <= 0 {
        Ok(Seq::empty())
    } else {
        match hex_bytes_spec(hs, k - 1) {
            Ok(a) => match hex_byte_spec(hs[k - 1]) {
                Ok(b) => Ok(a.push(b)),
                Err(e) => Err(e),
            },
            Err(e) => Err(e),
        }
    }
}

/// The bytes of one part of a property value.
#[verifier::opaque]
pub open spec fn value_spec(
    labels: LabelMap,
    root: TempNode,
    t: PhandleTable,
    v: Value,
    wrapping: bool,
) -> Result<Seq<u8>, Error> {
    match v {
        Value::Cells(c) => match bits_spec(c.bits) {
            Ok(bits) => cells_spec(labels, root, t, c.cells@, bits, wrapping, c.cells@.len() as int),
            Err(e) => Err(e),
        },
        Value::QuotedString(s) => match unescape_spec(encode_utf8(s.text@)) {
            Ok(b) => Ok(b.push(0)),
            Err(k) => Err(at(k, s.span)),
        },
        Value::NodeReference(r) => match resolve_spec(labels, root, r) {
            Ok(p) => Ok(path_bytes(p).push(0)),
            Err(e) => Err(e),
        },
        Value::ByteString(hs) => hex_bytes_spec(hs@, hs@.len() as int),
        Value::Incbin(span) => Err(at(ErrorKind::IncbinUnimplemented, span)),
    }
}

/// The bytes of the first `k` parts of a property value, concatenated.
pub open spec fn values_spec(
    labels: LabelMap,
    root: TempNode,
    t: PhandleTable,
    vs: Seq<Value>,
    wrapping: bool,
    k: int,
) -> Result<Seq<u8>, Error>
    decreases k,
{
    if k <= 0 {
        Ok(Seq::empty())
    } else {
        match values_spec(labels, root, t, vs, wrapping, k - 1) {
            Ok(a) => match value_spec(labels, root, t, vs[k - 1], wrapping) {
                Ok(b) => Ok(a + b),
                Err(e) => Err(e),
            },
            Err(e) => Err(e),
        }
    }
}

pub open spec fn propvalue_spec(
    labels: LabelMap,
    root: TempNode,
    t: PhandleTable,
    pv: PropValue,
    wrapping: bool,
) -> Result<Seq<u8>, Error> {
    values_spec(labels, root, t, pv.values@, wrapping, pv.values@.len() as int)
}

/// A node reference in a cell list needs width 32: at another width it fails
/// with the width error; at 32 it is the node's handle as 4 big-endian bytes.
pub proof fn lemma_reference_cell(
    labels: LabelMap,
    root: TempNode,
    t: PhandleTable,
    r: Reference,
    bits: u64,
    wrapping: bool,
)
    requires
        resolve_spec(labels, root, r) is Ok,
    ensures
        bits != 32 ==> cell_spec(labels, root, t, Cell::NodeReference(r), bits, wrapping) == Err::<
            Seq<u8>,
            Error,
        >(at(ErrorKind::PhandleNeedsBits32(bits), r.span)),
        bits == 32 && table_index_from(t, resolve_spec(labels, root, r)->Ok_0, 0) is Some
            ==> cell_spec(labels, root, t, Cell::NodeReference(r), bits, wrapping) == Ok::<
            Seq<u8>,
            Error,
        >(
            be_bytes(
                t.values@[table_index_from(t, resolve_spec(labels, root, r)->Ok_0, 0)->0] as nat,
                4,
            ),
        ),
{
    reveal(cell_spec);
}

/// A numeric cell holds the low `bits / 8` bytes of its value, whether or
/// not the value fits.
pub proof fn lemma_numeric_cell(
    labels: LabelMap,
    root: TempNode,
    t: PhandleTable,
    e: Expr,
    bits: u64,
    wrapping: bool,
)
    requires
        eval_spec(e, wrapping) is Ok,
    ensures
        cell_spec(labels, root, t, Cell::Expr(e), bits, wrapping) == Ok::<Seq<u8>, Error>(
            be_bytes(eval_spec(e, wrapping)->Ok_0 as nat, (bits / 8) as nat),
        ),
{
    reveal(cell_spec);
}

proof fn lemma_index_found(t: PhandleTable, p: Seq<Seq<char>>, j: int)
    requires
        0 <= j,
        exists|i: int| j <= i < t.targets@.len() && (#[trigger] t.targets@[i]).deep_view() == p,
    ensures
        table_index_from(t, p, j) is Some,
    decreases t.targets@.len() - j,
{
    if j < t.targets@.len() && t.targets@[j].deep_view() != p {
        let i = choose|i: int| j <= i < t.targets@.len() && (#[trigger] t.targets@[i]).deep_view() == p;
        assert(i != j);
        lemma_index_found(t, p, j + 1);
    }
}

proof fn lemma_table_index_bound(t: PhandleTable, p: Seq<Seq<char>>, j: int)
    requires
        0 <= j,
    ensures
        table_index_from(t, p, j) matches Some(i) ==> j <= i < t.targets@.len(),
    decreases t.targets@.len() - j,
{
    if 0 <= j < t.targets@.len() && t.targets@[j].deep_view() != p {
        lemma_table_index_bound(t, p, j + 1);
    }
}

proof fn lemma_cells_err_sticks(
    labels: LabelMap,
    root: TempNode,
    t: PhandleTable,
    cells: Seq<Cell>,
    bits: u64,
    wrapping: bool,
    k: int,
    m: int,
)
    requires
        0 <= k <= m,
        cells_spec(labels, root, t, cells, bits, wrapping, k) is Err,
    ensures
        cells_spec(labels, root, t, cells, bits, wrapping, m) == cells_spec(
            labels,
            root,
            t,
            cells,
            bits,
            wrapping,
            k,
        ),
    decreases m - k,
{
    if m > k {
        lemma_cells_err_sticks(labels, root, t, cells, bits, wrapping, k, m - 1);
    }
}

proof fn lemma_values_err_sticks(
    labels: LabelMap,
    root: TempNode,
    t: PhandleTable,
    vs: Seq<Value>,
    wrapping: bool,
    k: int,
    m: int,
)
    requires
        0 <= k <= m,
        values_spec(labels, root, t, vs, wrapping, k) is Err,
    ensures
        values_spec(labels, root, t, vs, wrapping, m) == values_spec(labels, root, t, vs, wrapping, k),
    decreases m - k,
{
    if m > k {
        lemma_values_err_sticks(labels, root, t, vs, wrapping, k, m - 1);
    }
}

proof fn lemma_hex_err_sticks(hs: Seq<Literal>, k: int, m: int)
    requires
        0 <= k <= m,
        hex_bytes_spec(hs, k) is Err,
    ensures
        hex_bytes_spec(hs, m) == hex_bytes_spec(hs, k),
    decreases m - k,
{
    if m > k {
        lemma_hex_err_sticks(hs, k, m - 1);
    }
}

/// The warning a cell gives at width `bits`: one for an expression whose
/// value truncates, none otherwise.
pub open spec fn cell_warn(c: Cell, bits: u64, wrapping: bool) -> Seq<Truncation> {
    match c {
        Cell::Expr(e) => match eval_spec(e, wrapping) {
            Ok(n) => if truncates(n, bits) {
                seq![Truncation { value: n, bits, span: e.span }]
            } else {
                Seq::empty()
            },
            Err(_) => Seq::empty(),
        },
        Cell::NodeReference(_) => Seq::empty(),
    }
}

/// The warnings of the first `k` cells, in order.
pub open spec fn cells_warn(cs: Seq<Cell>, bits: u64, wrapping: bool, k: int) -> Seq<Truncation>
    decreases k,
{
    if k <= 0 {
        Seq::empty()
    } else {
        cells_warn(cs, bits, wrapping, k - 1) + cell_warn(cs[k - 1], bits, wrapping)
    }
}

pub open spec fn value_warn(v: Value, wrapping: bool) -> Seq<Truncation> {
    match v {
        Value::Cells(c) => match bits_spec(c.bits) {
            Ok(bits) => cells_warn(c.cells@, bits, wrapping, c.cells@.len() as int),
            Err(_) => Seq::empty(),
        },
        _ => Seq::empty(),
    }
}

/// The warnings of the first `k` parts of a value, in order.
pub open spec fn values_warn(vs: Seq<Value>, wrapping: bool, k: int) -> Seq<Truncation>
    decreases k,
{
    if k <= 0 {
        Seq::empty()
    } else {
        values_warn(vs, wrapping, k - 1) + value_warn(vs[k - 1], wrapping)
    }
}

pub open spec fn prop_warn(p: TempProperty, wrapping: bool) -> Seq<Truncation> {
    match p.value {
        TempValue::Ast(pv) => values_warn(pv.values@, wrapping, pv.values@.len() as int),
        TempValue::Bytes(_) => Seq::empty(),
    }
}

pub open spec fn props_warn(ps: Seq<TempProperty>, wrapping: bool, k: int) -> Seq<Truncation>
    decreases k,
{
    if k <= 0 {
        Seq::empty()
    } else {
        props_warn(ps, wrapping, k - 1) + prop_warn(ps[k - 1], wrapping)
    }
}

/// The warnings of `node` and the nodes below it, in pre-order, properties
/// before children.
pub open spec fn node_warn(node: TempNode, wrapping: bool) -> Seq<Truncation>
    decreases node, node.children@.len() + 1,
{
    props_warn(node.properties@, wrapping, node.properties@.len() as int) + children_warn(
        node,
        wrapping,
        node.children@.len() as int,
    )
}

pub open spec fn children_warn(node: TempNode, wrapping: bool, k: int) -> Seq<Truncation>
    decreases node, k,
{
    if k <= 0 || k > node.children@.len() {
        Seq::empty()
    } else {
        children_warn(node, wrapping, k - 1) + node_warn(node.children@[k - 1], wrapping)
    }
}

/// `b` is `a` with warnings added, each for a value that truncates.
pub open spec fn warned(a: Seq<Truncation>, b: Seq<Truncation>) -> bool {
    &&& a.len() <= b.len()
    &&& b.subrange(0, a.len() as int) == a
    &&& forall|i: int| a.len() <= i < b.len() ==> truncates(#[trigger] b[i].value, b[i].bits)
}

proof fn lemma_warned_refl(a: Seq<Truncation>)
    ensures
        warned(a, a),
{
    assert(a.subrange(0, a.len() as int) =~= a);
}

proof fn lemma_warned_trans(a: Seq<Truncation>, b: Seq<Truncation>, c: Seq<Truncation>)
    requires
        warned(a, b),
        warned(b, c),
    ensures
        warned(a, c),
{
    assert(c.subrange(0, a.len() as int) =~= b.subrange(0, a.len() as int));
    assert forall|i: int| a.len() <= i < c.len() implies truncates(
        #[trigger] c[i].value,
        c[i].bits,
    ) by {
        if i < b.len() {
            assert(c[i] == c.subrange(0, b.len() as int)[i]);
        }
    }
}

/// Appends the `len` low-order bytes of `v`, most significant first.
pub fn push_be(out: &mut Vec<u8>, v: u64, len: usize)
    requires
        len <= 8,
    ensures
        final(out)@ == old(out)@ + be_bytes(v as nat, len as nat),
    decreases len,
{
    if len > 0 {
        push_be(out, v / 256, len - 1);
        out.push((v % 256) as u8);
        assert(out@ =~= old(out)@ + be_bytes(v as nat, len as nat));
    } else {
        assert(out@ =~= old(out)@ + be_bytes(v as nat, len as nat));
    }
}

/// Whether `n` loses information at width `bits`.
pub fn cell_truncates(n: u64, bits: u64) -> (r: bool)
    ensures
        r == truncates(n, bits),
{
    if bits >= 64 {
        return false;
    }
    let hi = n >> bits;
    hi != 0 && hi != (0xffff_ffff_ffff_ffffu64 >> bits)
}

/// The width of a cell list: 32, or the value after `/bits/`, which must be
/// 8, 16, 32 or 64.
pub fn cell_bits(bits: &Option<Literal>) -> (r: Result<u64, Error>)
    ensures
        r == bits_spec(*bits),
{
    match bits {
        None => Ok(32),
        Some(t) => {
            let n = match eval_number(t.text.as_str()) {
                Ok(n) => n,
                Err(k) => {
                    return Err(Error { kind: k, span: Some(t.span) });
                },
            };
            if n == 8 || n == 16 || n == 32 || n == 64 {
                Ok(n)
            } else {
                Err(Error { kind: ErrorKind::BadBitWidth(n), span: Some(t.span) })
            }
        },
    }
}

/// The index of path `p` in the table.
fn table_lookup(t: &PhandleTable, p: &Vec<String>) -> (r: Option<usize>)
    ensures
        match r {
            Some(i) => table_index_from(*t, p.deep_view(), 0) == Some(i as int),
            None => table_index_from(*t, p.deep_view(), 0) is None,
        },
{
    let mut i: usize = 0;
    while i < t.targets.len()
        invariant
            i <= t.targets@.len(),
            table_index_from(*t, p.deep_view(), 0) == table_index_from(*t, p.deep_view(), i as int),
        decreases t.targets@.len() - i,
    {
        if crate::tree::paths_equal(&t.targets[i], p) {
            return Some(i);
        }
        i += 1;
    }
    None
}

/// Appends the bytes of one cell at width `bits`; a value that does not fit
/// is truncated and reported in `warnings`.
pub fn evaluate_cell(
    labels: &LabelMap,
    root: &TempNode,
    t: &PhandleTable,
    c: &Cell,
    bits: u64,
    wrapping: bool,
    out: &mut Vec<u8>,
    warnings: &mut Vec<Truncation>,
) -> (r: Result<(), Error>)
    requires
        bits == 8 || bits == 16 || bits == 32 || bits == 64,
        t.targets@.len() == t.values@.len(),
        cell_collected(*labels, *root, *c, t.targets.deep_view()),
    ensures
        warned(old(warnings)@, final(warnings)@),
        r is Ok ==> final(warnings)@ == old(warnings)@ + cell_warn(*c, bits, wrapping),
        not_missing(r),
        match cell_spec(*labels, *root, *t, *c, bits, wrapping) {
            Ok(b) => r is Ok && final(out)@ == old(out)@ + b,
            Err(e) => r == Err::<(), Error>(e),
        },
{
    proof {
        lemma_warned_refl(warnings@);
        reveal(cell_spec);
    }
    match c {
        Cell::NodeReference(reference) => {
            let p = resolve(labels, root, reference)?;
            if bits != 32 {
                return Err(
                    Error { kind: ErrorKind::PhandleNeedsBits32(bits), span: Some(reference.span) },
                );
            }
            proof {
                let pv = p.deep_view();
                let ti = choose|ti: int| 0 <= ti < t.targets.deep_view().len() && t.targets.deep_view()[ti] == pv;
                assert(t.targets@[ti].deep_view() == pv);
                lemma_index_found(*t, pv, 0);
            }
            match table_lookup(t, &p) {
                Some(i) => {
                    proof {
                        lemma_table_index_bound(*t, p.deep_view(), 0);
                    }
                    push_be(out, t.values[i] as u64, 4);
                    assert(warnings@ =~= old(warnings)@ + cell_warn(*c, bits, wrapping));
                    Ok(())
                },
                None => Err(Error { kind: ErrorKind::MissingPhandle, span: Some(reference.span) }),
            }
        },
        Cell::Expr(e) => {
            let n = e.eval(wrapping)?;
            if cell_truncates(n, bits) {
                let ghost w0 = warnings@;
                warnings.push(Truncation { value: n, bits, span: e.span });
                proof {
                    assert(warnings@.subrange(0, w0.len() as int) =~= w0);
                    assert(warnings@ =~= w0 + cell_warn(*c, bits, wrapping));
                }
            } else {
                assert(warnings@ =~= old(warnings)@ + cell_warn(*c, bits, wrapping));
            }
            push_be(out, n, (bits / 8) as usize);
            Ok(())
        },
    }
}

/// Appends the bytes of a cell list.
pub fn evaluate_cells(
    labels: &LabelMap,
    root: &TempNode,
    t: &PhandleTable,
    cells: &Cells,
    wrapping: bool,
    out: &mut Vec<u8>,
    warnings: &mut Vec<Truncation>,
) -> (r: Result<(), Error>)
    requires
        t.targets@.len() == t.values@.len(),
        cells_collected(*labels, *root, cells.cells@, t.targets.deep_view()),
    ensures
        warned(old(warnings)@, final(warnings)@),
        r is Ok ==> final(warnings)@ == old(warnings)@ + value_warn(Value::Cells(*cells), wrapping),
        not_missing(r),
        match value_spec(*labels, *root, *t, Value::Cells(*cells), wrapping) {
            Ok(b) => r is Ok && final(out)@ == old(out)@ + b,
            Err(e) => r == Err::<(), Error>(e),
        },
{
    proof {
        lemma_warned_refl(warnings@);
        reveal(value_spec);
    }
    let bits = cell_bits(&cells.bits)?;
    let ghost o = out@;
    let ghost w = warnings@;
    let mut k: usize = 0;
    assert(o + Seq::<u8>::empty() =~= o);
    assert(w + Seq::<Truncation>::empty() =~= w);
    while k < cells.cells.len()
        invariant
            k <= cells.cells@.len(),
            bits == 8 || bits == 16 || bits == 32 || bits == 64,
            bits_spec(cells.bits) == Ok::<u64, Error>(bits),
            t.targets@.len() == t.values@.len(),
            cells_collected(*labels, *root, cells.cells@, t.targets.deep_view()),
            warnings@ == w + cells_warn(cells.cells@, bits, wrapping, k as int),
            w == old(warnings)@,
            o == old(out)@,
            warned(w, warnings@),
            cells_spec(*labels, *root, *t, cells.cells@, bits, wrapping, k as int) matches Ok(a)
                && out@ == o + a,
        decreases cells.cells@.len() - k,
    {
        let ghost w1 = warnings@;
        let res = evaluate_cell(labels, root, t, &cells.cells[k], bits, wrapping, out, warnings);
        proof {
            lemma_warned_trans(w, w1, warnings@);
            if res is Err {
                lemma_cells_err_sticks(
                    *labels,
                    *root,
                    *t,
                    cells.cells@,
                    bits,
                    wrapping,
                    k + 1,
                    cells.cells@.len() as int,
                );
                reveal(value_spec);
                assert(bits_spec(cells.bits) == Ok::<u64, Error>(bits));
                assert(value_spec(*labels, *root, *t, Value::Cells(*cells), wrapping) == cells_spec(
                    *labels,
                    *root,
                    *t,
                    cells.cells@,
                    bits,
                    wrapping,
                    cells.cells@.len() as int,
                ));
            }
        }
        res?;
        k += 1;
        proof {
            let prev = cells_spec(*labels, *root, *t, cells.cells@, bits, wrapping, k - 1)->Ok_0;
            let b = cell_spec(*labels, *root, *t, cells.cells@[k - 1], bits, wrapping)->Ok_0;
            assert(out@ =~= o + (prev + b));
            assert(warnings@ =~= w + cells_warn(cells.cells@, bits, wrapping, k as int));
        }
    }
    Ok(())
}

/// Appends the bytes of a byte string.
fn evaluate_byte_string(hs: &Vec<Literal>, out: &mut Vec<u8>) -> (r: Result<(), Error>)
    ensures
        not_missing(r),
        match hex_bytes_spec(hs@, hs@.len() as int) {
            Ok(b) => r is Ok && final(out)@ == old(out)@ + b,
            Err(e) => r == Err::<(), Error>(e),
        },
{
    let ghost o = out@;
    let mut k: usize = 0;
    assert(o + Seq::<u8>::empty() =~= o);
    while k < hs.len()
        invariant
            k <= hs@.len(),
            o == old(out)@,
            hex_bytes_spec(hs@, k as int) matches Ok(a) && out@ == o + a,
        decreases hs@.len() - k,
    {
        let b = hs[k].text.as_str().as_bytes();
        let parsed = parse_hex(b);
        proof {
            assert(hex_byte_spec(hs@[k as int]) == (match parsed {
                Some(v) => if v <= 255 {
                    Ok::<u8, Error>(v as u8)
                } else {
                    Err(at(ErrorKind::BadNumericLiteral, hs@[k as int].span))
                },
                None => Err(at(ErrorKind::BadNumericLiteral, hs@[k as int].span)),
            })) by {
                reveal(hex_byte_spec);
            }
            if parsed is None || parsed->0 > 255 {
                lemma_hex_err_sticks(hs@, k + 1, hs@.len() as int);
            }
        }
        let v = match parsed {
            Some(v) => v,
            None => {
                return Err(Error { kind: ErrorKind::BadNumericLiteral, span: Some(hs[k].span) });
            },
        };
        if v > 255 {
            return Err(Error { kind: ErrorKind::BadNumericLiteral, span: Some(hs[k].span) });
        }
        out.push(v as u8);
        k += 1;
        proof {
            let prev = hex_bytes_spec(hs@, k - 1)->Ok_0;
            assert(out@ =~= o + prev.push(v as u8));
        }
    }
    Ok(())
}

/// Reads hex digits, as `u64::from_str_radix(_, 16)` does.
fn parse_hex(b: &[u8]) -> (r: Option<u64>)
    ensures
        r == from_radix_spec(b@, 16),
{
    let mut v: Vec<u8> = Vec::new();
    v.push(0x30);
    v.push(0x78);
    push_all(&mut v, b);
    proof {
        assert(v@.subrange(2, v@.len() as int) =~= b@);
    }
    parse_int(v.as_slice())
}

/// Appends the bytes of one part of a property value.
pub fn evaluate_value(
    labels: &LabelMap,
    root: &TempNode,
    t: &PhandleTable,
    v: &Value,
    wrapping: bool,
    out: &mut Vec<u8>,
    warnings: &mut Vec<Truncation>,
) -> (r: Result<(), Error>)
    requires
        t.targets@.len() == t.values@.len(),
        *v matches Value::Cells(cs) ==> cells_collected(*labels, *root, cs.cells@, t.targets.deep_view()),
    ensures
        warned(old(warnings)@, final(warnings)@),
        r is Ok ==> final(warnings)@ == old(warnings)@ + value_warn(*v, wrapping),
        not_missing(r),
        match value_spec(*labels, *root, *t, *v, wrapping) {
            Ok(b) => r is Ok && final(out)@ == old(out)@ + b,
            Err(e) => r == Err::<(), Error>(e),
        },
{
    proof {
        lemma_warned_refl(warnings@);
        reveal(value_spec);
    }
    match v {
        Value::Cells(cells) => evaluate_cells(labels, root, t, cells, wrapping, out, warnings),
        Value::QuotedString(s) => {
            let bytes = match unescape(s.text.as_str()) {
                Ok(b) => b,
                Err(k) => {
                    return Err(Error { kind: k, span: Some(s.span) });
                },
            };
            push_all(out, bytes.as_slice());
            out.push(0);
            assert(out@ =~= old(out)@ + bytes@.push(0));
            assert(warnings@ =~= old(warnings)@ + value_warn(*v, wrapping));
            Ok(())
        },
        Value::NodeReference(reference) => {
            let p = resolve(labels, root, reference)?;
            push_path_bytes(out, &p);
            out.push(0);
            assert(out@ =~= old(out)@ + path_bytes(p.deep_view()).push(0));
            assert(warnings@ =~= old(warnings)@ + value_warn(*v, wrapping));
            Ok(())
        },
        Value::ByteString(hs) => {
            assert(warnings@ =~= old(warnings)@ + value_warn(*v, wrapping));
            evaluate_byte_string(hs, out)
        },
        Value::Incbin(span) => Err(Error { kind: ErrorKind::IncbinUnimplemented, span: Some(*span) }),
    }
}

/// Evaluates a property value to its bytes.
pub fn evaluate_propvalue(
    root: &TempNode,
    labels: &LabelMap,
    t: &PhandleTable,
    propvalue: &PropValue,
    wrapping: bool,
    warnings: &mut Vec<Truncation>,
) -> (r: Result<Vec<u8>, Error>)
    requires
        t.targets@.len() == t.values@.len(),
        forall|j: int|
            0 <= j < propvalue.values@.len() ==> (#[trigger] propvalue.values@[j] matches Value::Cells(cs)
                ==> cells_collected(*labels, *root, cs.cells@, t.targets.deep_view())),
    ensures
        warned(old(warnings)@, final(warnings)@),
        r is Ok ==> final(warnings)@ == old(warnings)@ + values_warn(
            propvalue.values@,
            wrapping,
            propvalue.values@.len() as int,
        ),
        not_missing(r),
        match propvalue_spec(*labels, *root, *t, *propvalue, wrapping) {
            Ok(b) => r is Ok && r->Ok_0@ == b,
            Err(e) => r == Err::<Vec<u8>, Error>(e),
        },
{
    let ghost w = warnings@;
    proof {
        lemma_warned_refl(w);
        assert(w + Seq::<Truncation>::empty() =~= w);
    }
    let mut out: Vec<u8> = Vec::new();
    let mut k: usize = 0;
    while k < propvalue.values.len()
        invariant
            k <= propvalue.values@.len(),
            t.targets@.len() == t.values@.len(),
            forall|j: int|
                0 <= j < propvalue.values@.len() ==> (#[trigger] propvalue.values@[j] matches Value::Cells(cs)
                    ==> cells_collected(*labels, *root, cs.cells@, t.targets.deep_view())),
            w == old(warnings)@,
            warned(w, warnings@),
            warnings@ == w + values_warn(propvalue.values@, wrapping, k as int),
            values_spec(*labels, *root, *t, propvalue.values@, wrapping, k as int) matches Ok(a)
                && out@ == a,
        decreases propvalue.values@.len() - k,
    {
        let ghost a = out@;
        let ghost w1 = warnings@;
        let res = evaluate_value(labels, root, t, &propvalue.values[k], wrapping, &mut out, warnings);
        proof {
            lemma_warned_trans(w, w1, warnings@);
            if res is Err {
                lemma_values_err_sticks(
                    *labels,
                    *root,
                    *t,
                    propvalue.values@,
                    wrapping,
                    k + 1,
                    propvalue.values@.len() as int,
                );
            }
        }
        res?;
        k += 1;
        proof {
            let b = value_spec(*labels, *root, *t, propvalue.values@[k - 1], wrapping)->Ok_0;
            assert(out@ =~= a + b);
            assert(warnings@ =~= w + values_warn(propvalue.values@, wrapping, k as int));
        }
    }
    Ok(out)
}

/// Every property of `n` and of the nodes below it holds bytes.
pub open spec fn all_bytes(n: TempNode) -> bool
    decreases n,
{
    &&& forall|i: int| 0 <= i < n.properties@.len() ==> (#[trigger] n.properties@[i]).value is Bytes
    &&& forall|i: int| 0 <= i < n.children@.len() ==> all_bytes(#[trigger] n.children@[i])
}

/// The bytes of a value that holds bytes.
pub open spec fn bytes_of(v: TempValue) -> Seq<u8> {
    match v {
        TempValue::Bytes(b) => b@,
        TempValue::Ast(_) => Seq::empty(),
    }
}

/// The handle that the allocator gave the node at `p`, when it made one up.
pub open spec fn added_phandle(t: PhandleTable, p: Seq<Seq<char>>) -> Option<u32> {
    match table_index_from(t, p, 0) {
        Some(i) => if t.fresh@[i] {
            Some(t.values@[i])
        } else {
            None
        },
        None => None,
    }
}

/// `new` is property value `old` evaluated.
pub open spec fn value_evaluated(
    labels: LabelMap,
    root: TempNode,
    t: PhandleTable,
    old: TempValue,
    new: TempValue,
    wrapping: bool,
) -> bool {
    match old {
        TempValue::Bytes(b) => new matches TempValue::Bytes(nb) && nb@ == b@,
        TempValue::Ast(pv) => new matches TempValue::Bytes(nb) && propvalue_spec(
            labels,
            root,
            t,
            pv,
            wrapping,
        ) == Ok::<Seq<u8>, Error>(nb@),
    }
}

/// `out` is `node`, at path `p`, with every property evaluated, in the same
/// order, and an allocated `phandle` property appended where there is one.
pub open spec fn node_evaluated(
    labels: LabelMap,
    root: TempNode,
    t: PhandleTable,
    p: Seq<Seq<char>>,
    node: TempNode,
    out: TempNode,
    wrapping: bool,
) -> bool
    decreases node,
{
    let n = node.properties@.len() as int;
    &&& out.name@ == node.name@
    &&& out.properties@.len() == n + if added_phandle(t, p) is Some {
        1int
    } else {
        0int
    }
    &&& forall|i: int|
        0 <= i < n ==> (#[trigger] out.properties@[i]).name@ == node.properties@[i].name@
            && value_evaluated(labels, root, t, node.properties@[i].value, out.properties@[i].value, wrapping)
    &&& added_phandle(t, p) is Some ==> out.properties@[n].name@ == "phandle"@
        && out.properties@[n].value is Bytes && bytes_of(out.properties@[n].value) == be_bytes(
        added_phandle(t, p)->0 as nat,
        4,
    )
    &&& out.children@.len() == node.children@.len()
    &&& forall|i: int|
        0 <= i < node.children@.len() ==> node_evaluated(
            labels,
            root,
            t,
            p.push(node.children@[i].name@),
            #[trigger] node.children@[i],
            out.children@[i],
            wrapping,
        )
}

/// `n` holds the same names and bytes as the evaluated node `t`.
pub open spec fn flattened(t: TempNode, n: Node) -> bool
    decreases t,
{
    &&& n.name@ == t.name@
    &&& n.properties@.len() == t.properties@.len()
    &&& forall|i: int|
        0 <= i < t.properties@.len() ==> (#[trigger] n.properties@[i]).name@
            == t.properties@[i].name@ && t.properties@[i].value is Bytes
            && n.properties@[i].value@ == bytes_of(t.properties@[i].value)
    &&& n.children@.len() == t.children@.len()
    &&& forall|i: int|
        0 <= i < t.children@.len() ==> flattened(#[trigger] t.children@[i], n.children@[i])
}

fn table_added(t: &PhandleTable, p: &Vec<String>) -> (r: Option<u32>)
    requires
        t.targets@.len() == t.values@.len(),
        t.targets@.len() == t.fresh@.len(),
    ensures
        r == added_phandle(*t, p.deep_view()),
{
    match table_lookup(t, p) {
        Some(i) => {
            proof {
                lemma_table_index_bound(*t, p.deep_view(), 0);
            }
            if t.fresh[i] {
                Some(t.values[i])
            } else {
                None
            }
        },
        None => None,
    }
}

/// The error of a property, if it is not yet evaluated and its value fails.
pub open spec fn prop_err(
    labels: LabelMap,
    root: TempNode,
    t: PhandleTable,
    p: TempProperty,
    wrapping: bool,
) -> Option<Error> {
    match p.value {
        TempValue::Ast(pv) => match propvalue_spec(labels, root, t, pv, wrapping) {
            Ok(_) => None,
            Err(e) => Some(e),
        },
        TempValue::Bytes(_) => None,
    }
}

/// The first error among the first `k` properties.
pub open spec fn props_err(
    labels: LabelMap,
    root: TempNode,
    t: PhandleTable,
    ps: Seq<TempProperty>,
    wrapping: bool,
    k: int,
) -> Option<Error>
    decreases k,
{
    if k <= 0 {
        None
    } else {
        match props_err(labels, root, t, ps, wrapping, k - 1) {
            Some(e) => Some(e),
            None => prop_err(labels, root, t, ps[k - 1], wrapping),
        }
    }
}

/// The first property error of `node` and the nodes below it, in pre-order,
/// properties before children.
pub open spec fn node_err(
    labels: LabelMap,
    root: TempNode,
    t: PhandleTable,
    node: TempNode,
    wrapping: bool,
) -> Option<Error>
    decreases node, node.children@.len() + 1,
{
    match props_err(labels, root, t, node.properties@, wrapping, node.properties@.len() as int) {
        Some(e) => Some(e),
        None => children_err(labels, root, t, node, wrapping, node.children@.len() as int),
    }
}

/// The first `node_err` among the first `k` children of `node`.
pub open spec fn children_err(
    labels: LabelMap,
    root: TempNode,
    t: PhandleTable,
    node: TempNode,
    wrapping: bool,
    k: int,
) -> Option<Error>
    decreases node, k,
{
    if k <= 0 || k > node.children@.len() {
        None
    } else {
        match children_err(labels, root, t, node, wrapping, k - 1) {
            Some(e) => Some(e),
            None => node_err(labels, root, t, node.children@[k - 1], wrapping),
        }
    }
}

proof fn lemma_props_err_sticks(
    labels: LabelMap,
    root: TempNode,
    t: PhandleTable,
    ps: Seq<TempProperty>,
    wrapping: bool,
    k: int,
    m: int,
)
    requires
        0 <= k <= m,
        props_err(labels, root, t, ps, wrapping, k) is Some,
    ensures
        props_err(labels, root, t, ps, wrapping, m) == props_err(labels, root, t, ps, wrapping, k),
    decreases m - k,
{
    if m > k {
        lemma_props_err_sticks(labels, root, t, ps, wrapping, k, m - 1);
    }
}

proof fn lemma_children_err_sticks(
    labels: LabelMap,
    root: TempNode,
    t: PhandleTable,
    node: TempNode,
    wrapping: bool,
    k: int,
    m: int,
)
    requires
        0 <= k <= m <= node.children@.len(),
        children_err(labels, root, t, node, wrapping, k) is Some,
    ensures
        children_err(labels, root, t, node, wrapping, m) == children_err(
            labels,
            root,
            t,
            node,
            wrapping,
            k,
        ),
    decreases m - k,
{
    if m > k {
        lemma_children_err_sticks(labels, root, t, node, wrapping, k, m - 1);
    }
}

/// Evaluates every property of `node` (at path `path`) and of the nodes below
/// it, and appends the `phandle` property that the allocator made up for a
/// node. `root` is the whole tree, for references.
pub fn _evaluate_expressions(
    root: &TempNode,
    labels: &LabelMap,
    t: &PhandleTable,
    node: &TempNode,
    path: &Vec<String>,
    wrapping: bool,
    warnings: &mut Vec<Truncation>,
) -> (r: Result<TempNode, Error>)
    requires
        t.targets@.len() == t.values@.len(),
        t.targets@.len() == t.fresh@.len(),
        refs_collected(*labels, *root, *node, t.targets.deep_view()),
    ensures
        warned(old(warnings)@, final(warnings)@),
        not_missing(r),
        match node_err(*labels, *root, *t, *node, wrapping) {
            None => r is Ok,
            Some(e) => r == Err::<TempNode, Error>(e),
        },
        r is Ok ==> final(warnings)@ == old(warnings)@ + node_warn(*node, wrapping),
        r matches Ok(out) ==> all_bytes(out) && node_evaluated(
            *labels,
            *root,
            *t,
            path.deep_view(),
            *node,
            out,
            wrapping,
        ),
    decreases node,
{
    let ghost w = warnings@;
    proof {
        lemma_warned_refl(w);
        assert(w + Seq::<Truncation>::empty() =~= w);
    }
    let mut props: Vec<TempProperty> = Vec::new();
    let mut i: usize = 0;
    while i < node.properties.len()
        invariant
            i <= node.properties@.len(),
            t.targets@.len() == t.values@.len(),
            w == old(warnings)@,
            warned(w, warnings@),
            props@.len() == i,
            refs_collected(*labels, *root, *node, t.targets.deep_view()),
            props_err(*labels, *root, *t, node.properties@, wrapping, i as int) is None,
            warnings@ == w + props_warn(node.properties@, wrapping, i as int),
            forall|j: int| 0 <= j < i ==> (#[trigger] props@[j]).value is Bytes,
            forall|j: int|
                0 <= j < i ==> (#[trigger] props@[j]).name@ == node.properties@[j].name@
                    && value_evaluated(
                    *labels,
                    *root,
                    *t,
                    node.properties@[j].value,
                    props@[j].value,
                    wrapping,
                ),
        decreases node.properties@.len() - i,
    {
        let value = match &node.properties[i].value {
            TempValue::Bytes(b) => {
                let mut nb: Vec<u8> = Vec::new();
                push_all(&mut nb, b.as_slice());
                assert(nb@ =~= b@);
                TempValue::Bytes(nb)
            },
            TempValue::Ast(pv) => {
                assert(prop_collected(*labels, *root, node.properties@[i as int], t.targets.deep_view()));
                let ghost w1 = warnings@;
                let res = evaluate_propvalue(root, labels, t, pv, wrapping, warnings);
                proof {
                    lemma_warned_trans(w, w1, warnings@);
                    if res is Err {
                        lemma_props_err_sticks(
                            *labels,
                            *root,
                            *t,
                            node.properties@,
                            wrapping,
                            i + 1,
                            node.properties@.len() as int,
                        );
                    }
                }
                TempValue::Bytes(res?)
            },
        };
        props.push(TempProperty { name: node.properties[i].name.clone(), value });
        i += 1;
        assert(warnings@ =~= w + props_warn(node.properties@, wrapping, i as int));
    }
    let added = table_added(t, path);
    if let Some(v) = added {
        let mut b: Vec<u8> = Vec::new();
        push_be(&mut b, v as u64, 4);
        assert(b@ =~= be_bytes(v as nat, 4));
        props.push(TempProperty { name: "phandle".to_owned(), value: TempValue::Bytes(b) });
    }
    let mut children: Vec<TempNode> = Vec::new();
    assert(w + props_warn(node.properties@, wrapping, node.properties@.len() as int) + Seq::<
        Truncation,
    >::empty() =~= w + props_warn(node.properties@, wrapping, node.properties@.len() as int));
    let mut c: usize = 0;
    while c < node.children.len()
        invariant
            c <= node.children@.len(),
            t.targets@.len() == t.values@.len(),
            t.targets@.len() == t.fresh@.len(),
            w == old(warnings)@,
            warned(w, warnings@),
            children@.len() == c,
            refs_collected(*labels, *root, *node, t.targets.deep_view()),
            props_err(*labels, *root, *t, node.properties@, wrapping, node.properties@.len() as int)
                is None,
            children_err(*labels, *root, *t, *node, wrapping, c as int) is None,
            warnings@ == w + props_warn(node.properties@, wrapping, node.properties@.len() as int)
                + children_warn(*node, wrapping, c as int),
            forall|j: int| 0 <= j < c ==> all_bytes(#[trigger] children@[j]),
            forall|j: int|
                0 <= j < c ==> node_evaluated(
                    *labels,
                    *root,
                    *t,
                    path.deep_view().push(node.children@[j].name@),
                    #[trigger] node.children@[j],
                    children@[j],
                    wrapping,
                ),
        decreases node.children@.len() - c,
    {
        let mut child_path = crate::tree::clone_path(path);
        child_path.push(node.children[c].name.clone());
        assert(child_path.deep_view() =~= path.deep_view().push(node.children@[c as int].name@));
        proof {
            assert(decreases_to!(node => node.children@[c as int]));
            assert(refs_collected(*labels, *root, node.children@[c as int], t.targets.deep_view()));
        }
        let ghost w1 = warnings@;
        let res = _evaluate_expressions(
            root,
            labels,
            t,
            &node.children[c],
            &child_path,
            wrapping,
            warnings,
        );
        proof {
            lemma_warned_trans(w, w1, warnings@);
        }
        proof {
            if res is Err {
                lemma_children_err_sticks(
                    *labels,
                    *root,
                    *t,
                    *node,
                    wrapping,
                    c + 1,
                    node.children@.len() as int,
                );
            }
        }
        children.push(res?);
        c += 1;
        assert(warnings@ =~= w + props_warn(node.properties@, wrapping, node.properties@.len() as int)
            + children_warn(*node, wrapping, c as int));
    }
    let out = TempNode { name: node.name.clone(), properties: props, children };
    assert(warnings@ =~= w + node_warn(*node, wrapping));
    proof {
        assert forall|j: int| 0 <= j < out.properties@.len() implies (#[trigger] out.properties@[j]).value is Bytes by {
            if j < node.properties@.len() {
                assert(out.properties@[j] == props@[j]);
            }
        }
    }
    Ok(out)
}

/// Evaluates every property of the tree.
pub fn evaluate_expressions(
    root: &TempNode,
    labels: &LabelMap,
    t: &PhandleTable,
    wrapping: bool,
    warnings: &mut Vec<Truncation>,
) -> (r: Result<TempNode, Error>)
    requires
        t.targets@.len() == t.values@.len(),
        t.targets@.len() == t.fresh@.len(),
        refs_collected(*labels, *root, *root, t.targets.deep_view()),
    ensures
        warned(old(warnings)@, final(warnings)@),
        not_missing(r),
        match node_err(*labels, *root, *t, *root, wrapping) {
            None => r is Ok,
            Some(e) => r == Err::<TempNode, Error>(e),
        },
        r is Ok ==> final(warnings)@ == old(warnings)@ + node_warn(*root, wrapping),
        r matches Ok(out) ==> all_bytes(out) && node_evaluated(
            *labels,
            *root,
            *t,
            Seq::empty(),
            *root,
            out,
            wrapping,
        ),
{
    let path: Vec<String> = Vec::new();
    assert(path.deep_view() =~= Seq::<Seq<char>>::empty());
    _evaluate_expressions(root, labels, t, root, &path, wrapping, warnings)
}

/// Converts an evaluated tree into plain nodes.
pub fn from_temp_tree(node: &TempNode) -> (r: Node)
    requires
        all_bytes(*node),
    ensures
        flattened(*node, r),
    decreases node,
{
    let mut properties: Vec<Property> = Vec::new();
    let mut i: usize = 0;
    while i < node.properties.len()
        invariant
            i <= node.properties@.len(),
            all_bytes(*node),
            properties@.len() == i,
            forall|j: int|
                0 <= j < i ==> (#[trigger] properties@[j]).name@ == node.properties@[j].name@
                    && node.properties@[j].value is Bytes && properties@[j].value@ == bytes_of(
                    node.properties@[j].value,
                ),
        decreases node.properties@.len() - i,
    {
        let p = &node.properties[i];
        assert(node.properties@[i as int].value is Bytes);
        if let TempValue::Bytes(b) = &p.value {
            let mut value: Vec<u8> = Vec::new();
            push_all(&mut value, b.as_slice());
            assert(value@ =~= b@);
            properties.push(Property { name: p.name.clone(), value });
        }
        i += 1;
    }
    let mut children: Vec<Node> = Vec::new();
    let mut c: usize = 0;
    while c < node.children.len()
        invariant
            c <= node.children@.len(),
            all_bytes(*node),
            children@.len() == c,
            forall|j: int| 0 <= j < c ==> flattened(#[trigger] node.children@[j], children@[j]),
        decreases node.children@.len() - c,
    {
        proof {
            assert(decreases_to!(node => node.children@[c as int]));
            assert(all_bytes(node.children@[c as int]));
        }
        children.push(from_temp_tree(&node.children[c]));
        c += 1;
    }
    Node { name: node.name.clone(), properties, children }
}

/// `n` is `tree` with every property evaluated under table `t` and the
/// made-up `phandle` properties added, flattened.
pub open spec fn evaluated_flat(
    labels: LabelMap,
    tree: TempNode,
    t: PhandleTable,
    wrapping: bool,
    n: Node,
) -> bool {
    exists|ev: TempNode|
        node_evaluated(labels, tree, t, Seq::empty(), tree, ev, wrapping) && #[trigger] flattened(
            ev,
            n,
        )
}

/// What `eval` returns for `tree`: the first error of phandle allocation if
/// there is one; else, under exactly the table that allocation gives, the
/// first error of property evaluation in pre-order if there is one; else the
/// tree with every property evaluated and the made-up `phandle` properties
/// added, flattened.
pub open spec fn evaluates_to(
    labels: LabelMap,
    tree: TempNode,
    wrapping: bool,
    r: Result<Node, Error>,
) -> bool {
    match assign_spec(labels, tree) {
        Err(e) => r == Err::<Node, Error>(e),
        Ok(x) => exists|t: PhandleTable|
            #[trigger] table_is(t, x) && table_wf(tree, t) && match node_err(
                labels,
                tree,
                t,
                tree,
                wrapping,
            ) {
                Some(e) => r == Err::<Node, Error>(e),
                None => r is Ok && evaluated_flat(labels, tree, t, wrapping, r->Ok_0),
            },
    }
}

/// Assigns phandles, evaluates every property, and converts the tree to plain
/// nodes. `wrapping` selects wrapping `+ - *` in expressions; values that do
/// not fit their cell width are reported in `warnings`.
pub fn eval(
    tree: TempNode,
    node_labels: LabelMap,
    wrapping: bool,
    warnings: &mut Vec<Truncation>,
) -> (r: Result<Node, Error>)
    ensures
        warned(old(warnings)@, final(warnings)@),
        not_missing(r),
        evaluates_to(node_labels, tree, wrapping, r),
        r is Ok ==> final(warnings)@ == old(warnings)@ + node_warn(tree, wrapping),
{
    proof {
        lemma_warned_refl(warnings@);
    }
    let t = assign_phandles(&tree, &node_labels)?;
    let ghost x = assign_spec(node_labels, tree)->Ok_0;
    assert(table_is(t, x) && table_wf(tree, t));
    let res = evaluate_expressions(&tree, &node_labels, &t, wrapping, warnings);
    match res {
        Err(err) => {
            assert(node_err(node_labels, tree, t, tree, wrapping) == Some(err));
            Err(err)
        },
        Ok(e) => {
            let n = from_temp_tree(&e);
            assert(node_evaluated(node_labels, tree, t, Seq::empty(), tree, e, wrapping)
                && flattened(e, n));
            assert(evaluated_flat(node_labels, tree, t, wrapping, n));
            Ok(n)
        },
    }
}

} // verus!

use dtsp::error::{Error, ErrorKind, Span};
use dtsp::escape::{unescape, unescape_char};
use dtsp::eval::{eval, Truncation};
use dtsp::expr::{eval_binary_op, parse_int, BinaryOp, Expr, ExprKind, UnaryOp};
use dtsp::loader::{IncludeLoader, Lookup};
use dtsp::phandle::assign_phandles;
use dtsp::tree::{
    Cell, Cells, LabelEntry, LabelMap, Literal, PropValue, Reference, Target, TempNode,
    TempProperty, TempValue, Value,
};
use dtsp::Node;

fn sp(start: usize, end: usize) -> Span {
    Span { start, end }
}

fn ex(kind: ExprKind) -> Expr {
    Expr { kind, span: sp(0, 0) }
}

fn num(s: &str) -> Expr {
    ex(ExprKind::Number(s.to_string()))
}

fn chr(s: &str) -> Expr {
    ex(ExprKind::Char(s.to_string()))
}

fn un(op: UnaryOp, a: Expr) -> Expr {
    ex(ExprKind::Unary(op, Box::new(a)))
}

fn bin(op: BinaryOp, a: Expr, b: Expr) -> Expr {
    ex(ExprKind::Binary(op, Box::new(a), Box::new(b)))
}

fn tern(c: Expr, a: Expr, b: Expr) -> Expr {
    ex(ExprKind::Ternary(Box::new(c), Box::new(a), Box::new(b)))
}

fn lit(s: &str) -> Literal {
    Literal { text: s.to_string(), span: sp(0, 0) }
}

fn cells(bits: Option<&str>, cells: Vec<Cell>) -> Value {
    Value::Cells(Cells { bits: bits.map(lit), cells })
}

fn label_ref(l: &str) -> Reference {
    Reference { target: Target::Label(l.to_string()), span: sp(0, 0) }
}

fn path_ref(p: &[&str]) -> Reference {
    Reference { target: Target::Path(p.iter().map(|s| s.to_string()).collect()), span: sp(0, 0) }
}

fn prop(name: &str, values: Vec<Value>) -> TempProperty {
    TempProperty {
        name: name.to_string(),
        value: TempValue::Ast(PropValue { values, span: sp(0, 0) }),
    }
}

fn kind<T>(r: Result<T, Error>) -> Option<ErrorKind> {
    r.err().map(|e| e.kind)
}

fn bytes_prop(name: &str, b: &[u8]) -> TempProperty {
    TempProperty { name: name.to_string(), value: TempValue::Bytes(b.to_vec()) }
}

fn node(name: &str, properties: Vec<TempProperty>, children: Vec<TempNode>) -> TempNode {
    TempNode { name: name.to_string(), properties, children }
}

fn labels(entries: &[(&str, &[&str])]) -> LabelMap {
    LabelMap {
        entries: entries
            .iter()
            .map(|(l, p)| LabelEntry {
                label: l.to_string(),
                path: p.iter().map(|s| s.to_string()).collect(),
            })
            .collect(),
    }
}

fn eval_expr(e: Expr) -> Result<u64, Error> {
    e.eval(false)
}

fn get<'a>(n: &'a Node, name: &str) -> &'a [u8] {
    &n.properties.iter().find(|p| p.name == name).unwrap().value
}

fn child<'a>(n: &'a Node, name: &str) -> &'a Node {
    n.children.iter().find(|c| c.name == name).unwrap()
}

fn run(tree: TempNode, l: LabelMap) -> Result<(Node, Vec<Truncation>), Error> {
    let mut w = Vec::new();
    let n = eval(tree, l, false, &mut w)?;
    Ok((n, w))
}

/// Each property of the `check` node is `<expected computed>`; both halves
/// must come out equal.
#[test]
fn test_eval() {
    let pair = |name: &str, expected: Expr, computed: Expr| {
        prop(name, vec![cells(None, vec![Cell::Expr(expected), Cell::Expr(computed)])])
    };
    let check = node(
        "check",
        vec![
            pair("add", num("3"), bin(BinaryOp::Add, num("1"), num("2"))),
            pair("hex", num("255"), num("0xff")),
            pair("octal", num("8"), num("010")),
            pair("suffix", num("10"), num("10UL")),
            pair("charlit", num("0x41"), chr("A")),
            pair("charesc", num("10"), chr("\\n")),
            pair("shift", num("0"), bin(BinaryOp::Shl, num("1"), num("64"))),
            pair("cmp", num("1"), bin(BinaryOp::Lt, num("1"), num("2"))),
            pair(
                "ternary",
                num("7"),
                tern(num("0"), num("1"), num("7")),
            ),
            pair("not", num("0"), un(UnaryOp::LogicalNot, num("5"))),
            pair("mod", num("1"), bin(BinaryOp::Rem, num("7"), num("3"))),
        ],
        vec![],
    );
    let tree = node("", vec![], vec![check]);
    let (out, _) = run(tree, labels(&[])).unwrap();
    let check = child(&out, "check");
    for p in &check.properties {
        let name = &p.name;
        let v = &p.value;
        assert_eq!(v.len(), 8, "property {name} has wrong shape; should be <expected computed>");
        let left = u32::from_be_bytes(v[0..4].try_into().unwrap());
        let right = u32::from_be_bytes(v[4..8].try_into().unwrap());
        assert_eq!(left, right, "property {name} did not evaluate to two equal values");
    }
}

#[test]
fn plain_string_decodes_to_itself() {
    for s in ["", "hello", "a\"b", "caf\u{e9} \u{1F600}"] {
        assert_eq!(unescape(s).unwrap(), s.as_bytes().to_vec());
    }
}

#[test]
fn escape_sequences() {
    assert_eq!(unescape("\\n").unwrap(), vec![0x0a]);
    assert_eq!(unescape("\\x41").unwrap(), b"A".to_vec());
    assert_eq!(unescape("\\101").unwrap(), b"A".to_vec());
    assert_eq!(unescape("\\501"), Err(ErrorKind::BadOctalEscape(1)));
    assert_eq!(unescape("a\\tb\\\\").unwrap(), b"a\tb\\".to_vec());
    assert_eq!(unescape("\\a\\b\\f\\r\\v").unwrap(), vec![7, 8, 12, 13, 11]);
    assert_eq!(unescape("\\x4g").unwrap(), b"\x04g".to_vec());
    assert_eq!(unescape("\\0").unwrap(), vec![0]);
    assert_eq!(unescape("\\1234").unwrap(), b"S4".to_vec());
    assert_eq!(unescape("\\q\\\u{e9}").unwrap(), "q\u{e9}".as_bytes().to_vec());
}

#[test]
fn escape_errors() {
    assert_eq!(unescape("ab\\"), Err(ErrorKind::UnterminatedEscape(3)));
    assert_eq!(unescape("\\xg"), Err(ErrorKind::BadHexEscape(2)));
    assert_eq!(unescape("\\x"), Err(ErrorKind::BadHexEscape(2)));
    assert_eq!(unescape_char("ab"), Err(ErrorKind::CharLiteralLength(2)));
    assert_eq!(unescape_char(""), Err(ErrorKind::CharLiteralLength(0)));
    assert_eq!(unescape_char("\\x7f"), Ok(0x7f));
}

#[test]
fn addition_checked_and_overflow() {
    assert_eq!(eval_expr(bin(BinaryOp::Add, num("40"), num("2"))), Ok(42));
    assert_eq!(
        eval_expr(bin(BinaryOp::Add, num("0xffffffffffffffff"), num("0"))),
        Ok(u64::MAX)
    );
    assert_eq!(
        kind(eval_expr(bin(BinaryOp::Add, num("0xffffffffffffffff"), num("1")))),
        Some(ErrorKind::ArithmeticOverflow)
    );
    assert_eq!(
        bin(BinaryOp::Add, num("0xffffffffffffffff"), num("2")).eval(true),
        Ok(1)
    );
    assert_eq!(
        kind(eval_expr(bin(BinaryOp::Sub, num("1"), num("2")))),
        Some(ErrorKind::ArithmeticOverflow)
    );
    assert_eq!(bin(BinaryOp::Sub, num("1"), num("2")).eval(true), Ok(u64::MAX));
    assert_eq!(
        kind(eval_expr(bin(BinaryOp::Mul, num("0x100000000"), num("0x100000000")))),
        Some(ErrorKind::ArithmeticOverflow)
    );
}

#[test]
fn ternary_is_lazy() {
    let bad = bin(BinaryOp::Div, num("1"), num("0"));
    assert_eq!(kind(eval_expr(bad)), Some(ErrorKind::DivisionByZero));
    let e = tern(num("1"), num("2"), bin(BinaryOp::Div, num("1"), num("0")));
    assert_eq!(eval_expr(e), Ok(2));
    let e = tern(num("0"), num("zz"), num("3"));
    assert_eq!(eval_expr(e), Ok(3));
}

#[test]
fn binary_operators() {
    assert_eq!(eval_binary_op(7, BinaryOp::Div, 2, false), Ok(3));
    assert_eq!(eval_binary_op(7, BinaryOp::Rem, 0, false), Err(ErrorKind::DivisionByZero));
    assert_eq!(eval_binary_op(1, BinaryOp::Shl, 63, false), Ok(1 << 63));
    assert_eq!(eval_binary_op(u64::MAX, BinaryOp::Shr, 64, false), Ok(0));
    assert_eq!(eval_binary_op(0, BinaryOp::LogicalAnd, 5, false), Ok(0));
    assert_eq!(eval_binary_op(0, BinaryOp::LogicalOr, 5, false), Ok(1));
    assert_eq!(eval_binary_op(0xf0, BinaryOp::BitXor, 0xff, false), Ok(0x0f));
    assert_eq!(eval_binary_op(3, BinaryOp::Ge, 3, false), Ok(1));
    assert_eq!(eval_binary_op(3, BinaryOp::Ne, 3, false), Ok(0));
    assert_eq!(eval_expr(un(UnaryOp::Negate, num("1"))), Ok(u64::MAX));
    assert_eq!(eval_expr(un(UnaryOp::BitwiseNot, num("0"))), Ok(u64::MAX));
}

#[test]
fn integer_literals() {
    assert_eq!(parse_int(b"0"), Some(0));
    assert_eq!(parse_int(b"0x1F"), Some(31));
    assert_eq!(parse_int(b"0X10"), Some(16));
    assert_eq!(parse_int(b"017"), Some(15));
    assert_eq!(parse_int(b"019"), None);
    assert_eq!(parse_int(b"123"), Some(123));
    assert_eq!(parse_int(b"0x"), None);
    assert_eq!(parse_int(b"18446744073709551615"), Some(u64::MAX));
    assert_eq!(parse_int(b"18446744073709551616"), None);
    assert_eq!(eval_expr(num("10ULL")), Ok(10));
    assert_eq!(kind(eval_expr(num("10ul"))), Some(ErrorKind::BadNumericLiteral));
}

fn phandle_tree() -> (TempNode, LabelMap) {
    let a = node(
        "a",
        vec![prop(
            "x",
            vec![cells(None, vec![Cell::NodeReference(label_ref("intc")), Cell::Expr(num("5"))])],
        )],
        vec![],
    );
    let b = node(
        "b",
        vec![
            prop("y", vec![cells(None, vec![Cell::NodeReference(label_ref("intc"))])]),
            prop("z", vec![cells(None, vec![Cell::NodeReference(label_ref("clk"))])]),
        ],
        vec![],
    );
    let intc = node("intc", vec![], vec![]);
    let clk = node("clk", vec![], vec![]);
    let tree = node("", vec![], vec![a, b, intc, clk]);
    let l = labels(&[("intc", &["intc"]), ("clk", &["clk"])]);
    (tree, l)
}

#[test]
fn phandles_are_distinct_and_shared() {
    let (tree, l) = phandle_tree();
    let t = assign_phandles(&tree, &l).unwrap();
    assert_eq!(t.targets, vec![vec!["intc".to_string()], vec!["clk".to_string()]]);
    assert_eq!(t.values, vec![1, 2]);
    assert_eq!(t.fresh, vec![true, true]);
}

#[test]
fn shared_reference_end_to_end() {
    let (tree, l) = phandle_tree();
    let (out, w) = run(tree, l).unwrap();
    assert!(w.is_empty());
    let x = get(child(&out, "a"), "x");
    let y = get(child(&out, "b"), "y");
    assert_eq!(x, &[0, 0, 0, 1, 0, 0, 0, 5]);
    assert_eq!(&x[0..4], y);
    assert_eq!(get(child(&out, "intc"), "phandle"), &[0, 0, 0, 1]);
    assert_eq!(get(child(&out, "clk"), "phandle"), &[0, 0, 0, 2]);
    assert_eq!(get(child(&out, "b"), "z"), &[0, 0, 0, 2]);
}

#[test]
fn explicit_phandle_is_kept() {
    let target = node("t", vec![bytes_prop("phandle", &[0, 0, 0, 9])], vec![]);
    let user = node(
        "u",
        vec![prop("r", vec![cells(None, vec![Cell::NodeReference(label_ref("t"))])])],
        vec![],
    );
    let tree = node("", vec![], vec![target, user]);
    let (out, _) = run(tree, labels(&[("t", &["t"])])).unwrap();
    assert_eq!(get(child(&out, "u"), "r"), &[0, 0, 0, 9]);
    assert_eq!(child(&out, "t").properties.len(), 1);
}

#[test]
fn bad_explicit_phandles() {
    for bad in [&[0u8, 0, 0, 0][..], &[0xff, 0xff, 0xff, 0xff][..], &[0, 1][..]] {
        let target = node("t", vec![bytes_prop("phandle", bad)], vec![]);
        let user = node(
            "u",
            vec![prop("r", vec![cells(None, vec![Cell::NodeReference(label_ref("t"))])])],
            vec![],
        );
        let tree = node("", vec![], vec![target, user]);
        assert_eq!(kind(run(tree, labels(&[("t", &["t"])]))), Some(ErrorKind::BadPhandle));
    }
    let target = node("t", vec![prop("phandle", vec![cells(None, vec![])])], vec![]);
    let user = node(
        "u",
        vec![prop("r", vec![cells(None, vec![Cell::NodeReference(label_ref("t"))])])],
        vec![],
    );
    let tree = node("", vec![], vec![target, user]);
    assert_eq!(kind(run(tree, labels(&[("t", &["t"])]))), Some(ErrorKind::PhandleSelfReference));
}

#[test]
fn phandle_reference_needs_32_bits() {
    let make = |bits: Option<&str>| {
        let target = node("t", vec![], vec![]);
        let user =
            node("u", vec![prop("r", vec![cells(bits, vec![Cell::NodeReference(label_ref("t"))])])], vec![]);
        (node("", vec![], vec![target, user]), labels(&[("t", &["t"])]))
    };
    let (tree, l) = make(Some("16"));
    assert_eq!(kind(run(tree, l)), Some(ErrorKind::PhandleNeedsBits32(16)));
    let (tree, l) = make(None);
    let (out, _) = run(tree, l).unwrap();
    assert_eq!(get(child(&out, "u"), "r"), &[0, 0, 0, 1]);
}

#[test]
fn truncation_warns_but_emits() {
    let n = node("n", vec![prop("v", vec![cells(Some("8"), vec![Cell::Expr(num("0x1FF"))])])], vec![]);
    let (out, w) = run(node("", vec![], vec![n]), labels(&[])).unwrap();
    assert_eq!(get(child(&out, "n"), "v"), &[0xff]);
    assert_eq!(w, vec![Truncation { value: 0x1ff, bits: 8, span: sp(0, 0) }]);
    let n = node(
        "n",
        vec![prop(
            "v",
            vec![cells(
                Some("16"),
                vec![
                    Cell::Expr(num("0xffff")),
                    Cell::Expr(un(UnaryOp::Negate, num("1"))),
                ],
            )],
        )],
        vec![],
    );
    let (out, w) = run(node("", vec![], vec![n]), labels(&[])).unwrap();
    assert_eq!(get(child(&out, "n"), "v"), &[0xff, 0xff, 0xff, 0xff]);
    assert!(w.is_empty());
}

#[test]
fn widths_and_bit_errors() {
    let n = node(
        "n",
        vec![prop("v", vec![cells(Some("64"), vec![Cell::Expr(num("0x0102030405060708"))])])],
        vec![],
    );
    let (out, _) = run(node("", vec![], vec![n]), labels(&[])).unwrap();
    assert_eq!(get(child(&out, "n"), "v"), &[1, 2, 3, 4, 5, 6, 7, 8]);
    let n = node("n", vec![prop("v", vec![cells(Some("12"), vec![])])], vec![]);
    assert_eq!(kind(run(node("", vec![], vec![n]), labels(&[]))), Some(ErrorKind::BadBitWidth(12)));
}

#[test]
fn other_value_kinds() {
    let target = node("dev", vec![], vec![node("sub", vec![], vec![])]);
    let n = node(
        "n",
        vec![
            prop("s", vec![Value::QuotedString(lit("hi\\n"))]),
            prop("p", vec![Value::NodeReference(path_ref(&["dev", "sub"]))]),
            prop("l", vec![Value::NodeReference(label_ref("d"))]),
            prop("b", vec![Value::ByteString(vec![lit("0a"), lit("FF")])]),
            prop(
                "mix",
                vec![Value::QuotedString(lit("a")), cells(Some("8"), vec![Cell::Expr(num("1"))])],
            ),
            bytes_prop("raw", &[1, 2]),
        ],
        vec![],
    );
    let tree = node("", vec![], vec![target, n]);
    let (out, _) = run(tree, labels(&[("d", &["dev"])])).unwrap();
    let n = child(&out, "n");
    assert_eq!(get(n, "s"), b"hi\n\0");
    assert_eq!(get(n, "p"), b"/dev/sub\0");
    assert_eq!(get(n, "l"), b"/dev\0");
    assert_eq!(get(n, "b"), &[0x0a, 0xff]);
    assert_eq!(get(n, "mix"), &[b'a', 0, 1]);
    assert_eq!(get(n, "raw"), &[1, 2]);
    let names: Vec<&str> = n.properties.iter().map(|p| p.name.as_str()).collect();
    assert_eq!(names, vec!["s", "p", "l", "b", "mix", "raw"]);
    assert!(child(&out, "dev").properties.is_empty());
}

#[test]
fn root_reference_and_errors() {
    let n = node("n", vec![prop("p", vec![Value::NodeReference(path_ref(&[]))])], vec![]);
    let (out, _) = run(node("", vec![], vec![n]), labels(&[])).unwrap();
    assert_eq!(get(child(&out, "n"), "p"), b"/\0");

    let n = node("n", vec![prop("p", vec![Value::NodeReference(label_ref("nope"))])], vec![]);
    assert_eq!(
        kind(run(node("", vec![], vec![n]), labels(&[]))),
        Some(ErrorKind::UnknownLabel("nope".to_string()))
    );
    let n = node(
        "n",
        vec![prop("p", vec![Value::NodeReference(path_ref(&["missing"]))])],
        vec![],
    );
    assert_eq!(kind(run(node("", vec![], vec![n]), labels(&[]))), Some(ErrorKind::NoSuchNode));
    let n = node("n", vec![prop("p", vec![Value::Incbin(sp(0, 0))])], vec![]);
    assert_eq!(kind(run(node("", vec![], vec![n]), labels(&[]))), Some(ErrorKind::IncbinUnimplemented));
    let n = node("n", vec![prop("p", vec![Value::ByteString(vec![lit("zz")])])], vec![]);
    assert_eq!(kind(run(node("", vec![], vec![n]), labels(&[]))), Some(ErrorKind::BadNumericLiteral));
}

#[test]
fn loader_finds_in_order() {
    let mut loader = IncludeLoader::new(vec!["inc".to_string(), "/abs/".to_string()]);
    let base = "src".to_string();
    let file = "a.dtsi".to_string();
    match loader.find(Some(&base), &file) {
        Lookup::Read(p) => assert_eq!(p, "src/a.dtsi"),
        other => panic!("unexpected {other:?}"),
    }
    loader.record_read("src/a.dtsi".to_string(), None);
    match loader.find(Some(&base), &file) {
        Lookup::Read(p) => assert_eq!(p, "inc/a.dtsi"),
        other => panic!("unexpected {other:?}"),
    }
    loader.record_read("inc/a.dtsi".to_string(), Some(b"x".to_vec()));
    match loader.find(Some(&base), &file) {
        Lookup::Found(p, b) => {
            assert_eq!(p, "inc/a.dtsi");
            assert_eq!(b, b"x".to_vec());
        }
        other => panic!("unexpected {other:?}"),
    }
    let abs = "/etc/b.dtsi".to_string();
    match loader.find(None, &abs) {
        Lookup::Read(p) => assert_eq!(p, "/etc/b.dtsi"),
        other => panic!("unexpected {other:?}"),
    }
    loader.record_read("/etc/b.dtsi".to_string(), None);
    assert!(matches!(loader.find(None, &abs), Lookup::Missing));
}

#[test]
fn depfile_sorted_and_escaped() {
    let mut loader = IncludeLoader::new(vec![]);
    loader.record_read("z.dts".to_string(), Some(vec![]));
    loader.record_read("my file.dtsi".to_string(), Some(vec![]));
    loader.record_read("a/b.dtsi".to_string(), None);
    loader.record_missing_parent(".".to_string());
    loader.record_missing_parent(".".to_string());
    assert!(loader.has_missing_parent(&".".to_string()));
    assert_eq!(
        loader.write_depfile("out put.dtb"),
        "out\\ put.dtb: a/b.dtsi my\\ file.dtsi z.dts .\n"
    );
}

#[test]
fn missing_parent_tracking() {
    let mut loader = IncludeLoader::new(vec![]);
    // The walk up from "a/b/c.dtsi": "a/b" does not exist, "a" does.
    assert!(!loader.track_parent_of_missing(&"a/b".to_string(), false));
    assert!(loader.track_parent_of_missing(&"a".to_string(), true));
    assert_eq!(loader.parents_of_missing, vec!["a".to_string()]);
    // A later walk stops at the recorded ancestor without adding it again.
    assert!(loader.track_parent_of_missing(&"a".to_string(), true));
    assert_eq!(loader.parents_of_missing, vec!["a".to_string()]);
    // The empty ancestor of a relative path stands for ".".
    assert!(!loader.track_parent_of_missing(&"".to_string(), false));
    assert_eq!(loader.parents_of_missing, vec!["a".to_string(), ".".to_string()]);
    assert_eq!(loader.write_depfile("t"), "t: . a\n");
}

#[test]
fn loader_join_keeps_trailing_separator() {
    let loader = IncludeLoader::new(vec!["/abs/".to_string(), "".to_string()]);
    match loader.find(None, &"x.h".to_string()) {
        Lookup::Read(p) => assert_eq!(p, "/abs/x.h"),
        other => panic!("unexpected {other:?}"),
    }
}

#[test]
fn errors_carry_spans() {
    let e = Expr {
        kind: ExprKind::Binary(
            BinaryOp::Add,
            Box::new(num("0xffffffffffffffff")),
            Box::new(num("1")),
        ),
        span: sp(10, 30),
    };
    let err = e.eval(false).unwrap_err();
    assert_eq!(err, Error { kind: ErrorKind::ArithmeticOverflow, span: Some(sp(10, 30)) });
    assert_eq!(err.kind.message(), "arithmetic overflow");

    let bad_lit = Expr { kind: ExprKind::Number("12z".to_string()), span: sp(3, 6) };
    let e = Expr {
        kind: ExprKind::Binary(BinaryOp::Mul, Box::new(num("2")), Box::new(bad_lit)),
        span: sp(0, 6),
    };
    assert_eq!(e.eval(false).unwrap_err().span, Some(sp(3, 6)));

    let r = Reference { target: Target::Label("nope".to_string()), span: sp(40, 45) };
    let n = node("n", vec![prop("p", vec![cells(None, vec![Cell::NodeReference(r)])])], vec![]);
    let err = run(node("", vec![], vec![n]), labels(&[])).unwrap_err();
    assert_eq!(err.span, Some(sp(40, 45)));
    assert_eq!(err.kind, ErrorKind::UnknownLabel("nope".to_string()));

    let bits = Literal { text: "7".to_string(), span: sp(7, 8) };
    let n = node(
        "n",
        vec![prop("p", vec![Value::Cells(Cells { bits: Some(bits), cells: vec![] })])],
        vec![],
    );
    let err = run(node("", vec![], vec![n]), labels(&[])).unwrap_err();
    assert_eq!(err, Error { kind: ErrorKind::BadBitWidth(7), span: Some(sp(7, 8)) });
    assert_eq!(err.kind.message(), "bad bit width: must be 8, 16, 32, or 64");

    let s = Literal { text: "a\\".to_string(), span: sp(20, 24) };
    let n = node("n", vec![prop("p", vec![Value::QuotedString(s)])], vec![]);
    let err = run(node("", vec![], vec![n]), labels(&[])).unwrap_err();
    assert_eq!(err, Error { kind: ErrorKind::UnterminatedEscape(2), span: Some(sp(20, 24)) });

    let cell = Expr { kind: ExprKind::Number("0x100".to_string()), span: sp(50, 55) };
    let n = node("n", vec![prop("p", vec![cells(Some("8"), vec![Cell::Expr(cell)])])], vec![]);
    let (out, w) = run(node("", vec![], vec![n]), labels(&[])).unwrap();
    assert_eq!(get(child(&out, "n"), "p"), &[0x00]);
    assert_eq!(w, vec![Truncation { value: 0x100, bits: 8, span: sp(50, 55) }]);
    assert_eq!(w[0].emitted(), 0);
    assert_eq!(Truncation { value: 0x1ff, bits: 8, span: sp(0, 0) }.emitted(), 0xff);
}

#[test]
fn first_error_in_preorder_wins() {
    let bad1 = Literal { text: "\\".to_string(), span: sp(1, 2) };
    let bad2 = Literal { text: "zz".to_string(), span: sp(5, 7) };
    let inner = node("c", vec![prop("q", vec![Value::QuotedString(bad1)])], vec![]);
    let outer = node("p", vec![prop("r", vec![Value::ByteString(vec![bad2])])], vec![inner]);
    let err = run(node("", vec![], vec![outer]), labels(&[])).unwrap_err();
    assert_eq!(err, Error { kind: ErrorKind::BadNumericLiteral, span: Some(sp(5, 7)) });
}

#[test]
fn standalone_reference_allocates_no_phandle() {
    let target = node("t", vec![], vec![]);
    let user = node("u", vec![prop("r", vec![Value::NodeReference(label_ref("t"))])], vec![]);
    let tree = node("", vec![], vec![target, user]);
    let (out, _) = run(tree, labels(&[("t", &["t"])])).unwrap();
    assert!(child(&out, "t").properties.is_empty());
    assert_eq!(get(child(&out, "u"), "r"), b"/t\0");
}

#[test]
fn collection_error_comes_first() {
    let user = node(
        "u",
        vec![
            prop("v", vec![Value::Incbin(sp(0, 1))]),
            prop("r", vec![cells(None, vec![Cell::NodeReference(label_ref("gone"))])]),
        ],
        vec![],
    );
    let err = run(node("", vec![], vec![user]), labels(&[])).unwrap_err();
    assert_eq!(err.kind, ErrorKind::UnknownLabel("gone".to_string()));
}

#[test]
fn empty_depfile() {
    assert_eq!(IncludeLoader::new(vec![]).write_depfile("a b"), "a\\ b:\n");
}

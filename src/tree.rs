//! The merged, not-yet-evaluated tree, its labels, and the resolution of
//! references to node paths.
//!
//! A node path is the sequence of node names from the root; in contracts it is
//! a `Seq<Seq<char>>`, in code a `Vec<String>`.

use crate::error::{at, Error, ErrorKind, Span};
use crate::expr::Expr;
use vstd::prelude::*;
use vstd::utf8::encode_utf8;

verus! {

/// What a reference names: a label, or a path from the root.
#[derive(Debug)]
pub enum Target {
    Label(String),
    Path(Vec<String>),
}

/// A reference to a node, and where it stands in the source.
#[derive(Debug)]
pub struct Reference {
    pub target: Target,
    pub span: Span,
}

/// The text of a literal, and where it stands in the source.
#[derive(Debug)]
pub struct Literal {
    pub text: String,
    pub span: Span,
}

/// One entry of a cell list.
#[derive(Debug)]
pub enum Cell {
    /// `&label` or `&{/path}`: the phandle of the node.
    NodeReference(Reference),
    /// An integer literal or a parenthesised expression.
    Expr(Expr),
}

/// `/bits/ N < ... >`.
#[derive(Debug)]
pub struct Cells {
    /// The literal after `/bits/`, if there is one.
    pub bits: Option<Literal>,
    pub cells: Vec<Cell>,
}

/// One comma-separated part of a property value.
#[derive(Debug)]
pub enum Value {
    Cells(Cells),
    /// The text between the double quotes.
    QuotedString(Literal),
    /// A reference standing alone: its path, as text.
    NodeReference(Reference),
    /// `[ab cd]`: each two-digit hex byte.
    ByteString(Vec<Literal>),
    Incbin(Span),
}

/// The value of a property as written in the source.
#[derive(Debug)]
pub struct PropValue {
    pub values: Vec<Value>,
    pub span: Span,
}

/// A property value: already bytes, or still to be evaluated.
#[derive(Debug)]
pub enum TempValue {
    Bytes(Vec<u8>),
    Ast(PropValue),
}

#[derive(Debug)]
pub struct TempProperty {
    pub name: String,
    pub value: TempValue,
}

/// A node of the merged tree. Property and child order is source order;
/// names are unique among siblings.
#[derive(Debug)]
pub struct TempNode {
    pub name: String,
    pub properties: Vec<TempProperty>,
    pub children: Vec<TempNode>,
}

#[derive(Debug)]
pub struct LabelEntry {
    pub label: String,
    pub path: Vec<String>,
}

/// Label name to node path. Labels are unique.
#[derive(Debug)]
pub struct LabelMap {
    pub entries: Vec<LabelEntry>,
}

/// The first index at or after `i` of a node named `name`.
pub open spec fn child_index_from(children: Seq<TempNode>, name: Seq<char>, i: int) -> Option<int>
    decreases children.len() - i,
{
    if i < 0 || i >= children.len() {
        None
    } else if children[i].name@ == name {
        Some(i)
    } else {
        child_index_from(children, name, i + 1)
    }
}

pub open spec fn child_named(node: TempNode, name: Seq<char>) -> Option<TempNode> {
    match child_index_from(node.children@, name, 0) {
        Some(k) => Some(node.children@[k]),
        None => None,
    }
}

/// The node at path `p` below `node`, if there is one.
pub open spec fn walk(node: TempNode, p: Seq<Seq<char>>) -> Option<TempNode>
    decreases p.len(),
{
    if p.len() == 0 {
        Some(node)
    } else {
        match walk(node, p.drop_last()) {
            Some(n) => child_named(n, p.last()),
            None => None,
        }
    }
}

/// The first entry of `entries` at or after `i` for `label`.
pub open spec fn label_from(entries: Seq<LabelEntry>, label: Seq<char>, i: int) -> Option<
    Seq<Seq<char>>,
>
    decreases entries.len() - i,
{
    if i < 0 || i >= entries.len() {
        None
    } else if entries[i].label@ == label {
        Some(entries[i].path.deep_view())
    } else {
        label_from(entries, label, i + 1)
    }
}

/// The path that a reference stands for, if a node of `root` is there.
pub open spec fn resolve_spec(labels: LabelMap, root: TempNode, r: Reference) -> Result<
    Seq<Seq<char>>,
    Error,
> {
    let target = match r.target {
        Target::Label(l) => label_from(labels.entries@, l@, 0),
        Target::Path(p) => Some(p.deep_view()),
    };
    match target {
        None => Err(at(ErrorKind::UnknownLabel(r.target->Label_0), r.span)),
        Some(p) => if walk(root, p) is Some {
            Ok(p)
        } else {
            Err(at(ErrorKind::NoSuchNode, r.span))
        },
    }
}

/// The text of a path: `/` for the root, else `/a/b`, in UTF-8.
pub open spec fn path_bytes(p: Seq<Seq<char>>) -> Seq<u8> {
    if p.len() == 0 {
        seq![0x2fu8]
    } else {
        segments_bytes(p)
    }
}

pub open spec fn segments_bytes(p: Seq<Seq<char>>) -> Seq<u8>
    decreases p.len(),
{
    if p.len() == 0 {
        Seq::empty()
    } else {
        segments_bytes(p.drop_last()) + seq![0x2fu8] + encode_utf8(p.last())
    }
}

/// Copies a path.
pub fn clone_path(p: &Vec<String>) -> (r: Vec<String>)
    ensures
        r.deep_view() == p.deep_view(),
{
    let mut r: Vec<String> = Vec::new();
    let mut i: usize = 0;
    while i < p.len()
        invariant
            i <= p@.len(),
            r@.len() == i,
            forall|j: int| 0 <= j < i ==> (#[trigger] r@[j])@ == p@[j]@,
        decreases p@.len() - i,
    {
        r.push(p[i].clone());
        i += 1;
    }
    assert(r.deep_view() =~= p.deep_view());
    r
}

/// Whether two paths name the same node.
pub fn paths_equal(a: &Vec<String>, b: &Vec<String>) -> (r: bool)
    ensures
        r == (a.deep_view() == b.deep_view()),
{
    if a.len() != b.len() {
        assert(a.deep_view().len() != b.deep_view().len());
        return false;
    }
    let mut i: usize = 0;
    while i < a.len()
        invariant
            i <= a@.len(),
            a@.len() == b@.len(),
            forall|j: int| 0 <= j < i ==> (#[trigger] a@[j])@ == b@[j]@,
        decreases a@.len() - i,
    {
        if a[i] != b[i] {
            assert(a.deep_view()[i as int] != b.deep_view()[i as int]);
            return false;
        }
        i += 1;
    }
    assert(a.deep_view() =~= b.deep_view());
    true
}

/// Finds the child of `node` named `name`.
pub fn find_child<'a>(node: &'a TempNode, name: &String) -> (r: Option<&'a TempNode>)
    ensures
        match r {
            Some(c) => child_named(*node, name@) == Some(*c),
            None => child_named(*node, name@) is None,
        },
{
    let mut i: usize = 0;
    while i < node.children.len()
        invariant
            i <= node.children@.len(),
            child_index_from(node.children@, name@, 0) == child_index_from(
                node.children@,
                name@,
                i as int,
            ),
        decreases node.children@.len() - i,
    {
        if node.children[i].name == *name {
            return Some(&node.children[i]);
        }
        i += 1;
    }
    None
}

/// Finds the node at path `p` below `root`.
pub fn walk_path<'a>(root: &'a TempNode, p: &Vec<String>) -> (r: Option<&'a TempNode>)
    ensures
        match r {
            Some(n) => walk(*root, p.deep_view()) == Some(*n),
            None => walk(*root, p.deep_view()) is None,
        },
{
    let mut cur: &TempNode = root;
    let mut i: usize = 0;
    proof {
        assert(p.deep_view().subrange(0, 0).len() == 0);
    }
    while i < p.len()
        invariant
            i <= p@.len(),
            walk(*root, p.deep_view().subrange(0, i as int)) == Some(*cur),
        decreases p@.len() - i,
    {
        proof {
            let q = p.deep_view().subrange(0, i + 1);
            assert(q.drop_last() =~= p.deep_view().subrange(0, i as int));
            assert(q.last() == p@[i as int]@);
        }
        match find_child(cur, &p[i]) {
            Some(c) => {
                cur = c;
            },
            None => {
                proof {
                    lemma_walk_none_extends(*root, p.deep_view(), i + 1);
                }
                return None;
            },
        }
        i += 1;
    }
    assert(p.deep_view().subrange(0, i as int) =~= p.deep_view());
    Some(cur)
}

/// A path through a missing node stays missing.
proof fn lemma_walk_none_extends(root: TempNode, p: Seq<Seq<char>>, k: int)
    requires
        0 <= k <= p.len(),
        walk(root, p.subrange(0, k)) is None,
    ensures
        walk(root, p) is None,
    decreases p.len() - k,
{
    if k < p.len() {
        let q = p.subrange(0, k + 1);
        assert(q.drop_last() =~= p.subrange(0, k));
        lemma_walk_none_extends(root, p, k + 1);
    } else {
        assert(p.subrange(0, k) =~= p);
    }
}

/// The path that `label` names.
pub fn lookup_label(labels: &LabelMap, label: &String) -> (r: Option<Vec<String>>)
    ensures
        match r {
            Some(p) => label_from(labels.entries@, label@, 0) == Some(p.deep_view()),
            None => label_from(labels.entries@, label@, 0) is None,
        },
{
    let mut i: usize = 0;
    while i < labels.entries.len()
        invariant
            i <= labels.entries@.len(),
            label_from(labels.entries@, label@, 0) == label_from(labels.entries@, label@, i as int),
        decreases labels.entries@.len() - i,
    {
        if labels.entries[i].label == *label {
            return Some(clone_path(&labels.entries[i].path));
        }
        i += 1;
    }
    None
}

/// Resolves a reference to the path of a node of `root`.
pub fn resolve(labels: &LabelMap, root: &TempNode, r: &Reference) -> (res: Result<
    Vec<String>,
    Error,
>)
    ensures
        match res {
            Ok(p) => resolve_spec(*labels, *root, *r) == Ok::<Seq<Seq<char>>, Error>(
                p.deep_view(),
            ),
            Err(e) => resolve_spec(*labels, *root, *r) == Err::<Seq<Seq<char>>, Error>(e),
        },
{
    let target = match &r.target {
        Target::Label(l) => match lookup_label(labels, l) {
            Some(p) => p,
            None => {
                return Err(Error { kind: ErrorKind::UnknownLabel(l.clone()), span: Some(r.span) });
            },
        },
        Target::Path(p) => clone_path(p),
    };
    match walk_path(root, &target) {
        Some(_) => Ok(target),
        None => Err(Error { kind: ErrorKind::NoSuchNode, span: Some(r.span) }),
    }
}

/// Appends `b` to `out`.
pub fn push_all(out: &mut Vec<u8>, b: &[u8])
    ensures
        final(out)@ == old(out)@ + b@,
{
    let ghost o = old(out)@;
    let mut i: usize = 0;
    while i < b.len()
        invariant
            i <= b@.len(),
            out@ == o + b@.subrange(0, i as int),
        decreases b@.len() - i,
    {
        out.push(b[i]);
        i += 1;
        assert(out@ =~= o + b@.subrange(0, i as int));
    }
    assert(b@.subrange(0, i as int) =~= b@);
}

/// Appends the text of path `p` (`/` for the root).
pub fn push_path_bytes(out: &mut Vec<u8>, p: &Vec<String>)
    ensures
        final(out)@ == old(out)@ + path_bytes(p.deep_view()),
{
    if p.len() == 0 {
        out.push(0x2f);
        assert(out@ =~= old(out)@ + path_bytes(p.deep_view()));
        return;
    }
    let ghost o = old(out)@;
    let mut i: usize = 0;
    assert(segments_bytes(p.deep_view().subrange(0, 0)) =~= Seq::<u8>::empty());
    assert(out@ =~= o + segments_bytes(p.deep_view().subrange(0, 0)));
    while i < p.len()
        invariant
            i <= p@.len(),
            out@ == o + segments_bytes(p.deep_view().subrange(0, i as int)),
        decreases p@.len() - i,
    {
        proof {
            let q = p.deep_view().subrange(0, i + 1);
            assert(q.drop_last() =~= p.deep_view().subrange(0, i as int));
            assert(q.last() == p@[i as int]@);
        }
        out.push(0x2f);
        push_all(out, p[i].as_str().as_bytes());
        i += 1;
        assert(out@ =~= o + segments_bytes(p.deep_view().subrange(0, i as int)));
    }
    assert(p.deep_view().subrange(0, i as int) =~= p.deep_view());
}

} // verus!

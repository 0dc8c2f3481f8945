//! Phandle allocation: find every node that a cell refers to, in pre-order,
//! and give each one handle.

use crate::error::{at, not_missing, Error, ErrorKind};
use crate::pathset::{new_path_set, path_set_into_vec, path_set_items, path_set_replace};
use crate::tree::{
    resolve, resolve_spec, walk, walk_path, Cell, LabelMap, TempNode, TempProperty, TempValue,
    Value,
};
use hashlink::LinkedHashSet;
use vstd::prelude::*;

verus! {

/// The handles of the referenced nodes, in the order they were first
/// referenced. `fresh[i]` tells whether the handle was allocated here (the
/// node had no `phandle` property) or read from the node.
#[derive(Debug)]
pub struct PhandleTable {
    pub targets: Vec<Vec<String>>,
    pub values: Vec<u32>,
    pub fresh: Vec<bool>,
}

/// The number of `true` entries.
pub open spec fn count_fresh(s: Seq<bool>) -> nat
    decreases s.len(),
{
    if s.len() == 0 {
        0
    } else {
        count_fresh(s.drop_last()) + if s.last() {
            1nat
        } else {
            0nat
        }
    }
}

/// The big-endian value of a byte string.
pub open spec fn be_value(b: Seq<u8>) -> nat
    decreases b.len(),
{
    if b.len() == 0 {
        0
    } else {
        be_value(b.drop_last()) * 256 + b.last() as nat
    }
}

/// The index of the first property named `phandle`, from `i` on.
pub open spec fn phandle_index_from(props: Seq<TempProperty>, i: int) -> Option<int>
    decreases props.len() - i,
{
    if i < 0 || i >= props.len() {
        None
    } else if props[i].name@ == "phandle"@ {
        Some(i)
    } else {
        phandle_index_from(props, i + 1)
    }
}

pub open spec fn phandle_prop(n: TempNode) -> Option<TempValue> {
    match phandle_index_from(n.properties@, 0) {
        Some(i) => Some(n.properties@[i].value),
        None => None,
    }
}

/// The table's invariant: targets are distinct nodes of `root`; no handle is
/// 0 or 0xffffffff; the allocated handles count up from 1 in table order; a
/// handle read from a node is that node's 4-byte `phandle` property.
pub open spec fn table_wf(root: TempNode, t: PhandleTable) -> bool {
    &&& t.targets@.len() == t.values@.len()
    &&& t.targets@.len() == t.fresh@.len()
    &&& forall|i: int, j: int|
        0 <= i < j < t.targets@.len() ==> (#[trigger] t.targets@[i]).deep_view()
            != (#[trigger] t.targets@[j]).deep_view()
    &&& forall|i: int|
        0 <= i < t.values@.len() ==> #[trigger] t.values@[i] != 0 && t.values@[i] != 0xffff_ffff
    &&& forall|i: int|
        0 <= i < t.fresh@.len() && #[trigger] t.fresh@[i] ==> t.values@[i] == count_fresh(
            t.fresh@.take(i),
        ) + 1
    &&& forall|i: int|
        0 <= i < t.targets@.len() ==> match walk(root, (#[trigger] t.targets@[i]).deep_view()) {
            Some(n) => if t.fresh@[i] {
                phandle_prop(n) is None
            } else {
                match phandle_prop(n) {
                    Some(TempValue::Bytes(b)) => b@.len() == 4 && be_value(b@) == t.values@[i],
                    _ => false,
                }
            },
            None => false,
        }
}

/// What the collected set of referenced paths holds at every step: distinct
/// paths of nodes of `root`.
pub open spec fn refs_ok(root: TempNode, items: Seq<Seq<Seq<char>>>) -> bool {
    &&& items.no_duplicates()
    &&& forall|i: int| 0 <= i < items.len() ==> walk(root, #[trigger] items[i]) is Some
}

/// `b` is `a` with paths added at the back.
pub open spec fn extends(a: Seq<Seq<Seq<char>>>, b: Seq<Seq<Seq<char>>>) -> bool {
    a.len() <= b.len() && b.subrange(0, a.len() as int) == a
}

proof fn lemma_extends_trans(a: Seq<Seq<Seq<char>>>, b: Seq<Seq<Seq<char>>>, c: Seq<Seq<Seq<char>>>)
    requires
        extends(a, b),
        extends(b, c),
    ensures
        extends(a, c),
{
    assert(c.subrange(0, a.len() as int) =~= b.subrange(0, a.len() as int));
}

proof fn lemma_extends_refl(a: Seq<Seq<Seq<char>>>)
    ensures
        extends(a, a),
{
    assert(a.subrange(0, a.len() as int) =~= a);
}

/// `a` followed by `b`, or the first error of the two.
pub open spec fn then_refs(
    a: Result<Seq<Seq<Seq<char>>>, Error>,
    b: Result<Seq<Seq<Seq<char>>>, Error>,
) -> Result<Seq<Seq<Seq<char>>>, Error> {
    match a {
        Ok(x) => match b {
            Ok(y) => Ok(x + y),
            Err(e) => Err(e),
        },
        Err(e) => Err(e),
    }
}

/// The target of a cell, if it is a node reference.
pub open spec fn cell_refs(labels: LabelMap, root: TempNode, c: Cell) -> Result<
    Seq<Seq<Seq<char>>>,
    Error,
> {
    match c {
        Cell::NodeReference(r) => match resolve_spec(labels, root, r) {
            Ok(p) => Ok(seq![p]),
            Err(e) => Err(e),
        },
        Cell::Expr(_) => Ok(Seq::empty()),
    }
}

/// The targets of the first `k` cells, in order.
pub open spec fn cells_refs(labels: LabelMap, root: TempNode, cs: Seq<Cell>, k: int) -> Result<
    Seq<Seq<Seq<char>>>,
    Error,
>
    decreases k,
{
    if k <= 0 {
        Ok(Seq::empty())
    } else {
        then_refs(cells_refs(labels, root, cs, k - 1), cell_refs(labels, root, cs[k - 1]))
    }
}

pub open spec fn value_refs(labels: LabelMap, root: TempNode, v: Value) -> Result<
    Seq<Seq<Seq<char>>>,
    Error,
> {
    match v {
        Value::Cells(c) => cells_refs(labels, root, c.cells@, c.cells@.len() as int),
        _ => Ok(Seq::empty()),
    }
}

/// The cell-reference targets of the first `k` parts of a value, in order.
pub open spec fn values_refs(labels: LabelMap, root: TempNode, vs: Seq<Value>, k: int) -> Result<
    Seq<Seq<Seq<char>>>,
    Error,
>
    decreases k,
{
    if k <= 0 {
        Ok(Seq::empty())
    } else {
        then_refs(values_refs(labels, root, vs, k - 1), value_refs(labels, root, vs[k - 1]))
    }
}

/// The cell-reference targets of a property that is not yet evaluated.
pub open spec fn prop_refs(labels: LabelMap, root: TempNode, p: TempProperty) -> Result<
    Seq<Seq<Seq<char>>>,
    Error,
> {
    match p.value {
        TempValue::Ast(pv) => values_refs(labels, root, pv.values@, pv.values@.len() as int),
        TempValue::Bytes(_) => Ok(Seq::empty()),
    }
}

pub open spec fn props_refs(
    labels: LabelMap,
    root: TempNode,
    ps: Seq<TempProperty>,
    k: int,
) -> Result<Seq<Seq<Seq<char>>>, Error>
    decreases k,
{
    if k <= 0 {
        Ok(Seq::empty())
    } else {
        then_refs(props_refs(labels, root, ps, k - 1), prop_refs(labels, root, ps[k - 1]))
    }
}

/// The targets of every cell reference of `node` and the nodes below it, in
/// pre-order, properties before children, repeats included; or the first
/// reference that does not resolve.
pub open spec fn node_refs(labels: LabelMap, root: TempNode, node: TempNode) -> Result<
    Seq<Seq<Seq<char>>>,
    Error,
>
    decreases node, node.children@.len() + 1,
{
    then_refs(
        props_refs(labels, root, node.properties@, node.properties@.len() as int),
        children_refs(labels, root, node, node.children@.len() as int),
    )
}

/// `node_refs` of the first `k` children of `node`, concatenated.
pub open spec fn children_refs(labels: LabelMap, root: TempNode, node: TempNode, k: int) -> Result<
    Seq<Seq<Seq<char>>>,
    Error,
>
    decreases node, k,
{
    if k <= 0 || k > node.children@.len() {
        Ok(Seq::empty())
    } else {
        then_refs(
            children_refs(labels, root, node, k - 1),
            node_refs(labels, root, node.children@[k - 1]),
        )
    }
}

/// `items` with `p` added at the back, unless it is there already.
pub open spec fn add_one(items: Seq<Seq<Seq<char>>>, p: Seq<Seq<char>>) -> Seq<Seq<Seq<char>>> {
    if items.contains(p) {
        items
    } else {
        items.push(p)
    }
}

/// `items` with each of `s` added in turn: the ones not yet there, once
/// each, in first-seen order.
pub open spec fn add_all(items: Seq<Seq<Seq<char>>>, s: Seq<Seq<Seq<char>>>) -> Seq<Seq<Seq<char>>>
    decreases s.len(),
{
    if s.len() == 0 {
        items
    } else {
        add_one(add_all(items, s.drop_last()), s.last())
    }
}

proof fn lemma_add_all_concat(a: Seq<Seq<Seq<char>>>, x: Seq<Seq<Seq<char>>>, y: Seq<Seq<Seq<char>>>)
    ensures
        add_all(add_all(a, x), y) == add_all(a, x + y),
    decreases y.len(),
{
    if y.len() == 0 {
        assert(x + y =~= x);
    } else {
        lemma_add_all_concat(a, x, y.drop_last());
        assert((x + y).drop_last() =~= x + y.drop_last());
        assert((x + y).last() == y.last());
    }
}

proof fn lemma_add_all_empty(a: Seq<Seq<Seq<char>>>, x: Seq<Seq<Seq<char>>>)
    ensures
        add_all(a, x + Seq::empty()) == add_all(a, x),
{
    assert(x + Seq::<Seq<Seq<char>>>::empty() =~= x);
}

proof fn lemma_add_all_push(a: Seq<Seq<Seq<char>>>, x: Seq<Seq<Seq<char>>>, p: Seq<Seq<char>>)
    ensures
        add_all(a, x + seq![p]) == add_one(add_all(a, x), p),
{
    assert((x + seq![p]).drop_last() =~= x);
    assert((x + seq![p]).last() == p);
}

proof fn lemma_cells_refs_sticks(labels: LabelMap, root: TempNode, cs: Seq<Cell>, k: int, m: int)
    requires
        0 <= k <= m,
        cells_refs(labels, root, cs, k) is Err,
    ensures
        cells_refs(labels, root, cs, m) == cells_refs(labels, root, cs, k),
    decreases m - k,
{
    if m > k {
        lemma_cells_refs_sticks(labels, root, cs, k, m - 1);
    }
}

proof fn lemma_values_refs_sticks(labels: LabelMap, root: TempNode, vs: Seq<Value>, k: int, m: int)
    requires
        0 <= k <= m,
        values_refs(labels, root, vs, k) is Err,
    ensures
        values_refs(labels, root, vs, m) == values_refs(labels, root, vs, k),
    decreases m - k,
{
    if m > k {
        lemma_values_refs_sticks(labels, root, vs, k, m - 1);
    }
}

proof fn lemma_props_refs_sticks(
    labels: LabelMap,
    root: TempNode,
    ps: Seq<TempProperty>,
    k: int,
    m: int,
)
    requires
        0 <= k <= m,
        props_refs(labels, root, ps, k) is Err,
    ensures
        props_refs(labels, root, ps, m) == props_refs(labels, root, ps, k),
    decreases m - k,
{
    if m > k {
        lemma_props_refs_sticks(labels, root, ps, k, m - 1);
    }
}

proof fn lemma_children_refs_sticks(labels: LabelMap, root: TempNode, node: TempNode, k: int, m: int)
    requires
        0 <= k <= m <= node.children@.len(),
        children_refs(labels, root, node, k) is Err,
    ensures
        children_refs(labels, root, node, m) == children_refs(labels, root, node, k),
    decreases m - k,
{
    if m > k {
        lemma_children_refs_sticks(labels, root, node, k, m - 1);
    }
}

/// Adds the target of a cell reference to the set.
fn add_reference(
    labels: &LabelMap,
    root: &TempNode,
    r: &crate::tree::Reference,
    need: &mut LinkedHashSet<Vec<String>>,
) -> (res: Result<(), Error>)
    requires
        refs_ok(*root, path_set_items(*old(need))),
    ensures
        refs_ok(*root, path_set_items(*final(need))),
        extends(path_set_items(*old(need)), path_set_items(*final(need))),
        res is Ok ==> resolve_spec(*labels, *root, *r) is Ok && path_set_items(
            *final(need),
        ).contains(resolve_spec(*labels, *root, *r)->Ok_0),
        res matches Err(e) ==> resolve_spec(*labels, *root, *r) == Err::<Seq<Seq<char>>, Error>(e),
        res is Ok ==> path_set_items(*final(need)) == add_one(
            path_set_items(*old(need)),
            resolve_spec(*labels, *root, *r)->Ok_0,
        ),
        not_missing(res),
{
    let ghost before = path_set_items(*need);
    proof {
        lemma_extends_refl(before);
    }
    match resolve(labels, root, r) {
        Ok(p) => {
            let ghost pv = p.deep_view();
            path_set_replace(need, p);
            proof {
                let after = path_set_items(*need);
                if before.contains(pv) {
                    assert(after == before);
                    assert(after.subrange(0, before.len() as int) =~= before);
                } else {
                    assert(after == before.push(pv));
                    assert(after.subrange(0, before.len() as int) =~= before);
                    assert(after[before.len() as int] == pv);
                    assert forall|i: int, j: int|
                        0 <= i < after.len() && 0 <= j < after.len() && i != j implies after[i]
                        != after[j] by {
                        if i < before.len() && j < before.len() {
                            assert(after[i] == before[i] && after[j] == before[j]);
                        } else if i < before.len() {
                            assert(before.contains(before[i]));
                        } else {
                            assert(before.contains(before[j]));
                        }
                    }
                    assert forall|i: int| 0 <= i < after.len() implies walk(
                        *root,
                        #[trigger] after[i],
                    ) is Some by {
                        if i < before.len() {
                            assert(after[i] == before[i]);
                        }
                    }
                    assert(after.contains(pv));
                }
            }
            Ok(())
        },
        Err(e) => Err(e),
    }
}

/// A cell that references a node has a target, and it is in `items`.
pub open spec fn cell_collected(labels: LabelMap, root: TempNode, c: Cell, items: Seq<Seq<Seq<char>>>) -> bool {
    c matches Cell::NodeReference(r) ==> resolve_spec(labels, root, r) is Ok && items.contains(
        resolve_spec(labels, root, r)->Ok_0,
    )
}

pub open spec fn cells_collected(labels: LabelMap, root: TempNode, cs: Seq<Cell>, items: Seq<Seq<Seq<char>>>) -> bool {
    forall|k: int| 0 <= k < cs.len() ==> cell_collected(labels, root, #[trigger] cs[k], items)
}

/// Every node reference that stands as a cell in property `p`, if it is not
/// yet evaluated, has its target in `items`.
pub open spec fn prop_collected(
    labels: LabelMap,
    root: TempNode,
    p: TempProperty,
    items: Seq<Seq<Seq<char>>>,
) -> bool {
    p.value matches TempValue::Ast(pv) ==> forall|j: int|
        0 <= j < pv.values@.len() ==> (#[trigger] pv.values@[j] matches Value::Cells(cs)
            ==> cells_collected(labels, root, cs.cells@, items))
}

/// Every node reference that stands as a cell in a not-yet-evaluated
/// property of `node`, or of a node below it, has its target in `items`.
pub open spec fn refs_collected(
    labels: LabelMap,
    root: TempNode,
    node: TempNode,
    items: Seq<Seq<Seq<char>>>,
) -> bool
    decreases node,
{
    &&& forall|i: int|
        0 <= i < node.properties@.len() ==> prop_collected(
            labels,
            root,
            #[trigger] node.properties@[i],
            items,
        )
    &&& forall|c: int|
        0 <= c < node.children@.len() ==> refs_collected(
            labels,
            root,
            #[trigger] node.children@[c],
            items,
        )
}

pub open spec fn subset(a: Seq<Seq<Seq<char>>>, b: Seq<Seq<Seq<char>>>) -> bool {
    forall|x: Seq<Seq<char>>| a.contains(x) ==> #[trigger] b.contains(x)
}

proof fn lemma_extends_subset(a: Seq<Seq<Seq<char>>>, b: Seq<Seq<Seq<char>>>)
    requires
        extends(a, b),
    ensures
        subset(a, b),
{
    assert forall|x: Seq<Seq<char>>| a.contains(x) implies #[trigger] b.contains(x) by {
        let i = choose|i: int| 0 <= i < a.len() && a[i] == x;
        assert(b[i] == b.subrange(0, a.len() as int)[i]);
    }
}

proof fn lemma_cells_mono(
    labels: LabelMap,
    root: TempNode,
    cs: Seq<Cell>,
    a: Seq<Seq<Seq<char>>>,
    b: Seq<Seq<Seq<char>>>,
)
    requires
        cells_collected(labels, root, cs, a),
        subset(a, b),
    ensures
        cells_collected(labels, root, cs, b),
{
    assert forall|k: int| 0 <= k < cs.len() implies cell_collected(labels, root, #[trigger] cs[k], b) by {
        assert(cell_collected(labels, root, cs[k], a));
    }
}

proof fn lemma_prop_mono(
    labels: LabelMap,
    root: TempNode,
    p: TempProperty,
    a: Seq<Seq<Seq<char>>>,
    b: Seq<Seq<Seq<char>>>,
)
    requires
        prop_collected(labels, root, p, a),
        subset(a, b),
    ensures
        prop_collected(labels, root, p, b),
{
    if let TempValue::Ast(pv) = p.value {
        assert forall|j: int| 0 <= j < pv.values@.len() implies (#[trigger] pv.values@[j] matches Value::Cells(cs)
            ==> cells_collected(labels, root, cs.cells@, b)) by {
            if let Value::Cells(cs) = pv.values@[j] {
                lemma_cells_mono(labels, root, cs.cells@, a, b);
            }
        }
    }
}

proof fn lemma_refs_mono(
    labels: LabelMap,
    root: TempNode,
    node: TempNode,
    a: Seq<Seq<Seq<char>>>,
    b: Seq<Seq<Seq<char>>>,
)
    requires
        refs_collected(labels, root, node, a),
        subset(a, b),
    ensures
        refs_collected(labels, root, node, b),
    decreases node,
{
    assert forall|i: int| 0 <= i < node.properties@.len() implies prop_collected(
        labels,
        root,
        #[trigger] node.properties@[i],
        b,
    ) by {
        lemma_prop_mono(labels, root, node.properties@[i], a, b);
    }
    assert forall|c: int| 0 <= c < node.children@.len() implies refs_collected(
        labels,
        root,
        #[trigger] node.children@[c],
        b,
    ) by {
        assert(decreases_to!(node => node.children@[c]));
        lemma_refs_mono(labels, root, node.children@[c], a, b);
    }
}

/// Adds to `need` the target of every node reference in a cell list.
fn collect_cells(
    labels: &LabelMap,
    root: &TempNode,
    cells: &Vec<Cell>,
    need: &mut LinkedHashSet<Vec<String>>,
) -> (res: Result<(), Error>)
    requires
        refs_ok(*root, path_set_items(*old(need))),
    ensures
        refs_ok(*root, path_set_items(*final(need))),
        extends(path_set_items(*old(need)), path_set_items(*final(need))),
        res is Ok ==> cells_collected(*labels, *root, cells@, path_set_items(*final(need))),
        not_missing(res),
        match cells_refs(*labels, *root, cells@, cells@.len() as int) {
            Ok(s) => res is Ok && path_set_items(*final(need)) == add_all(
                path_set_items(*old(need)),
                s,
            ),
            Err(e) => res == Err::<(), Error>(e),
        },
{
    let ghost start = path_set_items(*need);
    proof {
        lemma_extends_refl(start);
    }
    let mut k: usize = 0;
    while k < cells.len()
        invariant
            refs_ok(*root, path_set_items(*need)),
            extends(start, path_set_items(*need)),
            start == path_set_items(*old(need)),
            k <= cells@.len(),
            cells_collected(*labels, *root, cells@.take(k as int), path_set_items(*need)),
            cells_refs(*labels, *root, cells@, k as int) is Ok,
            path_set_items(*need) == add_all(start, cells_refs(*labels, *root, cells@, k as int)->Ok_0),
        decreases cells@.len() - k,
    {
        let ghost mid = path_set_items(*need);
        let ghost sk = cells_refs(*labels, *root, cells@, k as int)->Ok_0;
        if let Cell::NodeReference(r) = &cells[k] {
            let res = add_reference(labels, root, r, need);
            proof {
                if res is Err {
                    lemma_cells_refs_sticks(*labels, *root, cells@, k + 1, cells@.len() as int);
                } else {
                    lemma_add_all_push(start, sk, resolve_spec(*labels, *root, *r)->Ok_0);
                }
                lemma_extends_trans(start, mid, path_set_items(*need));
                lemma_extends_subset(mid, path_set_items(*need));
                lemma_cells_mono(*labels, *root, cells@.take(k as int), mid, path_set_items(*need));
            }
            res?;
        } else {
            proof {
                lemma_add_all_empty(start, sk);
            }
        }
        proof {
            let now = path_set_items(*need);
            assert forall|q: int| 0 <= q < k + 1 implies cell_collected(
                *labels,
                *root,
                #[trigger] cells@.take(k + 1)[q],
                now,
            ) by {
                if q < k {
                    assert(cells@.take(k + 1)[q] == cells@.take(k as int)[q]);
                }
            }
        }
        k += 1;
    }
    proof {
        assert(cells@.take(k as int) =~= cells@);
    }
    Ok(())
}

/// Adds to `need` the target of every node reference that stands as a cell
/// in property `p`, if `p` is not yet evaluated.
fn collect_prop(
    labels: &LabelMap,
    root: &TempNode,
    p: &TempProperty,
    need: &mut LinkedHashSet<Vec<String>>,
) -> (res: Result<(), Error>)
    requires
        refs_ok(*root, path_set_items(*old(need))),
    ensures
        refs_ok(*root, path_set_items(*final(need))),
        extends(path_set_items(*old(need)), path_set_items(*final(need))),
        res is Ok ==> prop_collected(*labels, *root, *p, path_set_items(*final(need))),
        not_missing(res),
        match prop_refs(*labels, *root, *p) {
            Ok(s) => res is Ok && path_set_items(*final(need)) == add_all(
                path_set_items(*old(need)),
                s,
            ),
            Err(e) => res == Err::<(), Error>(e),
        },
{
    let ghost start = path_set_items(*need);
    proof {
        lemma_extends_refl(start);
    }
    if let TempValue::Ast(pv) = &p.value {
        let mut j: usize = 0;
        while j < pv.values.len()
            invariant
                refs_ok(*root, path_set_items(*need)),
                extends(start, path_set_items(*need)),
                start == path_set_items(*old(need)),
                p.value == TempValue::Ast(*pv),
                j <= pv.values@.len(),
                forall|q: int|
                    0 <= q < j ==> (#[trigger] pv.values@[q] matches Value::Cells(cs)
                        ==> cells_collected(*labels, *root, cs.cells@, path_set_items(*need))),
                values_refs(*labels, *root, pv.values@, j as int) is Ok,
                path_set_items(*need) == add_all(
                    start,
                    values_refs(*labels, *root, pv.values@, j as int)->Ok_0,
                ),
            decreases pv.values@.len() - j,
        {
            let ghost sj = values_refs(*labels, *root, pv.values@, j as int)->Ok_0;
            if let Value::Cells(cells) = &pv.values[j] {
                let ghost mid = path_set_items(*need);
                let res = collect_cells(labels, root, &cells.cells, need);
                proof {
                    if res is Err {
                        lemma_values_refs_sticks(
                            *labels,
                            *root,
                            pv.values@,
                            j + 1,
                            pv.values@.len() as int,
                        );
                    } else {
                        lemma_add_all_concat(
                            start,
                            sj,
                            cells_refs(*labels, *root, cells.cells@, cells.cells@.len() as int)->Ok_0,
                        );
                    }
                    let now = path_set_items(*need);
                    lemma_extends_trans(start, mid, now);
                    lemma_extends_subset(mid, now);
                    assert forall|q: int|
                        0 <= q < j implies (#[trigger] pv.values@[q] matches Value::Cells(cs)
                            ==> cells_collected(*labels, *root, cs.cells@, now)) by {
                        if let Value::Cells(cs) = pv.values@[q] {
                            lemma_cells_mono(*labels, *root, cs.cells@, mid, now);
                        }
                    }
                }
                res?;
            } else {
                proof {
                    lemma_add_all_empty(start, sj);
                }
            }
            j += 1;
        }
    } else {
        proof {
            assert(add_all(start, Seq::empty()) == start);
        }
    }
    Ok(())
}

/// Adds to `need` the target of every node reference that stands as a cell
/// in a not-yet-evaluated property of `node` or of a node below it, in
/// pre-order, properties before children.
fn visit_phandle_references(
    labels: &LabelMap,
    root: &TempNode,
    node: &TempNode,
    need: &mut LinkedHashSet<Vec<String>>,
) -> (res: Result<(), Error>)
    requires
        refs_ok(*root, path_set_items(*old(need))),
    ensures
        refs_ok(*root, path_set_items(*final(need))),
        extends(path_set_items(*old(need)), path_set_items(*final(need))),
        res is Ok ==> refs_collected(*labels, *root, *node, path_set_items(*final(need))),
        not_missing(res),
        match node_refs(*labels, *root, *node) {
            Ok(s) => res is Ok && path_set_items(*final(need)) == add_all(
                path_set_items(*old(need)),
                s,
            ),
            Err(e) => res == Err::<(), Error>(e),
        },
    decreases node,
{
    let ghost start = path_set_items(*need);
    proof {
        lemma_extends_refl(start);
    }
    let mut i: usize = 0;
    while i < node.properties.len()
        invariant
            refs_ok(*root, path_set_items(*need)),
            extends(start, path_set_items(*need)),
            start == path_set_items(*old(need)),
            i <= node.properties@.len(),
            forall|q: int|
                0 <= q < i ==> prop_collected(
                    *labels,
                    *root,
                    #[trigger] node.properties@[q],
                    path_set_items(*need),
                ),
            props_refs(*labels, *root, node.properties@, i as int) is Ok,
            path_set_items(*need) == add_all(
                start,
                props_refs(*labels, *root, node.properties@, i as int)->Ok_0,
            ),
        decreases node.properties@.len() - i,
    {
        let ghost mid = path_set_items(*need);
        let ghost si = props_refs(*labels, *root, node.properties@, i as int)->Ok_0;
        let res = collect_prop(labels, root, &node.properties[i], need);
        proof {
            if res is Err {
                lemma_props_refs_sticks(
                    *labels,
                    *root,
                    node.properties@,
                    i + 1,
                    node.properties@.len() as int,
                );
            } else {
                lemma_add_all_concat(
                    start,
                    si,
                    prop_refs(*labels, *root, node.properties@[i as int])->Ok_0,
                );
            }
            let now = path_set_items(*need);
            lemma_extends_trans(start, mid, now);
            lemma_extends_subset(mid, now);
            assert forall|q: int| 0 <= q < i implies prop_collected(
                *labels,
                *root,
                #[trigger] node.properties@[q],
                now,
            ) by {
                lemma_prop_mono(*labels, *root, node.properties@[q], mid, now);
            }
        }
        res?;
        i += 1;
    }
    let ghost sp = props_refs(*labels, *root, node.properties@, node.properties@.len() as int)->Ok_0;
    proof {
        assert(sp + Seq::<Seq<Seq<char>>>::empty() =~= sp);
    }
    let mut c: usize = 0;
    while c < node.children.len()
        invariant
            props_refs(*labels, *root, node.properties@, node.properties@.len() as int) == Ok::<
                Seq<Seq<Seq<char>>>,
                Error,
            >(sp),
            children_refs(*labels, *root, *node, c as int) is Ok,
            path_set_items(*need) == add_all(
                start,
                sp + children_refs(*labels, *root, *node, c as int)->Ok_0,
            ),
            refs_ok(*root, path_set_items(*need)),
            extends(start, path_set_items(*need)),
            start == path_set_items(*old(need)),
            c <= node.children@.len(),
            forall|q: int|
                0 <= q < node.properties@.len() ==> prop_collected(
                    *labels,
                    *root,
                    #[trigger] node.properties@[q],
                    path_set_items(*need),
                ),
            forall|q: int|
                0 <= q < c ==> refs_collected(
                    *labels,
                    *root,
                    #[trigger] node.children@[q],
                    path_set_items(*need),
                ),
        decreases node.children@.len() - c,
    {
        let ghost mid = path_set_items(*need);
        let ghost sc = children_refs(*labels, *root, *node, c as int)->Ok_0;
        proof {
            assert(decreases_to!(node => node.children@[c as int]));
        }
        let res = visit_phandle_references(labels, root, &node.children[c], need);
        proof {
            if res is Err {
                lemma_children_refs_sticks(
                    *labels,
                    *root,
                    *node,
                    c + 1,
                    node.children@.len() as int,
                );
            } else {
                let s2 = node_refs(*labels, *root, node.children@[c as int])->Ok_0;
                lemma_add_all_concat(start, sp + sc, s2);
                assert((sp + sc) + s2 =~= sp + (sc + s2));
            }
            let now = path_set_items(*need);
            lemma_extends_trans(start, mid, now);
            lemma_extends_subset(mid, now);
            assert forall|q: int| 0 <= q < node.properties@.len() implies prop_collected(
                *labels,
                *root,
                #[trigger] node.properties@[q],
                now,
            ) by {
                lemma_prop_mono(*labels, *root, node.properties@[q], mid, now);
            }
            assert forall|q: int| 0 <= q < c implies refs_collected(
                *labels,
                *root,
                #[trigger] node.children@[q],
                now,
            ) by {
                lemma_refs_mono(*labels, *root, node.children@[q], mid, now);
            }
        }
        res?;
        c += 1;
    }
    Ok(())
}

/// Reads a 4-byte big-endian value.
fn be_u32(b: &Vec<u8>) -> (r: u32)
    requires
        b@.len() == 4,
    ensures
        r as nat == be_value(b@),
{
    let v: u64 = ((b[0] as u64 * 256 + b[1] as u64) * 256 + b[2] as u64) * 256 + b[3] as u64;
    proof {
        let s = b@;
        assert(s.subrange(0, 1).drop_last() =~= s.subrange(0, 0));
        assert(s.subrange(0, 2).drop_last() =~= s.subrange(0, 1));
        assert(s.subrange(0, 3).drop_last() =~= s.subrange(0, 2));
        assert(s.subrange(0, 4).drop_last() =~= s.subrange(0, 3));
        assert(s.subrange(0, 4) =~= s);
        assert(be_value(s.subrange(0, 0)) == 0);
        assert(be_value(s.subrange(0, 1)) == s[0]);
        assert(be_value(s.subrange(0, 2)) == s[0] * 256 + s[1]);
        assert(be_value(s.subrange(0, 3)) == (s[0] * 256 + s[1]) * 256 + s[2]);
    }
    v as u32
}

/// Finds the `phandle` property of a node.
fn find_phandle(n: &TempNode) -> (r: Option<&TempValue>)
    ensures
        match r {
            Some(v) => phandle_prop(*n) == Some(*v),
            None => phandle_prop(*n) is None,
        },
{
    let name = "phandle".to_owned();
    let mut i: usize = 0;
    while i < n.properties.len()
        invariant
            i <= n.properties@.len(),
            name@ == "phandle"@,
            phandle_index_from(n.properties@, 0) == phandle_index_from(n.properties@, i as int),
        decreases n.properties@.len() - i,
    {
        if n.properties[i].name == name {
            return Some(&n.properties[i].value);
        }
        i += 1;
    }
    None
}

proof fn lemma_count_push(s: Seq<bool>, b: bool)
    ensures
        count_fresh(s.push(b)) == count_fresh(s) + if b {
            1nat
        } else {
            0nat
        },
{
    assert(s.push(b).drop_last() =~= s);
}

proof fn lemma_count_fresh_monotone(s: Seq<bool>, m: int, n: int)
    requires
        0 <= m <= n <= s.len(),
    ensures
        count_fresh(s.take(m)) <= count_fresh(s.take(n)),
    decreases n - m,
{
    if m < n {
        lemma_count_fresh_monotone(s, m, n - 1);
        assert(s.take(n).drop_last() =~= s.take(n - 1));
    }
}

/// The handles of a table are never 0 or 0xffffffff, each referenced node
/// has one entry, and no two allocated handles are equal.
pub proof fn lemma_phandles_distinct(root: TempNode, t: PhandleTable)
    requires
        table_wf(root, t),
    ensures
        forall|i: int| 0 <= i < t.values@.len() ==> #[trigger] t.values@[i] != 0 && t.values@[i] != 0xffff_ffff,
        forall|i: int, j: int|
            0 <= i < j < t.targets@.len() ==> (#[trigger] t.targets@[i]).deep_view()
                != (#[trigger] t.targets@[j]).deep_view(),
        forall|i: int, j: int|
            0 <= i < j < t.fresh@.len() && #[trigger] t.fresh@[i] && #[trigger] t.fresh@[j]
                ==> t.values@[i] != t.values@[j],
{
    assert forall|i: int, j: int|
        0 <= i < j < t.fresh@.len() && #[trigger] t.fresh@[i] && #[trigger] t.fresh@[j]
            implies t.values@[i] != t.values@[j] by {
        lemma_count_fresh_monotone(t.fresh@, i + 1, j);
        assert(t.fresh@.take(i + 1).drop_last() =~= t.fresh@.take(i));
        assert(t.fresh@.take(i + 1).last() == t.fresh@[i]);
    }
}

/// The handle of the node at `p`, `c` handles having been made up before:
/// its own 4-byte `phandle` property if it has one, else `c + 1`.
pub open spec fn handle_spec(root: TempNode, p: Seq<Seq<char>>, c: nat) -> Result<(u32, bool), Error> {
    match walk(root, p) {
        None => Err(Error { kind: ErrorKind::NoSuchNode, span: None }),
        Some(n) => match phandle_prop(n) {
            None => if c >= 0xffff_fffe {
                Err(Error { kind: ErrorKind::TooManyPhandles, span: None })
            } else {
                Ok(((c + 1) as u32, true))
            },
            Some(TempValue::Bytes(b)) => if b@.len() == 4 && be_value(b@) != 0 && be_value(b@)
                != 0xffff_ffff {
                Ok((be_value(b@) as u32, false))
            } else {
                Err(Error { kind: ErrorKind::BadPhandle, span: None })
            },
            Some(TempValue::Ast(pv)) => Err(at(ErrorKind::PhandleSelfReference, pv.span)),
        },
    }
}

/// The handles of the first `k` targets, and which were made up; or the
/// first error.
pub open spec fn handles_spec(root: TempNode, ts: Seq<Seq<Seq<char>>>, k: int) -> Result<
    (Seq<u32>, Seq<bool>),
    Error,
>
    decreases k,
{
    if k <= 0 {
        Ok((Seq::empty(), Seq::empty()))
    } else {
        match handles_spec(root, ts, k - 1) {
            Ok((vs, fs)) => match handle_spec(root, ts[k - 1], count_fresh(fs)) {
                Ok((v, f)) => Ok((vs.push(v), fs.push(f))),
                Err(e) => Err(e),
            },
            Err(e) => Err(e),
        }
    }
}

/// The phandle table of `root`: the distinct cell-reference targets in
/// first-seen pre-order, their handles, and which handles were made up; or
/// the first error.
pub open spec fn assign_spec(labels: LabelMap, root: TempNode) -> Result<
    (Seq<Seq<Seq<char>>>, Seq<u32>, Seq<bool>),
    Error,
> {
    match node_refs(labels, root, root) {
        Ok(s) => {
            let ts = add_all(Seq::empty(), s);
            match handles_spec(root, ts, ts.len() as int) {
                Ok((vs, fs)) => Ok((ts, vs, fs)),
                Err(e) => Err(e),
            }
        },
        Err(e) => Err(e),
    }
}

/// `t` holds exactly the table `x`.
pub open spec fn table_is(t: PhandleTable, x: (Seq<Seq<Seq<char>>>, Seq<u32>, Seq<bool>)) -> bool {
    &&& t.targets.deep_view() == x.0
    &&& t.values@ == x.1
    &&& t.fresh@ == x.2
}

proof fn lemma_handles_sticks(root: TempNode, ts: Seq<Seq<Seq<char>>>, k: int, m: int)
    requires
        0 <= k <= m,
        handles_spec(root, ts, k) is Err,
    ensures
        handles_spec(root, ts, m) == handles_spec(root, ts, k),
    decreases m - k,
{
    if m > k {
        lemma_handles_sticks(root, ts, k, m - 1);
    }
}

/// Collects the referenced nodes of `root` in first-reference order and gives
/// each a handle: the node's own `phandle` property if it has one (it must be
/// 4 bytes, neither 0 nor 0xffffffff), else the next of 1, 2, 3, ...
pub fn assign_phandles(root: &TempNode, labels: &LabelMap) -> (r: Result<PhandleTable, Error>)
    ensures
        r matches Ok(t) ==> table_wf(*root, t),
        r matches Ok(t) ==> refs_collected(*labels, *root, *root, t.targets.deep_view()),
        not_missing(r),
        match assign_spec(*labels, *root) {
            Ok(x) => r is Ok && table_is(r->Ok_0, x),
            Err(e) => r == Err::<PhandleTable, Error>(e),
        },
{
    let mut need = new_path_set();
    proof {
        assert(path_set_items(need).no_duplicates());
    }
    visit_phandle_references(labels, root, root, &mut need)?;
    let ghost items = path_set_items(need);
    let paths = path_set_into_vec(need);
    let mut t = PhandleTable { targets: Vec::new(), values: Vec::new(), fresh: Vec::new() };
    let mut counter: u32 = 0;
    let mut k: usize = 0;
    let n = paths.len();
    let ghost pv = paths.deep_view();
    while k < n
        invariant
            n == pv.len(),
            pv == items,
            refs_ok(*root, items),
            refs_collected(*labels, *root, *root, items),
            k <= n,
            paths@.len() == n,
            forall|i: int| 0 <= i < n ==> (#[trigger] paths@[i]).deep_view() == pv[i],
            t.targets@.len() == k,
            forall|i: int| 0 <= i < k ==> (#[trigger] t.targets@[i]).deep_view() == pv[i],
            table_wf(*root, t),
            counter as nat == count_fresh(t.fresh@),
            counter <= 0xffff_fffe,
            node_refs(*labels, *root, *root) is Ok,
            items == add_all(Seq::empty(), node_refs(*labels, *root, *root)->Ok_0),
            handles_spec(*root, pv, k as int) == Ok::<(Seq<u32>, Seq<bool>), Error>(
                (t.values@, t.fresh@),
            ),
        decreases n - k,
    {
        let p = clone_out(&paths, k);
        let node = match walk_path(root, &p) {
            Some(node) => node,
            None => {
                proof {
                    assert(walk(*root, pv[k as int]) is Some);
                }
                return Err(Error { kind: ErrorKind::NoSuchNode, span: None });
            },
        };
        let (value, fresh) = match find_phandle(node) {
            None => {
                if counter >= 0xffff_fffe {
                    proof {
                        lemma_handles_sticks(*root, pv, k + 1, n as int);
                    }
                    return Err(Error { kind: ErrorKind::TooManyPhandles, span: None });
                }
                counter += 1;
                (counter, true)
            },
            Some(TempValue::Bytes(b)) => {
                if b.len() != 4 {
                    proof {
                        lemma_handles_sticks(*root, pv, k + 1, n as int);
                    }
                    return Err(Error { kind: ErrorKind::BadPhandle, span: None });
                }
                let v = be_u32(b);
                if v == 0 || v == 0xffff_ffff {
                    proof {
                        lemma_handles_sticks(*root, pv, k + 1, n as int);
                    }
                    return Err(Error { kind: ErrorKind::BadPhandle, span: None });
                }
                (v, false)
            },
            Some(TempValue::Ast(e)) => {
                proof {
                    lemma_handles_sticks(*root, pv, k + 1, n as int);
                }
                return Err(Error { kind: ErrorKind::PhandleSelfReference, span: Some(e.span) });
            },
        };
        let ghost old_t_fresh = t.fresh@;
        let ghost old_targets = t.targets@;
        let ghost old_values = t.values@;
        t.targets.push(p);
        t.values.push(value);
        t.fresh.push(fresh);
        k += 1;
        proof {
            assert(t.values@ =~= old_values.push(value));
            assert(t.fresh@ =~= old_t_fresh.push(fresh));
            lemma_count_push(old_t_fresh, fresh);
            assert(t.fresh@.take(k - 1) =~= old_t_fresh);
            assert forall|i: int| 0 <= i < k - 1 implies (#[trigger] t.fresh@.take(i))
                =~= old_t_fresh.take(i) by {}
            assert forall|i: int, j: int|
                0 <= i < j < t.targets@.len() implies (#[trigger] t.targets@[i]).deep_view()
                != (#[trigger] t.targets@[j]).deep_view() by {
                assert(t.targets@[i].deep_view() == pv[i]);
                assert(t.targets@[j].deep_view() == pv[j]);
            }
            assert forall|i: int|
                0 <= i < t.targets@.len() implies match walk(
                *root,
                (#[trigger] t.targets@[i]).deep_view(),
            ) {
                Some(n) => if t.fresh@[i] {
                    phandle_prop(n) is None
                } else {
                    match phandle_prop(n) {
                        Some(TempValue::Bytes(b)) => b@.len() == 4 && be_value(b@) == t.values@[i],
                        _ => false,
                    }
                },
                None => false,
            } by {
                if i < k - 1 {
                    assert(t.targets@[i] == old_targets[i]);
                    assert(t.values@[i] == old_values[i]);
                    assert(t.fresh@[i] == old_t_fresh[i]);
                }
            }
            assert forall|i: int|
                0 <= i < t.fresh@.len() && #[trigger] t.fresh@[i] implies t.values@[i]
                == count_fresh(t.fresh@.take(i)) + 1 by {
                if i < k - 1 {
                    assert(t.values@[i] == old_values[i]);
                    assert(t.fresh@[i] == old_t_fresh[i]);
                }
            }
        }
    }
    assert(t.targets.deep_view() =~= items);
    assert(node_refs(*labels, *root, *root) == Ok::<Seq<Seq<Seq<char>>>, Error>(node_refs(*labels, *root, *root)->Ok_0));
    Ok(t)
}

/// A copy of path `k`.
fn clone_out(paths: &Vec<Vec<String>>, k: usize) -> (r: Vec<String>)
    requires
        k < paths@.len(),
    ensures
        r.deep_view() == paths@[k as int].deep_view(),
{
    crate::tree::clone_path(&paths[k])
}

} // verus!

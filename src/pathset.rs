//! An insertion-ordered set of node paths, kept in a `hashlink::LinkedHashSet`.

use hashlink::{DefaultHashBuilder, LinkedHashSet};
use vstd::prelude::*;

verus! {

/// `hashlink::LinkedHashSet`, opaque: what it holds is `path_set_items`.
#[verifier::external_type_specification]
#[verifier::external_body]
#[verifier::reject_recursive_types(T)]
#[verifier::reject_recursive_types(S)]
pub struct ExLinkedHashSet<T, S>(LinkedHashSet<T, S>);

/// `hashlink::DefaultHashBuilder`, the set's hasher, opaque.
#[verifier::external_type_specification]
#[verifier::external_body]
pub struct ExDefaultHashBuilder(DefaultHashBuilder);

/// The paths in the set, in the order of the set's internal list.
pub uninterp spec fn path_set_items(s: LinkedHashSet<Vec<String>>) -> Seq<Seq<Seq<char>>>;

/// Relies on `LinkedHashSet::new`: a new set is empty.
#[verifier::external_body]
pub(crate) fn new_path_set() -> (r: LinkedHashSet<Vec<String>>)
    ensures
        path_set_items(r) == Seq::<Seq<Seq<char>>>::empty(),
{
    LinkedHashSet::new()
}

/// Relies on `LinkedHashSet::replace`: a path equal to one in the set (`Vec`
/// and `String` equality: same names in the same order) keeps the place of
/// the one it replaces; a new path goes to the back of the list.
#[verifier::external_body]
pub(crate) fn path_set_replace(s: &mut LinkedHashSet<Vec<String>>, p: Vec<String>)
    ensures
        path_set_items(*old(s)).contains(p.deep_view()) ==> path_set_items(*final(s))
            == path_set_items(*old(s)),
        !path_set_items(*old(s)).contains(p.deep_view()) ==> path_set_items(*final(s))
            == path_set_items(*old(s)).push(p.deep_view()),
{
    s.replace(p);
}

/// Relies on `LinkedHashSet`'s `IntoIterator`: the paths come out from the
/// front of the list to the back.
#[verifier::external_body]
pub(crate) fn path_set_into_vec(s: LinkedHashSet<Vec<String>>) -> (r: Vec<Vec<String>>)
    ensures
        r.deep_view() == path_set_items(s),
{
    s.into_iter().collect()
}

} // verus!

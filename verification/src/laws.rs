//! Laws of the binding map: what one operation's result guarantees about
//! the next, stated over the views that the tree's contracts use. Path-form
//! equivalence lives with the segmentation in `paths`.

use vstd::prelude::*;

verus! {

/// Law: binding a path and then looking that same path up yields exactly
/// the id just bound.
pub proof fn lemma_insert_then_get(
    m: Map<Seq<Seq<char>>, Seq<char>>,
    p: Seq<Seq<char>>,
    v: Seq<char>,
)
    ensures
        m.insert(p, v).contains_key(p),
        m.insert(p, v)[p] == v,
{
}

/// Law: binding the same path twice leaves only the most recent id; the
/// earlier insertion is not observable afterwards.
pub proof fn lemma_last_write_wins(
    m: Map<Seq<Seq<char>>, Seq<char>>,
    p: Seq<Seq<char>>,
    v1: Seq<char>,
    v2: Seq<char>,
)
    ensures
        m.insert(p, v1).insert(p, v2) == m.insert(p, v2),
{
    assert(m.insert(p, v1).insert(p, v2) =~= m.insert(p, v2));
}

/// Law: binding a path binds nothing else; in particular a strict ancestor
/// of the bound path, never bound itself, still has no binding.
pub proof fn lemma_ancestor_unbound(
    m: Map<Seq<Seq<char>>, Seq<char>>,
    p: Seq<Seq<char>>,
    q: Seq<Seq<char>>,
    v: Seq<char>,
)
    requires
        q.is_prefix_of(p),
        q.len() < p.len(),
        !m.contains_key(q),
    ensures
        !m.insert(p, v).contains_key(q),
{
    assert(q != p);
}

/// Law: after invalidating a path, neither that path nor any path nested
/// under it has a binding left.
pub proof fn lemma_invalid_unbinds(
    m: Map<Seq<Seq<char>>, Seq<char>>,
    p: Seq<Seq<char>>,
    k: Seq<Seq<char>>,
)
    requires
        p.is_prefix_of(k),
    ensures
        !m.remove_keys(Set::new(|x: Seq<Seq<char>>| p.is_prefix_of(x))).contains_key(k),
{
}

/// Law: invalidating a path touches no binding outside that path's subtree.
pub proof fn lemma_invalid_frames(
    m: Map<Seq<Seq<char>>, Seq<char>>,
    p: Seq<Seq<char>>,
    k: Seq<Seq<char>>,
)
    requires
        !p.is_prefix_of(k),
    ensures
        m.remove_keys(Set::new(|x: Seq<Seq<char>>| p.is_prefix_of(x))).contains_key(k)
            == m.contains_key(k),
        m.contains_key(k) ==> m.remove_keys(Set::new(|x: Seq<Seq<char>>| p.is_prefix_of(x)))[k]
            == m[k],
{
}

/// Law: invalidating a path under which nothing is bound — one whose parent
/// does not exist, or whose final segment matches no node — changes no
/// binding at all.
pub proof fn lemma_invalid_noop(m: Map<Seq<Seq<char>>, Seq<char>>, p: Seq<Seq<char>>)
    requires
        forall|k: Seq<Seq<char>>| m.contains_key(k) ==> !(#[trigger] p.is_prefix_of(k)),
    ensures
        m.remove_keys(Set::new(|x: Seq<Seq<char>>| p.is_prefix_of(x))) == m,
{
    assert(m.remove_keys(Set::new(|x: Seq<Seq<char>>| p.is_prefix_of(x))) =~= m);
}

} // verus!

//! The tree itself: nodes keyed by segment name, an optional id binding at
//! each node, and the insert / get / invalid operations.

use crate::paths::{format_components, path_segs, split_components};
use vstd::prelude::*;

verus! {

broadcast use vstd::std_specs::vec::group_vec_axioms;

/// One tree node: a path segment label (empty only for the root), the id
/// bound to the path ending here, if any, and the child nodes.
pub struct Node {
    pub name: String,
    pub id: Option<String>,
    pub children: Vec<Node>,
}

/// The hierarchical key index. The root carries the empty name and an
/// initial sentinel binding of the empty id at the empty path.
pub struct Tree {
    pub root: Node,
}

/// View of an optional owned id.
pub open spec fn id_view(o: Option<String>) -> Option<Seq<char>> {
    match o {
        Some(s) => Some(s@),
        None => None,
    }
}

/// The first child, in scan order, whose name reads `name`.
pub open spec fn seg_child(cs: Seq<Node>, name: Seq<char>) -> Option<Node>
    decreases cs.len(),
{
    if cs.len() == 0 {
        None
    } else if cs.first().name@ == name {
        Some(cs.first())
    } else {
        seg_child(cs.drop_first(), name)
    }
}

/// The node reached from `n` by following the segments of `p`, if every
/// segment exists.
pub open spec fn node_at(n: Node, p: Seq<Seq<char>>) -> Option<Node>
    decreases p.len(),
{
    if p.len() == 0 {
        Some(n)
    } else {
        match seg_child(n.children@, p.first()) {
            Some(c) => node_at(c, p.drop_first()),
            None => None,
        }
    }
}

/// The id bound at path `p` under `n`: the reached node's binding, or
/// nothing when the path or the binding is absent.
pub open spec fn id_at(n: Node, p: Seq<Seq<char>>) -> Option<Seq<char>> {
    match node_at(n, p) {
        Some(m) => id_view(m.id),
        None => None,
    }
}

/// No two children of one node share a name.
pub open spec fn uniq_names(cs: Seq<Node>) -> bool {
    forall|i: int, j: int| 0 <= i < j < cs.len() ==> cs[i].name@ != cs[j].name@
}

/// Well-formedness: sibling names are unique at every node of the subtree.
pub open spec fn wf_node(n: Node) -> bool
    decreases n,
{
    uniq_names(n.children@) && (forall|k: int|
        0 <= k < n.children@.len() ==> wf_node(#[trigger] n.children[k]))
}

impl Tree {
    /// The bindings of the tree: each path whose node carries an id, mapped
    /// to that id.
    pub open spec fn bindings(self) -> Map<Seq<Seq<char>>, Seq<char>> {
        Map::new(
            |p: Seq<Seq<char>>| id_at(self.root, p) is Some,
            |p: Seq<Seq<char>>| id_at(self.root, p)->0,
        )
    }

    /// Well-formedness of the whole tree: the root is the unnamed node and
    /// sibling names are unique throughout.
    pub open spec fn wf(self) -> bool {
        wf_node(self.root) && self.root.name@ == Seq::<char>::empty()
    }
}

impl View for Tree {
    type V = Map<Seq<Seq<char>>, Seq<char>>;

    open spec fn view(&self) -> Map<Seq<Seq<char>>, Seq<char>> {
        self.bindings()
    }
}

impl Node {
    fn new(name: String, id: Option<String>) -> (n: Node)
        ensures
            n.name == name,
            n.id == id,
            n.children@ == Seq::<Node>::empty(),
    {
        Node { name, id, children: Vec::new() }
    }
}

impl Tree {
    /// An empty tree: a root with the empty name, the sentinel empty id, and
    /// no children, so the only binding is the empty path's.
    pub fn new() -> (t: Tree)
        ensures
            t.wf(),
            t.root.children@ == Seq::<Node>::empty(),
            t@ == Map::<Seq<Seq<char>>, Seq<char>>::empty().insert(
                Seq::<Seq<char>>::empty(),
                Seq::<char>::empty(),
            ),
    {
        let t = Tree { root: Node::new(String::new(), Some(String::new())) };
        proof {
            assert forall|p: Seq<Seq<char>>| #[trigger]
                id_at(t.root, p) is Some implies p == Seq::<Seq<char>>::empty() by {
                if p.len() > 0 {
                    assert(seg_child(t.root.children@, p.first()) is None);
                }
            }
            assert(id_at(t.root, Seq::<Seq<char>>::empty()) == Some(Seq::<char>::empty()));
            assert(t@ =~= Map::<Seq<Seq<char>>, Seq<char>>::empty().insert(
                Seq::<Seq<char>>::empty(),
                Seq::<char>::empty(),
            ));
        }
        t
    }

    /// Looks up the id bound to the exact path. A path whose segments are
    /// missing, or whose node was never itself inserted, has no binding.
    pub fn get(&self, path: &str) -> (r: Option<String>)
        ensures
            r is Some <==> self@.contains_key(path_segs(path@)),
            r is Some ==> r->0@ == self@[path_segs(path@)],
    {
        let components = format_components(split_components(path));
        let r = get_from(&self.root, &components, 0);
        proof {
            assert(components.deep_view().skip(0) =~= path_segs(path@));
        }
        r
    }
}

/// Linear scan for a child with the given name; yields the first match.
fn child_index(cs: &Vec<Node>, name: &String) -> (r: Option<usize>)
    ensures
        (match r {
            Some(j) => j < cs@.len() && cs@[j as int].name@ == name@ && (forall|k: int|
                0 <= k < j ==> cs@[k].name@ != name@),
            None => forall|k: int| 0 <= k < cs@.len() ==> cs@[k].name@ != name@,
        }),
{
    let mut j: usize = 0;
    while j < cs.len()
        invariant
            j <= cs@.len(),
            forall|k: int| 0 <= k < j ==> cs@[k].name@ != name@,
        decreases cs@.len() - j,
    {
        if cs[j].name == *name {
            return Some(j);
        }
        j = j + 1;
    }
    None
}

proof fn lemma_seg_child_at(cs: Seq<Node>, name: Seq<char>, j: int)
    requires
        0 <= j < cs.len(),
        cs[j].name@ == name,
        forall|k: int| 0 <= k < j ==> cs[k].name@ != name,
    ensures
        seg_child(cs, name) == Some(cs[j]),
    decreases j,
{
    if j > 0 {
        lemma_seg_child_at(cs.drop_first(), name, j - 1);
    }
}

proof fn lemma_seg_child_none(cs: Seq<Node>, name: Seq<char>)
    requires
        forall|k: int| 0 <= k < cs.len() ==> cs[k].name@ != name,
    ensures
        seg_child(cs, name) is None,
    decreases cs.len(),
{
    if cs.len() > 0 {
        lemma_seg_child_none(cs.drop_first(), name);
    }
}

proof fn lemma_wf_parts(n: Node)
    requires
        wf_node(n),
    ensures
        uniq_names(n.children@),
        forall|k: int| 0 <= k < n.children@.len() ==> wf_node(#[trigger] n.children[k]),
{
}

/// Law: in a well-formed node every child in the vector is the node that
/// one segment — its own name — reaches. So which children exist is fixed
/// by which single-segment paths lead to a node, and never hidden.
pub proof fn lemma_child_reachable(n: Node, k: int)
    requires
        wf_node(n),
        0 <= k < n.children@.len(),
    ensures
        node_at(n, seq![n.children@[k].name@]) == Some(n.children@[k]),
{
    lemma_wf_parts(n);
    let name = n.children@[k].name@;
    assert forall|m: int| 0 <= m < k implies n.children@[m].name@ != name by {
        assert(n.children@[m].name@ != n.children@[k].name@);
    }
    lemma_seg_child_at(n.children@, name, k);
    let p = seq![name];
    assert(p.first() == name);
    assert(node_at(n, p) == node_at(n.children@[k], p.drop_first()));
    assert(p.drop_first() =~= Seq::<Seq<char>>::empty());
}

proof fn lemma_seg_child_update(cs: Seq<Node>, j: int, x: Node, name: Seq<char>)
    requires
        0 <= j < cs.len(),
        x.name@ == cs[j].name@,
        name != cs[j].name@,
    ensures
        seg_child(cs.update(j, x), name) == seg_child(cs, name),
    decreases cs.len(),
{
    if j == 0 {
        assert(cs.update(0, x).drop_first() =~= cs.drop_first());
    } else {
        assert(cs.update(j, x).first() == cs.first());
        if cs.first().name@ != name {
            lemma_seg_child_update(cs.drop_first(), j - 1, x, name);
            assert(cs.update(j, x).drop_first() =~= cs.drop_first().update(j - 1, x));
        }
    }
}

proof fn lemma_seg_child_push(cs: Seq<Node>, x: Node, name: Seq<char>)
    ensures
        seg_child(cs.push(x), name) == (if seg_child(cs, name) is Some {
            seg_child(cs, name)
        } else if x.name@ == name {
            Some(x)
        } else {
            None::<Node>
        }),
    decreases cs.len(),
{
    if cs.len() == 0 {
        assert(cs.push(x).first() == x);
        assert(cs.push(x).drop_first() =~= cs);
    } else {
        assert(cs.push(x).first() == cs.first());
        lemma_seg_child_push(cs.drop_first(), x, name);
        assert(cs.push(x).drop_first() =~= cs.drop_first().push(x));
    }
}

/// Two non-empty segment sequences are equal exactly when their heads and
/// tails are.
proof fn lemma_seq_eq_step(p: Seq<Seq<char>>, q: Seq<Seq<char>>)
    requires
        p.len() > 0,
        q.len() > 0,
    ensures
        (p == q) <==> (p.first() == q.first() && p.drop_first() == q.drop_first()),
{
    if p.first() == q.first() && p.drop_first() == q.drop_first() {
        assert(p.drop_first().len() == p.len() - 1);
        assert(q.drop_first().len() == q.len() - 1);
        assert(p.len() == q.len());
        assert forall|k: int| 0 <= k < p.len() implies p[k] == q[k] by {
            if k >= 1 {
                assert(p[k] == p.drop_first()[k - 1]);
                assert(q[k] == q.drop_first()[k - 1]);
            }
        }
        assert(p =~= q);
    }
}

/// A fresh chain of nodes for `segs[i..]`, carrying `id` at its end: what
/// insertion grafts in when a segment has no matching child.
fn new_branch(segs: &Vec<String>, i: usize, id: String) -> (n: Node)
    requires
        i < segs@.len(),
    ensures
        n.name@ == segs@[i as int]@,
        wf_node(n),
        forall|q: Seq<Seq<char>>| #[trigger] id_at(n, q) == (if q == segs.deep_view().skip(
            i as int + 1,
        ) {
            Some(id@)
        } else {
            None::<Seq<char>>
        }),
        forall|q: Seq<Seq<char>>| (#[trigger] node_at(n, q)) is Some <==> q.is_prefix_of(
            segs.deep_view().skip(i as int + 1),
        ),
    decreases segs@.len() - i,
{
    let ghost rest = segs.deep_view().skip(i as int + 1);
    let n_segs = segs.len();
    if i + 1 == n_segs {
        let n = Node::new(segs[i].clone(), Some(id));
        proof {
            assert(rest =~= Seq::<Seq<char>>::empty());
            assert forall|q: Seq<Seq<char>>| #[trigger] id_at(n, q) == (if q == rest {
                Some(id@)
            } else {
                None::<Seq<char>>
            }) by {
                if q.len() == 0 {
                    assert(q =~= rest);
                } else {
                    assert(seg_child(n.children@, q.first()) is None);
                    assert(q != rest);
                }
            }
            assert forall|q: Seq<Seq<char>>| (#[trigger] node_at(n, q)) is Some <==> q
                .is_prefix_of(rest) by {
                if q.len() == 0 {
                    assert(q =~= rest.subrange(0, 0));
                    assert(q.is_prefix_of(rest));
                } else {
                    assert(seg_child(n.children@, q.first()) is None);
                    assert(!q.is_prefix_of(rest));
                }
            }
        }
        n
    } else {
        let child = new_branch(segs, i + 1, id);
        let mut n = Node::new(segs[i].clone(), None);
        n.children.push(child);
        proof {
            assert(rest.len() > 0);
            assert(rest.first() == segs.deep_view()[i as int + 1]);
            assert(rest.drop_first() =~= segs.deep_view().skip(i as int + 2));
            assert(n.children@ =~= Seq::<Node>::empty().push(child));
            assert forall|q: Seq<Seq<char>>| #[trigger] id_at(n, q) == (if q == rest {
                Some(id@)
            } else {
                None::<Seq<char>>
            }) by {
                if q.len() == 0 {
                    assert(q != rest);
                } else {
                    lemma_seq_eq_step(rest, q);
                    if q.first() == child.name@ {
                        assert(seg_child(n.children@, q.first()) == Some(child));
                        assert(id_at(n, q) == id_at(child, q.drop_first()));
                    } else {
                        lemma_seg_child_none(n.children@, q.first());
                        assert(q != rest);
                    }
                }
            }
            assert forall|q: Seq<Seq<char>>| (#[trigger] node_at(n, q)) is Some <==> q
                .is_prefix_of(rest) by {
                if q.len() == 0 {
                    assert(q =~= rest.subrange(0, 0));
                    assert(q.is_prefix_of(rest));
                } else {
                    lemma_prefix_step(q, rest);
                    assert(rest.first() == child.name@);
                    if q.first() == child.name@ {
                        assert(seg_child(n.children@, q.first()) == Some(child));
                        assert(node_at(n, q) == node_at(child, q.drop_first()));
                    } else {
                        lemma_seg_child_none(n.children@, q.first());
                        assert(!q.is_prefix_of(rest));
                    }
                }
            }
            assert(wf_node(n));
        }
        n
    }
}

proof fn lemma_remove_insert(s: Seq<Node>, j: int, x: Node)
    requires
        0 <= j < s.len(),
    ensures
        s.remove(j).insert(j, x) =~= s.update(j, x),
{
}

/// Insertion below `node`, following `segs[i..]`: descends into matching
/// children, grafts a fresh branch at the first miss, and binds `id` at the
/// end of the path, overwriting any binding there.
fn insert_from(node: &mut Node, segs: &Vec<String>, i: usize, id: String)
    requires
        i <= segs@.len(),
    ensures
        final(node).name == old(node).name,
        wf_node(*old(node)) ==> wf_node(*final(node)),
        forall|q: Seq<Seq<char>>| #[trigger] id_at(*final(node), q) == (if q
            == segs.deep_view().skip(i as int) {
            Some(id@)
        } else {
            id_at(*old(node), q)
        }),
        forall|q: Seq<Seq<char>>| (#[trigger] node_at(*final(node), q)) is Some <==> (node_at(
            *old(node),
            q,
        ) is Some || q.is_prefix_of(segs.deep_view().skip(i as int))),
    decreases segs@.len() - i,
{
    let ghost p = segs.deep_view().skip(i as int);
    if i == segs.len() {
        node.id = Some(id);
        proof {
            assert(p =~= Seq::<Seq<char>>::empty());
            assert forall|q: Seq<Seq<char>>| #[trigger] id_at(*node, q) == (if q == p {
                Some(id@)
            } else {
                id_at(*old(node), q)
            }) by {
                if q.len() == 0 {
                    assert(q =~= p);
                } else {
                    assert(node.children@ == old(node).children@);
                    assert(id_at(*node, q) == id_at(*old(node), q));
                    assert(q != p);
                }
            }
            assert forall|q: Seq<Seq<char>>| (#[trigger] node_at(*node, q)) is Some <==> (node_at(
                *old(node),
                q,
            ) is Some || q.is_prefix_of(p)) by {
                if q.len() == 0 {
                    assert(node_at(*node, q) is Some);
                    assert(node_at(*old(node), q) is Some);
                } else {
                    assert(node.children@ == old(node).children@);
                    assert(node_at(*node, q) == node_at(*old(node), q));
                    assert(!q.is_prefix_of(p));
                }
            }
            if wf_node(*old(node)) {
                lemma_wf_parts(*old(node));
                assert forall|k: int|
                    0 <= k < node.children@.len() implies #[trigger] wf_node(node.children[k]) by {
                    assert(node.children[k] == old(node).children[k]);
                    assert(wf_node(old(node).children[k]));
                }
                assert(wf_node(*node));
            }
        }
    } else {
        proof {
            assert(p.len() > 0);
            assert(p.first() == segs.deep_view()[i as int]);
            assert(segs.deep_view()[i as int] == segs@[i as int]@);
            assert(p.drop_first() =~= segs.deep_view().skip(i as int + 1));
        }
        let ghost seg = segs@[i as int]@;
        let ghost cs0 = node.children@;
        let r = child_index(&node.children, &segs[i]);
        match r {
            Some(j) => {
                let mut child = node.children.remove(j);
                let ghost child0 = child;
                insert_from(&mut child, segs, i + 1, id);
                node.children.insert(j, child);
                proof {
                    lemma_remove_insert(cs0, j as int, child);
                    assert(node.children@ == cs0.update(j as int, child));
                    lemma_seg_child_at(cs0, seg, j as int);
                    lemma_seg_child_at(cs0.update(j as int, child), seg, j as int);
                    assert forall|q: Seq<Seq<char>>| #[trigger] id_at(*node, q) == (if q == p {
                        Some(id@)
                    } else {
                        id_at(*old(node), q)
                    }) by {
                        if q.len() == 0 {
                            assert(q != p);
                        } else {
                            lemma_seq_eq_step(p, q);
                            if q.first() == seg {
                                assert(id_at(*node, q) == id_at(child, q.drop_first()));
                                assert(id_at(*old(node), q) == id_at(child0, q.drop_first()));
                            } else {
                                lemma_seg_child_update(cs0, j as int, child, q.first());
                                assert(q != p);
                            }
                        }
                    }
                    assert forall|q: Seq<Seq<char>>| (#[trigger] node_at(*node, q)) is Some <==> (
                    node_at(*old(node), q) is Some || q.is_prefix_of(p)) by {
                        if q.len() == 0 {
                            assert(node_at(*node, q) is Some);
                            assert(node_at(*old(node), q) is Some);
                        } else {
                            lemma_prefix_step(q, p);
                            if q.first() == seg {
                                assert(node_at(*node, q) == node_at(child, q.drop_first()));
                                assert(node_at(*old(node), q) == node_at(child0, q.drop_first()));
                            } else {
                                lemma_seg_child_update(cs0, j as int, child, q.first());
                                assert(node_at(*node, q) == node_at(*old(node), q));
                                assert(!q.is_prefix_of(p));
                            }
                        }
                    }
                    if wf_node(*old(node)) {
                        lemma_wf_parts(*old(node));
                        assert(child0 == old(node).children[j as int]);
                        assert(wf_node(old(node).children[j as int]));
                        assert(wf_node(child0));
                        assert forall|k: int|
                            0 <= k < node.children@.len() implies #[trigger] wf_node(
                            node.children[k],
                        ) by {
                            if k != j as int {
                                assert(node.children[k] == cs0[k]);
                                assert(cs0[k] == old(node).children[k]);
                                assert(wf_node(old(node).children[k]));
                            }
                        }
                        assert forall|a: int, b: int|
                            0 <= a < b < node.children@.len() implies node.children@[a].name@
                            != node.children@[b].name@ by {
                            assert(node.children@[a].name@ == cs0[a].name@);
                            assert(node.children@[b].name@ == cs0[b].name@);
                            assert(cs0[a].name@ != cs0[b].name@);
                        }
                        assert(uniq_names(node.children@));
                        assert(wf_node(*node));
                    }
                }
            }
            None => {
                let child = new_branch(segs, i, id);
                node.children.push(child);
                proof {
                    lemma_seg_child_none(cs0, seg);
                    assert forall|q: Seq<Seq<char>>| #[trigger] id_at(*node, q) == (if q == p {
                        Some(id@)
                    } else {
                        id_at(*old(node), q)
                    }) by {
                        if q.len() == 0 {
                            assert(q != p);
                        } else {
                            lemma_seq_eq_step(p, q);
                            lemma_seg_child_push(cs0, child, q.first());
                            if q.first() == seg {
                                assert(seg_child(node.children@, q.first()) == Some(child));
                                assert(id_at(*node, q) == id_at(child, q.drop_first()));
                                assert(seg_child(cs0, q.first()) is None);
                                assert(id_at(*old(node), q) is None);
                            } else {
                                assert(seg_child(node.children@, q.first()) == seg_child(
                                    cs0,
                                    q.first(),
                                ));
                                assert(q != p);
                            }
                        }
                    }
                    assert forall|q: Seq<Seq<char>>| (#[trigger] node_at(*node, q)) is Some <==> (
                    node_at(*old(node), q) is Some || q.is_prefix_of(p)) by {
                        if q.len() == 0 {
                            assert(node_at(*node, q) is Some);
                            assert(node_at(*old(node), q) is Some);
                        } else {
                            lemma_prefix_step(q, p);
                            lemma_seg_child_push(cs0, child, q.first());
                            if q.first() == seg {
                                assert(seg_child(node.children@, q.first()) == Some(child));
                                assert(node_at(*node, q) == node_at(child, q.drop_first()));
                                assert(seg_child(cs0, q.first()) is None);
                                assert(node_at(*old(node), q) is None);
                            } else {
                                assert(seg_child(node.children@, q.first()) == seg_child(
                                    cs0,
                                    q.first(),
                                ));
                                assert(node_at(*node, q) == node_at(*old(node), q));
                                assert(!q.is_prefix_of(p));
                            }
                        }
                    }
                    if wf_node(*old(node)) {
                        lemma_wf_parts(*old(node));
                        assert forall|k: int|
                            0 <= k < node.children@.len() implies #[trigger] wf_node(
                            node.children[k],
                        ) by {
                            if k < cs0.len() {
                                assert(node.children[k] == cs0[k]);
                                assert(cs0[k] == old(node).children[k]);
                                assert(wf_node(old(node).children[k]));
                            } else {
                                assert(node.children[k] == child);
                            }
                        }
                        assert forall|a: int, b: int|
                            0 <= a < b < node.children@.len() implies node.children@[a].name@
                            != node.children@[b].name@ by {
                            if b < cs0.len() {
                                assert(cs0[a].name@ != cs0[b].name@);
                            } else {
                                assert(node.children@[b].name@ == seg);
                                assert(cs0[a].name@ != seg);
                            }
                        }
                        assert(uniq_names(node.children@));
                        assert(wf_node(*node));
                    }
                }
            }
        }
    }
}

proof fn lemma_seg_child_remove(cs: Seq<Node>, j: int, name: Seq<char>)
    requires
        0 <= j < cs.len(),
        cs[j].name@ != name,
    ensures
        seg_child(cs.remove(j), name) == seg_child(cs, name),
    decreases cs.len(),
{
    if j == 0 {
        assert(cs.remove(0) =~= cs.drop_first());
    } else {
        assert(cs.remove(j).first() == cs.first());
        if cs.first().name@ != name {
            lemma_seg_child_remove(cs.drop_first(), j - 1, name);
            assert(cs.remove(j).drop_first() =~= cs.drop_first().remove(j - 1));
        }
    }
}

/// A non-empty sequence is a prefix exactly when the heads agree and the
/// tails are prefixes.
proof fn lemma_prefix_step(p: Seq<Seq<char>>, q: Seq<Seq<char>>)
    requires
        p.len() > 0,
    ensures
        p.is_prefix_of(q) <==> (q.len() > 0 && p.first() == q.first()
            && p.drop_first().is_prefix_of(q.drop_first())),
{
    if q.len() > 0 {
        if p.is_prefix_of(q) {
            assert(p.first() == q.subrange(0, p.len() as int)[0]);
            assert forall|k: int| 0 <= k < p.len() - 1 implies p.drop_first()[k]
                == q.drop_first().subrange(0, p.len() - 1)[k] by {
                assert(p.drop_first()[k] == p[k + 1]);
                assert(q.drop_first().subrange(0, p.len() - 1)[k] == q[k + 1]);
                assert(p[k + 1] == q.subrange(0, p.len() as int)[k + 1]);
            }
            assert(p.drop_first() =~= q.drop_first().subrange(0, p.len() - 1));
        }
        if q.len() >= p.len() && p.first() == q.first() && p.drop_first().is_prefix_of(
            q.drop_first(),
        ) {
            assert forall|k: int| 0 <= k < p.len() implies p[k] == q.subrange(
                0,
                p.len() as int,
            )[k] by {
                if k >= 1 {
                    assert(p[k] == p.drop_first()[k - 1]);
                    assert(p.drop_first()[k - 1] == q.drop_first().subrange(
                        0,
                        p.len() - 1,
                    )[k - 1]);
                    assert(q.drop_first()[k - 1] == q[k]);
                }
            }
            assert(p =~= q.subrange(0, p.len() as int));
        }
    }
}

/// Invalidation below `node`: `segs[i..]` leads to the parent, `last` names
/// the child to detach together with its whole subtree. A missing step on
/// the way, or no matching child, changes nothing.
fn invalid_from(node: &mut Node, segs: &Vec<String>, i: usize, last: &String)
    requires
        i <= segs@.len(),
        wf_node(*old(node)),
    ensures
        final(node).name == old(node).name,
        final(node).id == old(node).id,
        wf_node(*final(node)),
        forall|q: Seq<Seq<char>>| #[trigger] id_at(*final(node), q) == (if segs.deep_view().skip(
            i as int,
        ).push(last@).is_prefix_of(q) {
            None::<Seq<char>>
        } else {
            id_at(*old(node), q)
        }),
        forall|q: Seq<Seq<char>>| (#[trigger] node_at(*final(node), q)) is Some <==> (node_at(
            *old(node),
            q,
        ) is Some && !segs.deep_view().skip(i as int).push(last@).is_prefix_of(q)),
    decreases segs@.len() - i,
{
    let ghost rem = segs.deep_view().skip(i as int).push(last@);
    proof {
        lemma_wf_parts(*old(node));
        assert(rem.last() == last@);
    }
    if i == segs.len() {
        proof {
            assert(segs.deep_view().skip(i as int) =~= Seq::<Seq<char>>::empty());
            assert(rem =~= seq![last@]);
            assert(rem.first() == last@);
            assert(rem.drop_first() =~= Seq::<Seq<char>>::empty());
        }
        let ghost cs0 = node.children@;
        let r = child_index(&node.children, last);
        match r {
            Some(j) => {
                node.children.remove(j);
                proof {
                    let cs1 = node.children@;
                    assert(cs1 == cs0.remove(j as int));
                    assert forall|k: int| 0 <= k < cs1.len() implies cs1[k].name@ != last@ by {
                        if k < j {
                            assert(cs1[k] == cs0[k]);
                            assert(cs0[k].name@ != cs0[j as int].name@);
                        } else {
                            assert(cs1[k] == cs0[k + 1]);
                            assert(cs0[j as int].name@ != cs0[k + 1].name@);
                        }
                    }
                    assert forall|q: Seq<Seq<char>>| #[trigger] id_at(*node, q) == (if
                        rem.is_prefix_of(q) {
                        None::<Seq<char>>
                    } else {
                        id_at(*old(node), q)
                    }) by {
                        if q.len() == 0 {
                            assert(!rem.is_prefix_of(q));
                        } else {
                            lemma_prefix_step(rem, q);
                            if q.first() == last@ {
                                lemma_seg_child_none(cs1, q.first());
                                assert(id_at(*node, q) is None);
                                assert(rem.drop_first().is_prefix_of(q.drop_first()));
                                assert(rem.is_prefix_of(q));
                            } else {
                                lemma_seg_child_remove(cs0, j as int, q.first());
                                assert(!rem.is_prefix_of(q));
                            }
                        }
                    }
                    assert forall|q: Seq<Seq<char>>| (#[trigger] node_at(*node, q)) is Some <==> (
                    node_at(*old(node), q) is Some && !rem.is_prefix_of(q)) by {
                        if q.len() == 0 {
                            assert(node_at(*node, q) is Some);
                            assert(node_at(*old(node), q) is Some);
                            assert(!rem.is_prefix_of(q));
                        } else {
                            lemma_prefix_step(rem, q);
                            if q.first() == last@ {
                                lemma_seg_child_none(cs1, q.first());
                                assert(node_at(*node, q) is None);
                                assert(rem.drop_first().is_prefix_of(q.drop_first()));
                                assert(rem.is_prefix_of(q));
                            } else {
                                lemma_seg_child_remove(cs0, j as int, q.first());
                                assert(node_at(*node, q) == node_at(*old(node), q));
                                assert(!rem.is_prefix_of(q));
                            }
                        }
                    }
                    assert forall|k: int| 0 <= k < cs1.len() implies wf_node(
                        #[trigger] node.children[k],
                    ) by {
                        if k < j {
                            assert(cs1[k] == cs0[k]);
                            assert(wf_node(old(node).children[k]));
                        } else {
                            assert(cs1[k] == cs0[k + 1]);
                            assert(wf_node(old(node).children[k + 1]));
                        }
                    }
                    assert forall|a: int, b: int| 0 <= a < b < cs1.len() implies cs1[a].name@
                        != cs1[b].name@ by {
                        let a0 = if a < j { a } else { a + 1 };
                        let b0 = if b < j { b } else { b + 1 };
                        assert(cs1[a] == cs0[a0]);
                        assert(cs1[b] == cs0[b0]);
                        assert(cs0[a0].name@ != cs0[b0].name@);
                    }
                    assert(uniq_names(cs1));
                    assert(wf_node(*node));
                }
            }
            None => {
                proof {
                    lemma_seg_child_none(cs0, last@);
                    assert forall|q: Seq<Seq<char>>| #[trigger] id_at(*node, q) == (if
                        rem.is_prefix_of(q) {
                        None::<Seq<char>>
                    } else {
                        id_at(*old(node), q)
                    }) by {
                        if rem.is_prefix_of(q) {
                            lemma_prefix_step(rem, q);
                            assert(q.first() == last@);
                            assert(id_at(*node, q) is None);
                        }
                    }
                    assert forall|q: Seq<Seq<char>>| (#[trigger] node_at(*node, q)) is Some <==> (
                    node_at(*old(node), q) is Some && !rem.is_prefix_of(q)) by {
                        if rem.is_prefix_of(q) {
                            lemma_prefix_step(rem, q);
                            assert(q.first() == last@);
                            assert(node_at(*node, q) is None);
                        }
                    }
                }
            }
        }
    } else {
        proof {
            let sk = segs.deep_view().skip(i as int);
            assert(sk.len() > 0);
            assert(rem.first() == sk.first());
            assert(sk.first() == segs.deep_view()[i as int]);
            assert(segs.deep_view()[i as int] == segs@[i as int]@);
            assert(rem.drop_first() =~= segs.deep_view().skip(i as int + 1).push(last@));
        }
        let ghost seg = segs@[i as int]@;
        let ghost cs0 = node.children@;
        let r = child_index(&node.children, &segs[i]);
        match r {
            Some(j) => {
                let mut child = node.children.remove(j);
                let ghost child0 = child;
                proof {
                    assert(child0 == old(node).children[j as int]);
                    assert(wf_node(old(node).children[j as int]));
                }
                invalid_from(&mut child, segs, i + 1, last);
                node.children.insert(j, child);
                proof {
                    lemma_remove_insert(cs0, j as int, child);
                    assert(node.children@ == cs0.update(j as int, child));
                    lemma_seg_child_at(cs0, seg, j as int);
                    lemma_seg_child_at(cs0.update(j as int, child), seg, j as int);
                    assert forall|q: Seq<Seq<char>>| #[trigger] id_at(*node, q) == (if
                        rem.is_prefix_of(q) {
                        None::<Seq<char>>
                    } else {
                        id_at(*old(node), q)
                    }) by {
                        if q.len() == 0 {
                            assert(!rem.is_prefix_of(q));
                        } else {
                            lemma_prefix_step(rem, q);
                            if q.first() == seg {
                                assert(id_at(*node, q) == id_at(child, q.drop_first()));
                                assert(id_at(*old(node), q) == id_at(child0, q.drop_first()));
                            } else {
                                lemma_seg_child_update(cs0, j as int, child, q.first());
                                assert(!rem.is_prefix_of(q));
                            }
                        }
                    }
                    assert forall|q: Seq<Seq<char>>| (#[trigger] node_at(*node, q)) is Some <==> (
                    node_at(*old(node), q) is Some && !rem.is_prefix_of(q)) by {
                        if q.len() == 0 {
                            assert(node_at(*node, q) is Some);
                            assert(node_at(*old(node), q) is Some);
                            assert(!rem.is_prefix_of(q));
                        } else {
                            lemma_prefix_step(rem, q);
                            if q.first() == seg {
                                assert(node_at(*node, q) == node_at(child, q.drop_first()));
                                assert(node_at(*old(node), q) == node_at(child0, q.drop_first()));
                            } else {
                                lemma_seg_child_update(cs0, j as int, child, q.first());
                                assert(node_at(*node, q) == node_at(*old(node), q));
                                assert(!rem.is_prefix_of(q));
                            }
                        }
                    }
                    assert forall|k: int| 0 <= k < node.children@.len() implies wf_node(
                        #[trigger] node.children[k],
                    ) by {
                        if k != j as int {
                            assert(node.children[k] == cs0[k]);
                            assert(wf_node(old(node).children[k]));
                        }
                    }
                    assert forall|a: int, b: int|
                        0 <= a < b < node.children@.len() implies node.children@[a].name@
                        != node.children@[b].name@ by {
                        assert(node.children@[a].name@ == cs0[a].name@);
                        assert(node.children@[b].name@ == cs0[b].name@);
                        assert(cs0[a].name@ != cs0[b].name@);
                    }
                    assert(uniq_names(node.children@));
                    assert(wf_node(*node));
                }
            }
            None => {
                proof {
                    lemma_seg_child_none(cs0, seg);
                    assert forall|q: Seq<Seq<char>>| #[trigger] id_at(*node, q) == (if
                        rem.is_prefix_of(q) {
                        None::<Seq<char>>
                    } else {
                        id_at(*old(node), q)
                    }) by {
                        if rem.is_prefix_of(q) {
                            lemma_prefix_step(rem, q);
                            assert(q.first() == seg);
                            assert(id_at(*node, q) is None);
                        }
                    }
                    assert forall|q: Seq<Seq<char>>| (#[trigger] node_at(*node, q)) is Some <==> (
                    node_at(*old(node), q) is Some && !rem.is_prefix_of(q)) by {
                        if rem.is_prefix_of(q) {
                            lemma_prefix_step(rem, q);
                            assert(q.first() == seg);
                            assert(node_at(*node, q) is None);
                        }
                    }
                }
            }
        }
    }
}

impl Tree {
    /// Detaches the node the path leads to, with its entire subtree, from
    /// its parent: the path's own binding and every binding nested below it
    /// disappear, and so do the nodes themselves. A path without segments,
    /// a missing step on the way, or no matching final segment leaves the
    /// tree unchanged.
    pub fn invalid(&mut self, path: &str)
        requires
            old(self).wf(),
        ensures
            final(self).wf(),
            final(self)@ == (if path_segs(path@).len() == 0 {
                old(self)@
            } else {
                old(self)@.remove_keys(
                    Set::new(|k: Seq<Seq<char>>| path_segs(path@).is_prefix_of(k)),
                )
            }),
            path_segs(path@).len() == 0 ==> *final(self) == *old(self),
            path_segs(path@).len() > 0 ==> (forall|q: Seq<Seq<char>>| (#[trigger] node_at(
                final(self).root,
                q,
            )) is Some <==> (node_at(old(self).root, q) is Some && !path_segs(path@).is_prefix_of(
                q,
            ))),
    {
        let mut components = format_components(split_components(path));
        let ghost np = path_segs(path@);
        let last = match components.pop() {
            Some(c) => c,
            None => {
                return ;
            },
        };
        proof {
            assert(components.deep_view() =~= np.drop_last());
            assert(last@ == np.last());
            assert(components.deep_view().skip(0) =~= components.deep_view());
            assert(components.deep_view().push(last@) =~= np);
        }
        invalid_from(&mut self.root, &components, 0, &last);
        proof {
            assert(self@ =~= old(self)@.remove_keys(
                Set::new(|k: Seq<Seq<char>>| np.is_prefix_of(k)),
            ));
        }
    }
}

impl Tree {
    /// Binds `id` to the path, creating every missing node along it. An
    /// existing binding at the path is overwritten; nothing else changes:
    /// the nodes afterwards are the old ones plus exactly the path's
    /// prefixes, so re-inserting an existing path adds no node.
    pub fn insert(&mut self, path: &str, id: &str)
        requires
            old(self).wf(),
        ensures
            final(self).wf(),
            final(self)@ == old(self)@.insert(path_segs(path@), id@),
            forall|q: Seq<Seq<char>>| (#[trigger] node_at(final(self).root, q)) is Some <==> (
            node_at(old(self).root, q) is Some || q.is_prefix_of(path_segs(path@))),
    {
        let components = format_components(split_components(path));
        insert_from(&mut self.root, &components, 0, id.to_owned());
        proof {
            let np = path_segs(path@);
            assert(components.deep_view().skip(0) =~= np);
            assert(self@ =~= old(self)@.insert(np, id@));
        }
    }
}

/// Lookup below `node`, following `segs[i..]`.
fn get_from(node: &Node, segs: &Vec<String>, i: usize) -> (r: Option<String>)
    requires
        i <= segs@.len(),
    ensures
        id_view(r) == id_at(*node, segs.deep_view().skip(i as int)),
    decreases segs@.len() - i,
{
    let ghost p = segs.deep_view().skip(i as int);
    if i == segs.len() {
        proof {
            assert(p =~= Seq::<Seq<char>>::empty());
        }
        match &node.id {
            Some(s) => Some(s.clone()),
            None => None,
        }
    } else {
        let r = child_index(&node.children, &segs[i]);
        proof {
            assert(p.first() == segs.deep_view()[i as int]);
            assert(segs.deep_view()[i as int] == segs@[i as int]@);
            assert(p.drop_first() =~= segs.deep_view().skip(i as int + 1));
        }
        match r {
            Some(j) => {
                proof {
                    lemma_seg_child_at(node.children@, segs@[i as int]@, j as int);
                }
                get_from(&node.children[j], segs, i + 1)
            }
            None => {
                proof {
                    lemma_seg_child_none(node.children@, segs@[i as int]@);
                }
                None
            }
        }
    }
}

} // verus!

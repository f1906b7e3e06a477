//! The endpoint routing table: per-method prefix trees over path segments,
//! with insertion, exact lookup, deletion with pruning, and ordered
//! enumeration.

use crate::command::HttpMethod;
use crate::order::{lemma_lex_irrefl, lemma_lex_trans, lex_cmp, lex_lt, KeyOrder};
use crate::path::{normalize, spec_segments, views_of};
use vstd::prelude::*;

verus! {

/// One node of a path tree: an optional response body, and children keyed by
/// path segment, kept sorted by segment so enumeration is deterministic.
#[derive(Debug)]
#[verifier::ext_equal]
pub struct PathNode {
    pub(crate) body: Option<Vec<u8>>,
    pub(crate) children: Vec<(Vec<u8>, PathNode)>,
}

/// The first child whose key equals `seg`, by linear scan.
pub(crate) open spec fn assoc_find(cs: Seq<(Vec<u8>, PathNode)>, seg: Seq<u8>) -> Option<PathNode>
    decreases cs.len(),
{
    if cs.len() == 0 {
        None
    } else if cs[0].0@ == seg {
        Some(cs[0].1)
    } else {
        assoc_find(cs.drop_first(), seg)
    }
}

/// The body registered in `n` at the exact segment list `p`, if any.
pub(crate) open spec fn spec_lookup(n: PathNode, p: Seq<Seq<u8>>) -> Option<Seq<u8>>
    decreases p.len(),
{
    if p.len() == 0 {
        match n.body {
            Some(b) => Some(b@),
            None => None,
        }
    } else {
        match assoc_find(n.children@, p[0]) {
            Some(c) => spec_lookup(c, p.drop_first()),
            None => None,
        }
    }
}

/// A node with no body and no children; such nodes are pruned away.
pub(crate) open spec fn node_is_empty(n: PathNode) -> bool {
    n.body is None && n.children@.len() == 0
}

/// Keys strictly ascending in lexicographic order, hence also distinct.
pub(crate) open spec fn keys_sorted(cs: Seq<(Vec<u8>, PathNode)>) -> bool {
    forall|i: int, j: int|
        0 <= i < j < cs.len() ==> lex_lt(#[trigger] cs[i].0@, #[trigger] cs[j].0@)
}

/// Well-formedness of a tree: children sorted by non-empty segment keys, and
/// no empty descendant anywhere.
pub(crate) open spec fn node_wf(n: PathNode) -> bool
    decreases n,
{
    &&& keys_sorted(n.children@)
    &&& forall|i: int| 0 <= i < n.children@.len() ==> (#[trigger] n.children@[i].0@).len() > 0
    &&& forall|i: int| 0 <= i < n.children@.len() ==> node_wf(#[trigger] n.children@[i].1)
    &&& forall|i: int| 0 <= i < n.children@.len() ==> !node_is_empty(#[trigger] n.children@[i].1)
}

/// Distinct keys, as sorted order implies.
pub(crate) open spec fn keys_distinct(cs: Seq<(Vec<u8>, PathNode)>) -> bool {
    forall|i: int, j: int|
        0 <= i < j < cs.len() ==> (#[trigger] cs[i].0@) != (#[trigger] cs[j].0@)
}

proof fn lemma_sorted_distinct(cs: Seq<(Vec<u8>, PathNode)>)
    requires
        keys_sorted(cs),
    ensures
        keys_distinct(cs),
{
    assert forall|i: int, j: int|
        0 <= i < j < cs.len() implies (#[trigger] cs[i].0@) != (#[trigger] cs[j].0@) by {
        lemma_lex_irrefl(cs[i].0@);
    }
}

/// If no key equals `seg`, the scan finds nothing.
proof fn lemma_find_absent(cs: Seq<(Vec<u8>, PathNode)>, seg: Seq<u8>)
    requires
        forall|i: int| 0 <= i < cs.len() ==> (#[trigger] cs[i].0@) != seg,
    ensures
        assoc_find(cs, seg) is None,
    decreases cs.len(),
{
    if cs.len() > 0 {
        lemma_find_absent(cs.drop_first(), seg);
    }
}

/// If the keys before `j` all differ from `cs[j]`'s key, the scan finds `cs[j]`.
proof fn lemma_find_at(cs: Seq<(Vec<u8>, PathNode)>, j: int)
    requires
        0 <= j < cs.len(),
        forall|i: int| 0 <= i < j ==> (#[trigger] cs[i].0@) != cs[j].0@,
    ensures
        assoc_find(cs, cs[j].0@) == Some(cs[j].1),
    decreases cs.len(),
{
    if j > 0 {
        lemma_find_at(cs.drop_first(), j - 1);
    }
}

/// Replacing the child at `j` (key unchanged) changes the scan only at that key.
proof fn lemma_find_update(cs: Seq<(Vec<u8>, PathNode)>, j: int, c2: PathNode, k: Seq<u8>)
    requires
        0 <= j < cs.len(),
        keys_distinct(cs),
    ensures
        assoc_find(cs.update(j, (cs[j].0, c2)), k) == if k == cs[j].0@ {
            Some(c2)
        } else {
            assoc_find(cs, k)
        },
    decreases cs.len(),
{
    let cs2 = cs.update(j, (cs[j].0, c2));
    if j == 0 {
        assert(cs2.drop_first() =~= cs.drop_first());
    } else {
        assert(cs2[0] == cs[0]);
        assert(cs2.drop_first() =~= cs.drop_first().update(j - 1, (cs.drop_first()[j - 1].0, c2)));
        assert(keys_distinct(cs.drop_first())) by {
            assert(forall|i1: int, i2: int|
                0 <= i1 < i2 < cs.drop_first().len() ==> (#[trigger] cs.drop_first()[i1].0@) != (
                #[trigger] cs.drop_first()[i2].0@)) by {
                assert(forall|i1: int|
                    0 <= i1 < cs.drop_first().len() ==> cs.drop_first()[i1] == cs[i1 + 1]);
            }
        }
        lemma_find_update(cs.drop_first(), j - 1, c2, k);
    }
}

/// Inserting a fresh key at `j` changes the scan only at that key.
proof fn lemma_find_insert(cs: Seq<(Vec<u8>, PathNode)>, j: int, key: Vec<u8>, c: PathNode, k: Seq<u8>)
    requires
        0 <= j <= cs.len(),
        forall|i: int| 0 <= i < cs.len() ==> (#[trigger] cs[i].0@) != key@,
    ensures
        assoc_find(cs.insert(j, (key, c)), k) == if k == key@ {
            Some(c)
        } else {
            assoc_find(cs, k)
        },
    decreases cs.len(),
{
    let cs2 = cs.insert(j, (key, c));
    if j == 0 {
        assert(cs2[0] == (key, c));
        assert(cs2.drop_first() =~= cs);
    } else {
        assert(cs2[0] == cs[0]);
        assert(cs2.drop_first() =~= cs.drop_first().insert(j - 1, (key, c)));
        lemma_find_insert(cs.drop_first(), j - 1, key, c, k);
    }
}

/// Removing the child at `j` changes the scan only at that key.
proof fn lemma_find_remove(cs: Seq<(Vec<u8>, PathNode)>, j: int, k: Seq<u8>)
    requires
        0 <= j < cs.len(),
        keys_distinct(cs),
    ensures
        assoc_find(cs.remove(j), k) == if k == cs[j].0@ {
            None
        } else {
            assoc_find(cs, k)
        },
    decreases cs.len(),
{
    let cs2 = cs.remove(j);
    if j == 0 {
        assert(cs2 =~= cs.drop_first());
        if k == cs[0].0@ {
            assert(forall|i: int| 0 <= i < cs2.len() ==> (#[trigger] cs2[i].0@) != k);
            lemma_find_absent(cs2, k);
        }
    } else {
        assert(cs2[0] == cs[0]);
        assert(cs2.drop_first() =~= cs.drop_first().remove(j - 1));
        assert(keys_distinct(cs.drop_first())) by {
            assert(forall|i1: int|
                0 <= i1 < cs.drop_first().len() ==> cs.drop_first()[i1] == cs[i1 + 1]);
        }
        lemma_find_remove(cs.drop_first(), j - 1, k);
    }
}

/// Finds the position of `seg` among the sorted child keys: either its exact
/// position, or the position where it would be inserted.
fn find_child(children: &Vec<(Vec<u8>, PathNode)>, seg: &[u8]) -> (r: (bool, usize))
    requires
        keys_sorted(children@),
    ensures
        r.1 <= children@.len(),
        r.0 ==> r.1 < children@.len() && children@[r.1 as int].0@ == seg@ && assoc_find(
            children@,
            seg@,
        ) == Some(children@[r.1 as int].1),
        !r.0 ==> assoc_find(children@, seg@) is None && (forall|i: int|
            0 <= i < r.1 as int ==> lex_lt(#[trigger] children@[i].0@, seg@)) && (forall|i: int|
            r.1 as int <= i < children@.len() ==> lex_lt(seg@, #[trigger] children@[i].0@)),
{
    let n = children.len();
    let mut j: usize = 0;
    while j < n
        invariant
            j <= n,
            n == children@.len(),
            keys_sorted(children@),
            forall|i: int| 0 <= i < j as int ==> lex_lt(#[trigger] children@[i].0@, seg@),
        decreases n - j,
    {
        let pair = &children[j];
        match lex_cmp(pair.0.as_slice(), seg) {
            KeyOrder::Less => {
                j = j + 1;
            },
            KeyOrder::Equal => {
                proof {
                    assert forall|i: int| 0 <= i < j as int implies (#[trigger] children@[i].0@)
                        != seg@ by {
                        lemma_lex_irrefl(children@[i].0@);
                    }
                    lemma_find_at(children@, j as int);
                }
                return (true, j);
            },
            KeyOrder::Greater => {
                proof {
                    assert forall|i: int| j as int <= i < children@.len() implies lex_lt(
                        seg@,
                        #[trigger] children@[i].0@,
                    ) by {
                        if i > j as int {
                            lemma_lex_trans(seg@, children@[j as int].0@, children@[i].0@);
                        }
                    }
                    assert forall|i: int| 0 <= i < children@.len() implies (
                    #[trigger] children@[i].0@) != seg@ by {
                        if i < j as int {
                            lemma_lex_irrefl(children@[i].0@);
                        } else {
                            lemma_lex_irrefl(seg@);
                        }
                    }
                    lemma_find_absent(children@, seg@);
                }
                return (false, j);
            },
        }
    }
    proof {
        assert forall|i: int| 0 <= i < children@.len() implies (#[trigger] children@[i].0@)
            != seg@ by {
            lemma_lex_irrefl(children@[i].0@);
        }
        lemma_find_absent(children@, seg@);
    }
    (false, j)
}

/// Replacing a child in place (same key) keeps the keys sorted.
proof fn lemma_sorted_update(cs: Seq<(Vec<u8>, PathNode)>, j: int, c2: PathNode)
    requires
        keys_sorted(cs),
        0 <= j < cs.len(),
    ensures
        keys_sorted(cs.update(j, (cs[j].0, c2))),
{
    let cs2 = cs.update(j, (cs[j].0, c2));
    assert forall|i1: int, i2: int| 0 <= i1 < i2 < cs2.len() implies lex_lt(
        #[trigger] cs2[i1].0@,
        #[trigger] cs2[i2].0@,
    ) by {
        assert(cs2[i1].0 == cs[i1].0);
        assert(cs2[i2].0 == cs[i2].0);
        assert(lex_lt(cs[i1].0@, cs[i2].0@));
    }
}

/// Inserting a key between its lexicographic neighbours keeps the keys sorted.
proof fn lemma_sorted_insert(cs: Seq<(Vec<u8>, PathNode)>, j: int, key: Vec<u8>, c: PathNode)
    requires
        keys_sorted(cs),
        0 <= j <= cs.len(),
        forall|i: int| 0 <= i < j ==> lex_lt(#[trigger] cs[i].0@, key@),
        forall|i: int| j <= i < cs.len() ==> lex_lt(key@, #[trigger] cs[i].0@),
    ensures
        keys_sorted(cs.insert(j, (key, c))),
{
    let cs2 = cs.insert(j, (key, c));
    cs.insert_ensures(j, (key, c));
    assert forall|i1: int, i2: int| 0 <= i1 < i2 < cs2.len() implies lex_lt(
        #[trigger] cs2[i1].0@,
        #[trigger] cs2[i2].0@,
    ) by {
        if i1 < j && i2 < j {
            assert(cs2[i1] == cs[i1] && cs2[i2] == cs[i2]);
        } else if i1 < j && i2 == j {
            assert(cs2[i1] == cs[i1] && cs2[i2] == (key, c));
        } else if i1 < j && i2 > j {
            assert(cs2[i1] == cs[i1] && cs2[i2] == cs[i2 - 1]);
            assert(lex_lt(cs[i1].0@, cs[i2 - 1].0@));
        } else if i1 == j {
            assert(cs2[i1] == (key, c) && cs2[i2] == cs[i2 - 1]);
        } else {
            assert(cs2[i1] == cs[i1 - 1] && cs2[i2] == cs[i2 - 1]);
            assert(lex_lt(cs[i1 - 1].0@, cs[i2 - 1].0@));
        }
    }
}

/// Records the body at `segs[i..]`, creating intermediate nodes as needed;
/// reports whether a body was already present there.
fn node_insert(node: PathNode, segs: &Vec<Vec<u8>>, i: usize, body: Vec<u8>) -> (r: (
    PathNode,
    bool,
))
    requires
        node_wf(node),
        i <= segs@.len(),
        forall|k: int| 0 <= k < segs@.len() ==> (#[trigger] segs@[k]@).len() > 0,
    ensures
        node_wf(r.0),
        !node_is_empty(r.0),
        spec_lookup(r.0, views_of(segs@).skip(i as int)) == Some(body@),
        forall|q: Seq<Seq<u8>>|
            q != views_of(segs@).skip(i as int) ==> #[trigger] spec_lookup(r.0, q) == spec_lookup(
                node,
                q,
            ),
        r.1 == (spec_lookup(node, views_of(segs@).skip(i as int)) is Some),
    decreases segs@.len() - i,
{
    let ghost sfx = views_of(segs@).skip(i as int);
    let PathNode { body: nbody, mut children } = node;
    if i == segs.len() {
        let was = nbody.is_some();
        let n2 = PathNode { body: Some(body), children };
        proof {
            assert(sfx.len() == 0);
            assert(n2.children == node.children);
            assert forall|q: Seq<Seq<u8>>| q != sfx implies #[trigger] spec_lookup(n2, q)
                == spec_lookup(node, q) by {
                if q.len() == 0 {
                    assert(q =~= sfx);
                }
            }
        }
        (n2, was)
    } else {
        proof {
            assert(sfx[0] == segs@[i as int]@);
            assert(sfx.drop_first() =~= views_of(segs@).skip(i as int + 1));
        }
        let ghost sfx1 = views_of(segs@).skip(i as int + 1);
        let ghost cs = node.children@;
        let seg = &segs[i];
        let (found, j) = find_child(&children, seg.as_slice());
        if found {
            let (key, child) = children.remove(j);
            let (child2, was) = node_insert(child, segs, i + 1, body);
            children.insert(j, (key, child2));
            let n2 = PathNode { body: nbody, children };
            proof {
                let cs2 = cs.update(j as int, (cs[j as int].0, child2));
                cs.remove_ensures(j as int);
                cs.remove(j as int).insert_ensures(j as int, (key, child2));
                assert(n2.children@ =~= cs2);
                lemma_sorted_distinct(cs);
                lemma_sorted_update(cs, j as int, child2);
                assert forall|i2: int| 0 <= i2 < cs2.len() implies (#[trigger] cs2[i2].0@).len()
                    > 0 && node_wf(cs2[i2].1) && !node_is_empty(cs2[i2].1) by {
                    if i2 == j as int {
                        assert(cs2[i2] == (cs[j as int].0, child2));
                    } else {
                        assert(cs2[i2] == cs[i2]);
                    }
                }
                assert(node_wf(n2));
                lemma_find_update(cs, j as int, child2, sfx[0]);
                assert(spec_lookup(n2, sfx) == spec_lookup(child2, sfx.drop_first()));
                assert forall|q: Seq<Seq<u8>>| q != sfx implies #[trigger] spec_lookup(n2, q)
                    == spec_lookup(node, q) by {
                    if q.len() == 0 {
                    } else {
                        lemma_find_update(cs, j as int, child2, q[0]);
                        if q[0] == cs[j as int].0@ {
                            if q.drop_first() == sfx.drop_first() {
                                assert(q[0] == sfx[0]);
                                assert forall|k: int| 0 <= k < q.len() implies q[k] == sfx[k] by {
                                    if k > 0 {
                                        assert(q[k] == q.drop_first()[k - 1]);
                                        assert(sfx[k] == sfx.drop_first()[k - 1]);
                                    }
                                }
                                assert(q =~= sfx);
                            }
                            assert(spec_lookup(child2, q.drop_first()) == spec_lookup(
                                child,
                                q.drop_first(),
                            ));
                        }
                    }
                }
                assert(spec_lookup(node, sfx) == spec_lookup(child, sfx.drop_first()));
            }
            (n2, was)
        } else {
            let fresh = PathNode { body: None, children: Vec::new() };
            let (child2, _was2) = node_insert(fresh, segs, i + 1, body);
            let key = crate::path::copy_bytes(seg.as_slice());
            children.insert(j, (key, child2));
            let n2 = PathNode { body: nbody, children };
            proof {
                let cs2 = cs.insert(j as int, (key, child2));
                cs.insert_ensures(j as int, (key, child2));
                assert(n2.children@ =~= cs2);
                assert forall|i2: int| 0 <= i2 < cs.len() implies (#[trigger] cs[i2].0@)
                    != key@ by {
                    if i2 < j as int {
                        lemma_lex_irrefl(cs[i2].0@);
                    } else {
                        lemma_lex_irrefl(key@);
                    }
                }
                lemma_sorted_insert(cs, j as int, key, child2);
                assert forall|i2: int| 0 <= i2 < cs2.len() implies (#[trigger] cs2[i2].0@).len()
                    > 0 && node_wf(cs2[i2].1) && !node_is_empty(cs2[i2].1) by {
                    if i2 < j as int {
                        assert(cs2[i2] == cs[i2]);
                    } else if i2 == j as int {
                        assert(cs2[i2] == (key, child2));
                    } else {
                        assert(cs2[i2] == cs[i2 - 1]);
                    }
                }
                assert(node_wf(n2));
                assert forall|q: Seq<Seq<u8>>| spec_lookup(fresh, q) is None by {
                    if q.len() == 0 {
                    }
                }
                lemma_find_insert(cs, j as int, key, child2, sfx[0]);
                assert(spec_lookup(n2, sfx) == spec_lookup(child2, sfx.drop_first()));
                assert forall|q: Seq<Seq<u8>>| q != sfx implies #[trigger] spec_lookup(n2, q)
                    == spec_lookup(node, q) by {
                    if q.len() == 0 {
                    } else {
                        lemma_find_insert(cs, j as int, key, child2, q[0]);
                        if q[0] == key@ {
                            if q.drop_first() == sfx.drop_first() {
                                assert(q[0] == sfx[0]);
                                assert forall|k: int| 0 <= k < q.len() implies q[k] == sfx[k] by {
                                    if k > 0 {
                                        assert(q[k] == q.drop_first()[k - 1]);
                                        assert(sfx[k] == sfx.drop_first()[k - 1]);
                                    }
                                }
                                assert(q =~= sfx);
                            }
                            assert(spec_lookup(child2, q.drop_first()) == spec_lookup(
                                fresh,
                                q.drop_first(),
                            ));
                            assert(spec_lookup(node, q) is None);
                        }
                    }
                }
                assert(spec_lookup(node, sfx) is None);
            }
            (n2, false)
        }
    }
}

/// Removing a child keeps the keys sorted.
proof fn lemma_sorted_remove(cs: Seq<(Vec<u8>, PathNode)>, j: int)
    requires
        keys_sorted(cs),
        0 <= j < cs.len(),
    ensures
        keys_sorted(cs.remove(j)),
{
    let cs2 = cs.remove(j);
    cs.remove_ensures(j);
    assert forall|i1: int, i2: int| 0 <= i1 < i2 < cs2.len() implies lex_lt(
        #[trigger] cs2[i1].0@,
        #[trigger] cs2[i2].0@,
    ) by {
        if i1 < j && i2 < j {
            assert(cs2[i1] == cs[i1] && cs2[i2] == cs[i2]);
        } else if i1 < j {
            assert(cs2[i1] == cs[i1] && cs2[i2] == cs[i2 + 1]);
        } else {
            assert(cs2[i1] == cs[i1 + 1] && cs2[i2] == cs[i2 + 1]);
        }
    }
}

/// Removes and returns the body at `segs[i..]`, which must be present;
/// prunes the subtree if it is now empty (first result `None`).
fn node_delete(node: PathNode, segs: &Vec<Vec<u8>>, i: usize) -> (r: (
    Option<PathNode>,
    Vec<u8>,
))
    requires
        node_wf(node),
        !node_is_empty(node),
        i <= segs@.len(),
        spec_lookup(node, views_of(segs@).skip(i as int)) is Some,
    ensures
        spec_lookup(node, views_of(segs@).skip(i as int)) == Some(r.1@),
        match r.0 {
            Some(n2) => node_wf(n2) && !node_is_empty(n2) && spec_lookup(
                n2,
                views_of(segs@).skip(i as int),
            ) is None && forall|q: Seq<Seq<u8>>|
                q != views_of(segs@).skip(i as int) ==> #[trigger] spec_lookup(n2, q)
                    == spec_lookup(node, q),
            None => forall|q: Seq<Seq<u8>>|
                q != views_of(segs@).skip(i as int) ==> #[trigger] spec_lookup(node, q) is None,
        },
    decreases segs@.len() - i,
{
    let ghost sfx = views_of(segs@).skip(i as int);
    let PathNode { body: nbody, mut children } = node;
    if i == segs.len() {
        proof {
            assert(sfx.len() == 0);
        }
        let b = match nbody {
            Some(b) => b,
            None => {
                proof {
                    assert(false);
                }
                unreached()
            },
        };
        let n2 = PathNode { body: None, children };
        proof {
            assert(n2.children == node.children);
        }
        if n2.children.len() == 0 {
            proof {
                assert forall|q: Seq<Seq<u8>>| q != sfx implies #[trigger] spec_lookup(
                    node,
                    q,
                ) is None by {
                    if q.len() == 0 {
                        assert(q =~= sfx);
                    }
                }
            }
            (None, b)
        } else {
            proof {
                assert(node_wf(n2));
                assert forall|q: Seq<Seq<u8>>| q != sfx implies #[trigger] spec_lookup(n2, q)
                    == spec_lookup(node, q) by {
                    if q.len() == 0 {
                        assert(q =~= sfx);
                    }
                }
            }
            (Some(n2), b)
        }
    } else {
        proof {
            assert(sfx[0] == segs@[i as int]@);
            assert(sfx.drop_first() =~= views_of(segs@).skip(i as int + 1));
        }
        let ghost cs = node.children@;
        let seg = &segs[i];
        let (found, j) = find_child(&children, seg.as_slice());
        if !found {
            proof {
                assert(false);
            }
            unreached()
        } else {
            let (key, child) = children.remove(j);
            let (child_opt, removed) = node_delete(child, segs, i + 1);
            proof {
                lemma_sorted_distinct(cs);
                assert(spec_lookup(node, sfx) == spec_lookup(child, sfx.drop_first()));
            }
            match child_opt {
                Some(c2) => {
                    children.insert(j, (key, c2));
                    let n2 = PathNode { body: nbody, children };
                    proof {
                        let cs2 = cs.update(j as int, (cs[j as int].0, c2));
                        cs.remove_ensures(j as int);
                        cs.remove(j as int).insert_ensures(j as int, (key, c2));
                        assert(n2.children@ =~= cs2);
                        lemma_sorted_update(cs, j as int, c2);
                        assert forall|i2: int| 0 <= i2 < cs2.len() implies (
                        #[trigger] cs2[i2].0@).len() > 0 && node_wf(cs2[i2].1) && !node_is_empty(
                            cs2[i2].1,
                        ) by {
                            if i2 == j as int {
                                assert(cs2[i2] == (cs[j as int].0, c2));
                            } else {
                                assert(cs2[i2] == cs[i2]);
                            }
                        }
                        assert(node_wf(n2));
                        lemma_find_update(cs, j as int, c2, sfx[0]);
                        assert(spec_lookup(n2, sfx) == spec_lookup(c2, sfx.drop_first()));
                        assert forall|q: Seq<Seq<u8>>| q != sfx implies #[trigger] spec_lookup(
                            n2,
                            q,
                        ) == spec_lookup(node, q) by {
                            if q.len() == 0 {
                            } else {
                                lemma_find_update(cs, j as int, c2, q[0]);
                                if q[0] == cs[j as int].0@ {
                                    if q.drop_first() == sfx.drop_first() {
                                        assert(q[0] == sfx[0]);
                                        assert forall|k: int| 0 <= k < q.len() implies q[k]
                                            == sfx[k] by {
                                            if k > 0 {
                                                assert(q[k] == q.drop_first()[k - 1]);
                                                assert(sfx[k] == sfx.drop_first()[k - 1]);
                                            }
                                        }
                                        assert(q =~= sfx);
                                    }
                                    assert(spec_lookup(c2, q.drop_first()) == spec_lookup(
                                        child,
                                        q.drop_first(),
                                    ));
                                }
                            }
                        }
                    }
                    (Some(n2), removed)
                },
                None => {
                    let n2 = PathNode { body: nbody, children };
                    proof {
                        let cs2 = cs.remove(j as int);
                        cs.remove_ensures(j as int);
                        assert(n2.children@ == cs2);
                        lemma_sorted_remove(cs, j as int);
                        assert forall|i2: int| 0 <= i2 < cs2.len() implies (
                        #[trigger] cs2[i2].0@).len() > 0 && node_wf(cs2[i2].1) && !node_is_empty(
                            cs2[i2].1,
                        ) by {
                            if i2 < j as int {
                                assert(cs2[i2] == cs[i2]);
                            } else {
                                assert(cs2[i2] == cs[i2 + 1]);
                            }
                        }
                        assert(node_wf(n2));
                        lemma_find_remove(cs, j as int, sfx[0]);
                        assert(spec_lookup(n2, sfx) is None);
                        assert forall|q: Seq<Seq<u8>>| q != sfx implies #[trigger] spec_lookup(
                            n2,
                            q,
                        ) == spec_lookup(node, q) by {
                            if q.len() == 0 {
                            } else {
                                lemma_find_remove(cs, j as int, q[0]);
                                if q[0] == cs[j as int].0@ {
                                    if q.drop_first() == sfx.drop_first() {
                                        assert(q[0] == sfx[0]);
                                        assert forall|k: int| 0 <= k < q.len() implies q[k]
                                            == sfx[k] by {
                                            if k > 0 {
                                                assert(q[k] == q.drop_first()[k - 1]);
                                                assert(sfx[k] == sfx.drop_first()[k - 1]);
                                            }
                                        }
                                        assert(q =~= sfx);
                                    }
                                    assert(spec_lookup(child, q.drop_first()) is None);
                                    assert(spec_lookup(node, q) is None);
                                }
                            }
                        }
                    }
                    let prune = match &n2.body {
                        None => n2.children.len() == 0,
                        Some(_) => false,
                    };
                    if prune {
                        proof {
                            assert forall|q: Seq<Seq<u8>>| q != sfx implies #[trigger] spec_lookup(
                                node,
                                q,
                            ) is None by {
                                assert(spec_lookup(n2, q) == spec_lookup(node, q) || q == sfx);
                                assert(node_is_empty(n2));
                                if q.len() == 0 {
                                } else {
                                    assert(assoc_find(n2.children@, q[0]) is None);
                                }
                            }
                        }
                        (None, removed)
                    } else {
                        proof {
                            assert(!node_is_empty(n2));
                        }
                        (Some(n2), removed)
                    }
                },
            }
        }
    }
}

/// Follows existing children along `segs[i..]`; returns the body at the exact
/// final node, if there is one.
fn node_lookup<'a>(n: &'a PathNode, segs: &Vec<Vec<u8>>, i: usize) -> (r: Option<&'a Vec<u8>>)
    requires
        node_wf(*n),
        i <= segs@.len(),
    ensures
        match r {
            Some(b) => spec_lookup(*n, views_of(segs@).skip(i as int)) == Some(b@),
            None => spec_lookup(*n, views_of(segs@).skip(i as int)) is None,
        },
    decreases segs@.len() - i,
{
    let ghost sfx = views_of(segs@).skip(i as int);
    if i == segs.len() {
        proof {
            assert(sfx.len() == 0);
        }
        match &n.body {
            Some(b) => Some(b),
            None => None,
        }
    } else {
        proof {
            assert(sfx[0] == segs@[i as int]@);
            assert(sfx.drop_first() =~= views_of(segs@).skip(i as int + 1));
        }
        let seg = &segs[i];
        let (found, j) = find_child(&n.children, seg.as_slice());
        if found {
            let pair = &n.children[j];
            node_lookup(&pair.1, segs, i + 1)
        } else {
            None
        }
    }
}


/// Looking anything up in an empty node finds nothing.
proof fn lemma_empty_lookup(n: PathNode, q: Seq<Seq<u8>>)
    requires
        node_is_empty(n),
    ensures
        spec_lookup(n, q) is None,
{
    if q.len() == 0 {
    }
}

/// A well-formed, non-empty tree holds at least one body.
proof fn lemma_nonempty_has_entry(n: PathNode)
    requires
        node_wf(n),
        !node_is_empty(n),
    ensures
        exists|p: Seq<Seq<u8>>| spec_lookup(n, p) is Some,
    decreases n,
{
    if n.body is Some {
        assert(spec_lookup(n, Seq::<Seq<u8>>::empty()) is Some);
    } else {
        let child = n.children@[0].1;
        assert(node_wf(child) && !node_is_empty(child));
        lemma_nonempty_has_entry(child);
        let p0 = choose|p: Seq<Seq<u8>>| spec_lookup(child, p) is Some;
        let p = seq![n.children@[0].0@] + p0;
        assert(p[0] == n.children@[0].0@);
        assert(assoc_find(n.children@, p[0]) == Some(child));
        assert(p.drop_first() =~= p0);
        assert(spec_lookup(n, p) is Some);
    }
}

/// The routing table: one path tree per HTTP method that has at least one
/// registered endpoint; a method whose tree would be empty has no tree.
#[derive(Debug)]
pub struct EndpointStore {
    pub(crate) get_tree: Option<PathNode>,
    pub(crate) post_tree: Option<PathNode>,
    pub(crate) put_tree: Option<PathNode>,
    pub(crate) patch_tree: Option<PathNode>,
    pub(crate) delete_tree: Option<PathNode>,
}

/// The tree registered for a method, if any.
pub(crate) open spec fn tree_of(s: EndpointStore, m: HttpMethod) -> Option<PathNode> {
    match m {
        HttpMethod::Get => s.get_tree,
        HttpMethod::Post => s.post_tree,
        HttpMethod::Put => s.put_tree,
        HttpMethod::Patch => s.patch_tree,
        HttpMethod::Delete => s.delete_tree,
    }
}

/// The body registered for `(m, p)`, if any.
pub(crate) open spec fn store_lookup(s: EndpointStore, m: HttpMethod, p: Seq<Seq<u8>>) -> Option<
    Seq<u8>,
> {
    match tree_of(s, m) {
        Some(t) => spec_lookup(t, p),
        None => None,
    }
}

impl View for EndpointStore {
    type V = Map<(HttpMethod, Seq<Seq<u8>>), Seq<u8>>;

    /// The table as a map from (method, normalized path) to response body.
    closed spec fn view(&self) -> Map<(HttpMethod, Seq<Seq<u8>>), Seq<u8>> {
        Map::new(
            |k: (HttpMethod, Seq<Seq<u8>>)| store_lookup(*self, k.0, k.1) is Some,
            |k: (HttpMethod, Seq<Seq<u8>>)| store_lookup(*self, k.0, k.1)->Some_0,
        )
    }
}

impl EndpointStore {
    /// Every method's tree, where present, is well-formed and non-empty.
    pub closed spec fn wf(self) -> bool {
        forall|m: HttpMethod|
            match #[trigger] tree_of(self, m) {
                Some(t) => node_wf(t) && !node_is_empty(t),
                None => true,
            }
    }

    /// Takes the tree of `m` out of the table, leaving no entry for it.
    fn take_tree(&mut self, m: HttpMethod) -> (r: Option<PathNode>)
        ensures
            r == tree_of(*old(self), m),
            tree_of(*final(self), m) is None,
            forall|m2: HttpMethod|
                m2 != m ==> #[trigger] tree_of(*final(self), m2) == tree_of(*old(self), m2),
    {
        match m {
            HttpMethod::Get => self.get_tree.take(),
            HttpMethod::Post => self.post_tree.take(),
            HttpMethod::Put => self.put_tree.take(),
            HttpMethod::Patch => self.patch_tree.take(),
            HttpMethod::Delete => self.delete_tree.take(),
        }
    }

    /// Replaces the tree of `m`.
    fn set_tree(&mut self, m: HttpMethod, t: Option<PathNode>)
        ensures
            tree_of(*final(self), m) == t,
            forall|m2: HttpMethod|
                m2 != m ==> #[trigger] tree_of(*final(self), m2) == tree_of(*old(self), m2),
    {
        match m {
            HttpMethod::Get => self.get_tree = t,
            HttpMethod::Post => self.post_tree = t,
            HttpMethod::Put => self.put_tree = t,
            HttpMethod::Patch => self.patch_tree = t,
            HttpMethod::Delete => self.delete_tree = t,
        }
    }

    /// Borrows the tree of `m`, if present.
    fn tree_ref(&self, m: HttpMethod) -> (r: &Option<PathNode>)
        ensures
            *r == tree_of(*self, m),
    {
        match m {
            HttpMethod::Get => &self.get_tree,
            HttpMethod::Post => &self.post_tree,
            HttpMethod::Put => &self.put_tree,
            HttpMethod::Patch => &self.patch_tree,
            HttpMethod::Delete => &self.delete_tree,
        }
    }

    /// Adds or updates the endpoint at `(method, path)`; reports whether a
    /// body was already registered there (an update) or not (an insert).
    pub fn add(&mut self, method: HttpMethod, path: &[u8], body: Vec<u8>) -> (was_update: bool)
        requires
            old(self).wf(),
        ensures
            final(self).wf(),
            final(self)@ == old(self)@.insert((method, spec_segments(path@)), body@),
            was_update == old(self)@.contains_key((method, spec_segments(path@))),
    {
        let ghost k = (method, spec_segments(path@));
        let segs = normalize(path);
        proof {
            assert(views_of(segs@).skip(0) =~= spec_segments(path@));
        }
        let tree_opt = self.take_tree(method);
        let ghost had_tree = tree_of(*old(self), method);
        let tree = match tree_opt {
            Some(t) => t,
            None => PathNode { body: None, children: Vec::new() },
        };
        proof {
            if had_tree is None {
                assert(node_is_empty(tree));
                assert(node_wf(tree));
            }
        }
        let (tree2, was) = node_insert(tree, &segs, 0, body);
        self.set_tree(method, Some(tree2));
        proof {
            if had_tree is None {
                lemma_empty_lookup(tree, spec_segments(path@));
            }
            assert forall|q: Seq<Seq<u8>>| q != spec_segments(path@) implies store_lookup(
                *final(self),
                method,
                q,
            ) == store_lookup(*old(self), method, q) by {
                assert(spec_lookup(tree2, q) == spec_lookup(tree, q));
                if had_tree is None {
                    lemma_empty_lookup(tree, q);
                }
            }
            assert(store_lookup(*final(self), method, spec_segments(path@)) == Some(body@));
            assert(final(self)@ =~= old(self)@.insert((method, spec_segments(path@)), body@));
        }
        was
    }

    /// Looks up the body registered at exactly `(method, path)`.
    pub fn get(&self, method: HttpMethod, path: &[u8]) -> (r: Option<&Vec<u8>>)
        requires
            self.wf(),
        ensures
            match r {
                Some(b) => self@.contains_key((method, spec_segments(path@))) && b@ == self@[(
                    method,
                    spec_segments(path@),
                )],
                None => !self@.contains_key((method, spec_segments(path@))),
            },
    {
        let segs = normalize(path);
        proof {
            assert(views_of(segs@).skip(0) =~= spec_segments(path@));
        }
        match self.tree_ref(method) {
            None => None,
            Some(t) => node_lookup(t, &segs, 0),
        }
    }

    /// Deletes the endpoint at `(method, path)` and returns its body; when
    /// nothing is registered there, returns `None` and leaves the table
    /// untouched. Nodes (and the method's tree) left empty are pruned.
    pub fn delete(&mut self, method: HttpMethod, path: &[u8]) -> (removed: Option<Vec<u8>>)
        requires
            old(self).wf(),
        ensures
            final(self).wf(),
            final(self)@ == old(self)@.remove((method, spec_segments(path@))),
            match removed {
                Some(b) => old(self)@.contains_key((method, spec_segments(path@))) && b@ == old(
                    self,
                )@[(method, spec_segments(path@))],
                None => !old(self)@.contains_key((method, spec_segments(path@))),
            },
            removed is None ==> *final(self) == *old(self),
    {
        let ghost k = (method, spec_segments(path@));
        let segs = normalize(path);
        proof {
            assert(views_of(segs@).skip(0) =~= spec_segments(path@));
        }
        let found = match self.tree_ref(method) {
            None => false,
            Some(t) => node_lookup(t, &segs, 0).is_some(),
        };
        if !found {
            proof {
                assert(!old(self)@.contains_key(k));
                assert(old(self)@.remove(k) =~= old(self)@);
            }
            return None;
        }
        let tree_opt = self.take_tree(method);
        let tree = match tree_opt {
            Some(t) => t,
            None => unreached(),
        };
        let (tree2_opt, b) = node_delete(tree, &segs, 0);
        self.set_tree(method, tree2_opt);
        proof {
            assert forall|q: Seq<Seq<u8>>| q != spec_segments(path@) implies store_lookup(
                *final(self),
                method,
                q,
            ) == store_lookup(*old(self), method, q) by {
                match tree2_opt {
                    Some(t2) => {
                        assert(spec_lookup(t2, q) == spec_lookup(tree, q));
                    },
                    None => {
                        assert(spec_lookup(tree, q) is None);
                    },
                }
            }
            assert(store_lookup(*final(self), method, spec_segments(path@)) is None);
            assert(final(self)@ =~= old(self)@.remove(k));
        }
        Some(b)
    }

    /// True exactly when no endpoint is registered under any method.
    pub fn is_empty(&self) -> (r: bool)
        requires
            self.wf(),
        ensures
            r <==> self@ == Map::<(HttpMethod, Seq<Seq<u8>>), Seq<u8>>::empty(),
    {
        let r = self.get_tree.is_none() && self.post_tree.is_none() && self.put_tree.is_none()
            && self.patch_tree.is_none() && self.delete_tree.is_none();
        proof {
            if r {
                assert forall|k2: (HttpMethod, Seq<Seq<u8>>)| !self@.contains_key(k2) by {
                    assert(tree_of(*self, k2.0) is None);
                }
                assert(self@ =~= Map::<(HttpMethod, Seq<Seq<u8>>), Seq<u8>>::empty());
            } else {
                let m = if self.get_tree is Some {
                    HttpMethod::Get
                } else if self.post_tree is Some {
                    HttpMethod::Post
                } else if self.put_tree is Some {
                    HttpMethod::Put
                } else if self.patch_tree is Some {
                    HttpMethod::Patch
                } else {
                    HttpMethod::Delete
                };
                let t = tree_of(*self, m)->Some_0;
                assert(node_wf(t) && !node_is_empty(t));
                lemma_nonempty_has_entry(t);
                let p = choose|p: Seq<Seq<u8>>| spec_lookup(t, p) is Some;
                assert(self@.contains_key((m, p)));
                assert(!Map::<(HttpMethod, Seq<Seq<u8>>), Seq<u8>>::empty().contains_key((m, p)));
            }
        }
        r
    }
}

impl Default for EndpointStore {
    /// An empty routing table.
    fn default() -> (s: Self)
        ensures
            s.wf(),
            s@ == Map::<(HttpMethod, Seq<Seq<u8>>), Seq<u8>>::empty(),
    {
        let s = EndpointStore {
            get_tree: None,
            post_tree: None,
            put_tree: None,
            patch_tree: None,
            delete_tree: None,
        };
        proof {
            assert forall|k2: (HttpMethod, Seq<Seq<u8>>)| !s@.contains_key(k2) by {
                assert(tree_of(s, k2.0) is None);
            }
            assert(s@ =~= Map::<(HttpMethod, Seq<Seq<u8>>), Seq<u8>>::empty());
        }
        s
    }
}


/// The views of a vector of (path, body) byte-vector pairs.
pub open spec fn pair_views(s: Seq<(Vec<u8>, Vec<u8>)>) -> Seq<(Seq<u8>, Seq<u8>)> {
    s.map_values(|e: (Vec<u8>, Vec<u8>)| (e.0@, e.1@))
}

/// `/seg1/seg2/...` for the given segments (empty for no segments).
pub open spec fn slash_join(p: Seq<Seq<u8>>) -> Seq<u8>
    decreases p.len(),
{
    if p.len() == 0 {
        seq![]
    } else {
        seq![crate::slash()] + p[0] + slash_join(p.drop_first())
    }
}

/// The full path shown for entry segments `p` under an accumulated prefix:
/// the root entry under an empty prefix is shown as `/`.
pub open spec fn render_path(prefix: Seq<u8>, p: Seq<Seq<u8>>) -> Seq<u8> {
    if p.len() == 0 {
        if prefix.len() == 0 {
            seq![crate::slash()]
        } else {
            prefix
        }
    } else {
        prefix + slash_join(p)
    }
}

/// Entry paths rendered under `prefix`, bodies unchanged.
pub(crate) open spec fn render_entries(prefix: Seq<u8>, es: Seq<(Seq<Seq<u8>>, Seq<u8>)>) -> Seq<
    (Seq<u8>, Seq<u8>),
> {
    es.map_values(|e: (Seq<Seq<u8>>, Seq<u8>)| (render_path(prefix, e.0), e.1))
}

/// Entry segment lists extended on the left with `seg`.
pub(crate) open spec fn prefix_entries(seg: Seq<u8>, es: Seq<(Seq<Seq<u8>>, Seq<u8>)>) -> Seq<
    (Seq<Seq<u8>>, Seq<u8>),
> {
    es.map_values(|e: (Seq<Seq<u8>>, Seq<u8>)| (seq![seg] + e.0, e.1))
}

/// All (segment list, body) entries of the tree, in depth-first order with
/// children visited in their (sorted) key order; a body at a node precedes
/// those of its descendants.
pub(crate) open spec fn entry_list(n: PathNode) -> Seq<(Seq<Seq<u8>>, Seq<u8>)>
    decreases n,
{
    (match n.body {
        Some(b) => seq![(Seq::<Seq<u8>>::empty(), b@)],
        None => seq![],
    }) + entry_list_children(n.children@)
}

/// The entries of a run of children, each under its own segment key.
pub(crate) open spec fn entry_list_children(cs: Seq<(Vec<u8>, PathNode)>) -> Seq<
    (Seq<Seq<u8>>, Seq<u8>),
>
    decreases cs,
{
    if cs.len() == 0 {
        seq![]
    } else {
        prefix_entries(cs[0].0@, entry_list(cs[0].1)) + entry_list_children(cs.drop_first())
    }
}

/// Appending a child appends its entries.
proof fn lemma_children_push(s: Seq<(Vec<u8>, PathNode)>, x: (Vec<u8>, PathNode))
    ensures
        entry_list_children(s.push(x)) == entry_list_children(s) + prefix_entries(
            x.0@,
            entry_list(x.1),
        ),
    decreases s.len(),
{
    if s.len() == 0 {
        assert(s.push(x)[0] == x);
        assert(s.push(x).drop_first() =~= s);
        assert(s.push(x).len() == 1);
        assert(entry_list_children(s) =~= Seq::<(Seq<Seq<u8>>, Seq<u8>)>::empty());
        assert(entry_list_children(s.push(x)) == prefix_entries(x.0@, entry_list(x.1))
            + entry_list_children(s.push(x).drop_first()));
        assert(entry_list_children(s.push(x)) =~= prefix_entries(x.0@, entry_list(x.1)));
        assert(entry_list_children(s) + prefix_entries(x.0@, entry_list(x.1)) =~= prefix_entries(
            x.0@,
            entry_list(x.1),
        ));
    } else {
        assert(s.push(x)[0] == s[0]);
        assert(s.push(x).drop_first() =~= s.drop_first().push(x));
        lemma_children_push(s.drop_first(), x);
        assert(entry_list_children(s.push(x)) =~= entry_list_children(s) + prefix_entries(
            x.0@,
            entry_list(x.1),
        ));
    }
}

/// Rendering entries prefixed by `seg` under `prefix` is rendering them
/// under the extended prefix `prefix/seg`.
proof fn lemma_render_prefix(prefix: Seq<u8>, seg: Seq<u8>, es: Seq<(Seq<Seq<u8>>, Seq<u8>)>)
    ensures
        render_entries(prefix, prefix_entries(seg, es)) == render_entries(
            prefix + seq![crate::slash()] + seg,
            es,
        ),
{
    let child_prefix = prefix + seq![crate::slash()] + seg;
    assert forall|i: int| 0 <= i < es.len() implies render_entries(
        prefix,
        prefix_entries(seg, es),
    )[i] == render_entries(child_prefix, es)[i] by {
        let e = es[i];
        let pe = (seq![seg] + e.0, e.1);
        assert(prefix_entries(seg, es)[i] == pe);
        if e.0.len() == 0 {
            assert(seq![seg] + e.0 =~= seq![seg]);
            assert(slash_join(seq![seg]).len() >= 0);
            assert(seq![seg].drop_first() =~= Seq::<Seq<u8>>::empty());
            assert(slash_join(Seq::<Seq<u8>>::empty()) =~= Seq::<u8>::empty());
            assert(seq![seg][0] == seg);
            assert(slash_join(seq![seg]) =~= seq![crate::slash()] + seg + slash_join(
                seq![seg].drop_first(),
            ));
            assert(slash_join(seq![seg]) =~= seq![crate::slash()] + seg);
            assert(render_path(prefix, seq![seg]) =~= child_prefix);
            assert(child_prefix.len() > 0);
            assert(render_path(child_prefix, e.0) == child_prefix);
        } else {
            assert((seq![seg] + e.0)[0] == seg);
            assert((seq![seg] + e.0).drop_first() =~= e.0);
            assert(render_path(prefix, seq![seg] + e.0) =~= child_prefix + slash_join(e.0));
            assert(render_path(child_prefix, e.0) == child_prefix + slash_join(e.0));
        }
    }
    assert(render_entries(prefix, prefix_entries(seg, es)) =~= render_entries(child_prefix, es));
}

/// Rendering distributes over concatenation of entry runs.
proof fn lemma_render_concat(
    prefix: Seq<u8>,
    a: Seq<(Seq<Seq<u8>>, Seq<u8>)>,
    b: Seq<(Seq<Seq<u8>>, Seq<u8>)>,
)
    ensures
        render_entries(prefix, a + b) == render_entries(prefix, a) + render_entries(prefix, b),
{
    assert(render_entries(prefix, a + b) =~= render_entries(prefix, a) + render_entries(
        prefix,
        b,
    ));
}

/// `prefix/seg` as owned bytes.
fn concat_seg(prefix: &Vec<u8>, seg: &Vec<u8>) -> (v: Vec<u8>)
    ensures
        v@ == prefix@ + seq![crate::slash()] + seg@,
{
    let mut v = crate::path::copy_bytes(prefix.as_slice());
    v.push(47u8);
    let mut i: usize = 0;
    while i < seg.len()
        invariant
            i <= seg@.len(),
            v@ == prefix@ + seq![crate::slash()] + seg@.subrange(0, i as int),
        decreases seg@.len() - i,
    {
        v.push(seg[i]);
        proof {
            assert(v@ =~= prefix@ + seq![crate::slash()] + seg@.subrange(0, i as int + 1));
        }
        i = i + 1;
    }
    proof {
        assert(v@ =~= prefix@ + seq![crate::slash()] + seg@);
    }
    v
}

/// Appends this subtree's entries, paths rendered under `prefix`, to `out`.
fn collect_into(n: &PathNode, prefix: &Vec<u8>, out: &mut Vec<(Vec<u8>, Vec<u8>)>)
    ensures
        pair_views(final(out)@) == pair_views(old(out)@) + render_entries(prefix@, entry_list(*n)),
    decreases *n,
{
    let ghost start = out@;
    match &n.body {
        Some(b) => {
            let full_path = if prefix.len() == 0 {
                let mut fp: Vec<u8> = Vec::new();
                fp.push(47u8);
                proof {
                    assert(fp@ =~= seq![crate::slash()]);
                }
                fp
            } else {
                crate::path::copy_bytes(prefix.as_slice())
            };
            let body = crate::path::copy_bytes(b.as_slice());
            out.push((full_path, body));
            proof {
                assert(pair_views(out@) =~= pair_views(start) + render_entries(
                    prefix@,
                    seq![(Seq::<Seq<u8>>::empty(), b@)],
                ));
            }
        },
        None => {},
    }
    let ghost body_part: Seq<(Seq<Seq<u8>>, Seq<u8>)> = if n.body is Some {
        seq![(Seq::<Seq<u8>>::empty(), n.body->Some_0@)]
    } else {
        seq![]
    };
    proof {
        if n.body is None {
            assert(render_entries(prefix@, body_part) =~= Seq::<(Seq<u8>, Seq<u8>)>::empty());
            assert(pair_views(out@) =~= pair_views(start) + render_entries(prefix@, body_part));
        }
    }
    let ghost cs = n.children@;
    let mut j: usize = 0;
    proof {
        assert(cs.subrange(0, 0) =~= Seq::<(Vec<u8>, PathNode)>::empty());
        assert(entry_list_children(cs.subrange(0, 0)) =~= Seq::<(Seq<Seq<u8>>, Seq<u8>)>::empty());
        assert(render_entries(prefix@, body_part + entry_list_children(cs.subrange(0, 0)))
            =~= render_entries(prefix@, body_part));
    }
    while j < n.children.len()
        invariant
            j <= cs.len(),
            cs == n.children@,
            pair_views(out@) == pair_views(start) + render_entries(
                prefix@,
                body_part + entry_list_children(cs.subrange(0, j as int)),
            ),
        decreases cs.len() - j,
    {
        let pair = &n.children[j];
        let child_prefix = concat_seg(prefix, &pair.0);
        let ghost before = out@;
        collect_into(&pair.1, &child_prefix, out);
        proof {
            let done = cs.subrange(0, j as int);
            let done2 = cs.subrange(0, j as int + 1);
            assert(done2 =~= done.push(cs[j as int]));
            lemma_children_push(done, cs[j as int]);
            lemma_render_prefix(prefix@, cs[j as int].0@, entry_list(cs[j as int].1));
            lemma_render_concat(prefix@, body_part, entry_list_children(done2));
            lemma_render_concat(prefix@, body_part, entry_list_children(done));
            lemma_render_concat(
                prefix@,
                entry_list_children(done),
                prefix_entries(cs[j as int].0@, entry_list(cs[j as int].1)),
            );
            assert(pair_views(out@) =~= pair_views(start) + render_entries(
                prefix@,
                body_part + entry_list_children(done2),
            ));
        }
        j = j + 1;
    }
    proof {
        assert(cs.subrange(0, cs.len() as int) =~= cs);
        assert(entry_list(*n) == body_part + entry_list_children(cs));
    }
}


/// A method has a tree exactly when some endpoint is registered under it.
proof fn lemma_tree_presence(s: EndpointStore, m: HttpMethod)
    requires
        s.wf(),
    ensures
        (tree_of(s, m) is Some) <==> exists|p: Seq<Seq<u8>>| store_lookup(s, m, p) is Some,
{
    if tree_of(s, m) is Some {
        let t = tree_of(s, m)->Some_0;
        assert(node_wf(t) && !node_is_empty(t));
        lemma_nonempty_has_entry(t);
        let p = choose|p: Seq<Seq<u8>>| spec_lookup(t, p) is Some;
        assert(store_lookup(s, m, p) is Some);
    }
}

/// Whether the table holds at least one endpoint under method `m`.
pub open spec fn has_entry_for(v: Map<(HttpMethod, Seq<Seq<u8>>), Seq<u8>>, m: HttpMethod) -> bool {
    exists|p: Seq<Seq<u8>>| v.contains_key((m, p))
}

/// What holds of every listed (method, entries) pair.
spec fn listed_ok(
    s: EndpointStore,
    flt: Option<HttpMethod>,
    e: (HttpMethod, Vec<(Vec<u8>, Vec<u8>)>),
) -> bool {
    &&& tree_of(s, e.0) is Some
    &&& match flt {
        Some(f) => e.0 == f,
        None => true,
    }
    &&& pair_views(e.1@) == s.spec_method_entries(e.0)
}

impl EndpointStore {
    /// The listed (path, body) entries for one method: the method's tree
    /// enumerated depth-first in sorted segment order, paths rendered with a
    /// leading `/` per segment and the root entry as `/`.
    pub closed spec fn spec_method_entries(self, m: HttpMethod) -> Seq<(Seq<u8>, Seq<u8>)> {
        match tree_of(self, m) {
            Some(t) => render_entries(Seq::empty(), entry_list(t)),
            None => Seq::empty(),
        }
    }

    /// Appends `(m, entries of m)` to `out` if `m` matches the filter and has
    /// at least one endpoint.
    fn push_method_entries(
        &self,
        out: &mut Vec<(HttpMethod, Vec<(Vec<u8>, Vec<u8>)>)>,
        m: HttpMethod,
        by_method: Option<&HttpMethod>,
    )
        requires
            self.wf(),
        ensures
            old(out)@.len() <= final(out)@.len() <= old(out)@.len() + 1,
            forall|i: int| 0 <= i < old(out)@.len() ==> #[trigger] final(out)@[i] == old(out)@[i],
            forall|i: int|
                old(out)@.len() <= i < final(out)@.len() ==> listed_ok(
                    *self,
                    match by_method {
                        Some(f) => Some(*f),
                        None => None,
                    },
                    #[trigger] final(out)@[i],
                ) && final(out)@[i].0 == m,
            ((match by_method {
                Some(f) => m == *f,
                None => true,
            }) && tree_of(*self, m) is Some) <==> final(out)@.len() == old(out)@.len() + 1,
    {
        let included = match by_method {
            Some(f) => *f == m,
            None => true,
        };
        if !included {
            return ;
        }
        match self.tree_ref(m) {
            None => {},
            Some(t) => {
                let prefix: Vec<u8> = Vec::new();
                let mut inner: Vec<(Vec<u8>, Vec<u8>)> = Vec::new();
                proof {
                    assert(prefix@ =~= Seq::<u8>::empty());
                    assert(pair_views(inner@) =~= Seq::<(Seq<u8>, Seq<u8>)>::empty());
                }
                collect_into(t, &prefix, &mut inner);
                proof {
                    assert(pair_views(inner@) =~= render_entries(Seq::empty(), entry_list(*t)));
                }
                out.push((m, inner));
            },
        }
    }

    /// Enumerates, in the fixed method order, every method that matches the
    /// filter and has at least one endpoint, with its listed entries.
    pub fn entries(&self, by_method: Option<&HttpMethod>) -> (r: Vec<
        (HttpMethod, Vec<(Vec<u8>, Vec<u8>)>),
    >)
        requires
            self.wf(),
        ensures
            forall|i: int, j: int|
                0 <= i < j < r@.len() ==> crate::command::method_rank(#[trigger] r@[i].0)
                    < crate::command::method_rank(#[trigger] r@[j].0),
            forall|i: int|
                0 <= i < r@.len() ==> (match by_method {
                    Some(f) => (#[trigger] r@[i].0) == *f,
                    None => true,
                }),
            forall|i: int| 0 <= i < r@.len() ==> has_entry_for(self@, #[trigger] r@[i].0),
            forall|i: int|
                0 <= i < r@.len() ==> pair_views(#[trigger] r@[i].1@) == self.spec_method_entries(
                    r@[i].0,
                ),
            forall|m: HttpMethod|
                #![trigger has_entry_for(self@, m)]
                ((match by_method {
                    Some(f) => m == *f,
                    None => true,
                }) && has_entry_for(self@, m)) ==> exists|i: int|
                    0 <= i < r@.len() && (#[trigger] r@[i].0) == m,
    {
        let ghost flt: Option<HttpMethod> = match by_method {
            Some(f) => Some(*f),
            None => None,
        };
        let mut r: Vec<(HttpMethod, Vec<(Vec<u8>, Vec<u8>)>)> = Vec::new();
        let ghost n0 = r@.len() as int;
        self.push_method_entries(&mut r, HttpMethod::Get, by_method);
        let ghost s1 = r@;
        let ghost n1 = r@.len() as int;
        self.push_method_entries(&mut r, HttpMethod::Post, by_method);
        let ghost s2 = r@;
        let ghost n2 = r@.len() as int;
        self.push_method_entries(&mut r, HttpMethod::Put, by_method);
        let ghost s3 = r@;
        let ghost n3 = r@.len() as int;
        self.push_method_entries(&mut r, HttpMethod::Patch, by_method);
        let ghost s4 = r@;
        let ghost n4 = r@.len() as int;
        self.push_method_entries(&mut r, HttpMethod::Delete, by_method);
        let ghost s5 = r@;
        let ghost n5 = r@.len() as int;
        proof {
            assert forall|i: int| 0 <= i < n5 implies listed_ok(*self, flt, #[trigger] s5[i]) && (
            if i < n1 {
                s5[i].0 == HttpMethod::Get
            } else if i < n2 {
                s5[i].0 == HttpMethod::Post
            } else if i < n3 {
                s5[i].0 == HttpMethod::Put
            } else if i < n4 {
                s5[i].0 == HttpMethod::Patch
            } else {
                s5[i].0 == HttpMethod::Delete
            }) by {
                if i < n1 {
                    assert(s5[i] == s4[i] && s4[i] == s3[i] && s3[i] == s2[i] && s2[i] == s1[i]);
                } else if i < n2 {
                    assert(s5[i] == s4[i] && s4[i] == s3[i] && s3[i] == s2[i]);
                } else if i < n3 {
                    assert(s5[i] == s4[i] && s4[i] == s3[i]);
                } else if i < n4 {
                    assert(s5[i] == s4[i]);
                }
            }
            assert forall|i: int, j: int| 0 <= i < j < r@.len() implies crate::command::method_rank(
                #[trigger] r@[i].0,
            ) < crate::command::method_rank(#[trigger] r@[j].0) by {
                assert(listed_ok(*self, flt, s5[i]) && listed_ok(*self, flt, s5[j]));
            }
            assert forall|i: int| 0 <= i < r@.len() implies has_entry_for(
                self@,
                #[trigger] r@[i].0,
            ) by {
                assert(listed_ok(*self, flt, s5[i]));
                lemma_tree_presence(*self, r@[i].0);
                let p = choose|p: Seq<Seq<u8>>| store_lookup(*self, r@[i].0, p) is Some;
                assert(self@.contains_key((r@[i].0, p)));
            }
            assert forall|i: int| 0 <= i < r@.len() implies pair_views(#[trigger] r@[i].1@)
                == self.spec_method_entries(r@[i].0) by {
                assert(listed_ok(*self, flt, s5[i]));
            }
            assert forall|m: HttpMethod|
                #![trigger has_entry_for(self@, m)]
                ((match by_method {
                    Some(f) => m == *f,
                    None => true,
                }) && has_entry_for(self@, m)) implies exists|i: int|
                0 <= i < r@.len() && (#[trigger] r@[i].0) == m by {
                let p0 = choose|p: Seq<Seq<u8>>| self@.contains_key((m, p));
                assert(store_lookup(*self, m, p0) is Some);
                lemma_tree_presence(*self, m);
                assert(tree_of(*self, m) is Some);
                if m == HttpMethod::Get {
                    assert(s5[n0] == s1[n0]);
                    assert(r@[n0].0 == m);
                } else if m == HttpMethod::Post {
                    assert(s5[n1] == s2[n1]);
                    assert(r@[n1].0 == m);
                } else if m == HttpMethod::Put {
                    assert(s5[n2] == s3[n2]);
                    assert(r@[n2].0 == m);
                } else if m == HttpMethod::Patch {
                    assert(s5[n3] == s4[n3]);
                    assert(r@[n3].0 == m);
                } else {
                    assert(r@[n4].0 == m);
                }
            }
        }
        r
    }
}


/// Strict order on segment lists: a strict prefix comes first, otherwise
/// the first differing segment decides lexicographically.
pub open spec fn path_lt(a: Seq<Seq<u8>>, b: Seq<Seq<u8>>) -> bool
    decreases a.len(),
{
    if a.len() == 0 {
        b.len() > 0
    } else if b.len() == 0 {
        false
    } else if a[0] == b[0] {
        path_lt(a.drop_first(), b.drop_first())
    } else {
        lex_lt(a[0], b[0])
    }
}

proof fn lemma_children_entries_order(cs: Seq<(Vec<u8>, PathNode)>)
    requires
        keys_sorted(cs),
        forall|i: int| 0 <= i < cs.len() ==> node_wf(#[trigger] cs[i].1),
    ensures
        forall|k1: int, k2: int|
            0 <= k1 < k2 < entry_list_children(cs).len() ==> path_lt(
                #[trigger] entry_list_children(cs)[k1].0,
                #[trigger] entry_list_children(cs)[k2].0,
            ),
        forall|k: int|
            0 <= k < entry_list_children(cs).len() ==> (#[trigger] entry_list_children(
                cs,
            )[k].0).len() > 0 && exists|i: int|
                0 <= i < cs.len() && entry_list_children(cs)[k].0[0] == cs[i].0@,
    decreases cs,
{
    if cs.len() == 0 {
    } else {
        let k0 = cs[0].0@;
        let el0 = entry_list(cs[0].1);
        let block0 = prefix_entries(k0, el0);
        let rest_cs = cs.drop_first();
        let rest = entry_list_children(rest_cs);
        let whole = entry_list_children(cs);
        lemma_entry_list_order(cs[0].1);
        assert(forall|i: int| 0 <= i < rest_cs.len() ==> rest_cs[i] == cs[i + 1]);
        assert(keys_sorted(rest_cs)) by {
            assert forall|i1: int, i2: int| 0 <= i1 < i2 < rest_cs.len() implies lex_lt(
                #[trigger] rest_cs[i1].0@,
                #[trigger] rest_cs[i2].0@,
            ) by {
                assert(lex_lt(cs[i1 + 1].0@, cs[i2 + 1].0@));
            }
        }
        assert forall|i: int| 0 <= i < rest_cs.len() implies node_wf(#[trigger] rest_cs[i].1) by {
            assert(rest_cs[i] == cs[i + 1]);
        }
        lemma_children_entries_order(rest_cs);
        assert(whole == block0 + rest);
        assert forall|k: int| 0 <= k < block0.len() implies (#[trigger] block0[k].0).len() > 0
            && block0[k].0[0] == k0 by {
            assert(block0[k] == (seq![k0] + el0[k].0, el0[k].1));
            assert((seq![k0] + el0[k].0)[0] == k0);
        }
        assert forall|k1: int, k2: int| 0 <= k1 < k2 < block0.len() implies path_lt(
            #[trigger] block0[k1].0,
            #[trigger] block0[k2].0,
        ) by {
            assert(path_lt(el0[k1].0, el0[k2].0));
            assert(block0[k1].0 == seq![k0] + el0[k1].0);
            assert(block0[k2].0 == seq![k0] + el0[k2].0);
            assert((seq![k0] + el0[k1].0)[0] == k0);
            assert((seq![k0] + el0[k2].0)[0] == k0);
            assert((seq![k0] + el0[k1].0).drop_first() =~= el0[k1].0);
            assert((seq![k0] + el0[k2].0).drop_first() =~= el0[k2].0);
        }
        assert forall|k: int| 0 <= k < whole.len() implies (#[trigger] whole[k].0).len() > 0
            && exists|i: int| 0 <= i < cs.len() && whole[k].0[0] == cs[i].0@ by {
            if k < block0.len() {
                assert(whole[k] == block0[k]);
                assert(whole[k].0[0] == cs[0].0@);
            } else {
                assert(whole[k] == rest[k - block0.len()]);
                let i0 = choose|i: int|
                    0 <= i < rest_cs.len() && rest[k - block0.len()].0[0] == rest_cs[i].0@;
                assert(rest_cs[i0] == cs[i0 + 1]);
                assert(whole[k].0[0] == cs[i0 + 1].0@);
            }
        }
        assert forall|k1: int, k2: int| 0 <= k1 < k2 < whole.len() implies path_lt(
            #[trigger] whole[k1].0,
            #[trigger] whole[k2].0,
        ) by {
            if k2 < block0.len() {
                assert(whole[k1] == block0[k1] && whole[k2] == block0[k2]);
            } else if k1 >= block0.len() {
                assert(whole[k1] == rest[k1 - block0.len()] && whole[k2] == rest[k2
                    - block0.len()]);
            } else {
                assert(whole[k1] == block0[k1]);
                assert(whole[k2] == rest[k2 - block0.len()]);
                assert(whole[k1].0[0] == k0);
                let i0 = choose|i: int|
                    0 <= i < rest_cs.len() && rest[k2 - block0.len()].0[0] == rest_cs[i].0@;
                assert(rest_cs[i0] == cs[i0 + 1]);
                assert(lex_lt(cs[0].0@, cs[i0 + 1].0@));
                if whole[k1].0[0] == whole[k2].0[0] {
                    lemma_lex_irrefl(k0);
                }
            }
        }
    }
}

proof fn lemma_entry_list_order(n: PathNode)
    requires
        node_wf(n),
    ensures
        forall|k1: int, k2: int|
            0 <= k1 < k2 < entry_list(n).len() ==> path_lt(
                #[trigger] entry_list(n)[k1].0,
                #[trigger] entry_list(n)[k2].0,
            ),
    decreases n,
{
    let ch = entry_list_children(n.children@);
    lemma_children_entries_order(n.children@);
    let bp: Seq<(Seq<Seq<u8>>, Seq<u8>)> = if n.body is Some {
        seq![(Seq::<Seq<u8>>::empty(), n.body->Some_0@)]
    } else {
        seq![]
    };
    assert(entry_list(n) == bp + ch);
    assert forall|k1: int, k2: int| 0 <= k1 < k2 < entry_list(n).len() implies path_lt(
        #[trigger] entry_list(n)[k1].0,
        #[trigger] entry_list(n)[k2].0,
    ) by {
        if k1 >= bp.len() {
            assert(entry_list(n)[k1] == ch[k1 - bp.len()]);
            assert(entry_list(n)[k2] == ch[k2 - bp.len()]);
        } else {
            assert(entry_list(n)[k1] == bp[0]);
            assert(entry_list(n)[k1].0.len() == 0);
            assert(entry_list(n)[k2] == ch[k2 - bp.len()]);
            assert(entry_list(n)[k2].0.len() > 0);
        }
    }
}

impl EndpointStore {
    /// The segment lists of one method's enumeration, in listing order.
    pub closed spec fn entry_paths(self, m: HttpMethod) -> Seq<Seq<Seq<u8>>> {
        match tree_of(self, m) {
            Some(t) => entry_list(t).map_values(|e: (Seq<Seq<u8>>, Seq<u8>)| e.0),
            None => Seq::empty(),
        }
    }
}

/// Law: enumeration order is deterministic. Within a method the listed
/// entries ascend strictly in path order (a prefix before its extensions,
/// otherwise the first differing segment decides lexicographically), and
/// each listed path is its segment list rendered with `/`.
pub proof fn lemma_listing_order(s: EndpointStore, m: HttpMethod)
    requires
        s.wf(),
    ensures
        s.spec_method_entries(m).len() == s.entry_paths(m).len(),
        forall|k: int|
            0 <= k < s.entry_paths(m).len() ==> #[trigger] s.spec_method_entries(m)[k].0
                == render_path(Seq::empty(), s.entry_paths(m)[k]),
        forall|k1: int, k2: int|
            0 <= k1 < k2 < s.entry_paths(m).len() ==> path_lt(
                #[trigger] s.entry_paths(m)[k1],
                #[trigger] s.entry_paths(m)[k2],
            ),
{
    match tree_of(s, m) {
        Some(t) => {
            assert(node_wf(t));
            lemma_entry_list_order(t);
        },
        None => {},
    }
}


proof fn lemma_children_entries_lookup(cs: Seq<(Vec<u8>, PathNode)>)
    requires
        keys_sorted(cs),
        forall|i: int| 0 <= i < cs.len() ==> node_wf(#[trigger] cs[i].1),
    ensures
        forall|k: int|
            0 <= k < entry_list_children(cs).len() ==> (#[trigger] entry_list_children(
                cs,
            )[k].0).len() > 0 && exists|i: int|
                0 <= i < cs.len() && entry_list_children(cs)[k].0[0] == cs[i].0@ && spec_lookup(
                    cs[i].1,
                    entry_list_children(cs)[k].0.drop_first(),
                ) == Some(entry_list_children(cs)[k].1),
    decreases cs,
{
    if cs.len() > 0 {
        let k0 = cs[0].0@;
        let el0 = entry_list(cs[0].1);
        let block0 = prefix_entries(k0, el0);
        let rest_cs = cs.drop_first();
        let rest = entry_list_children(rest_cs);
        let whole = entry_list_children(cs);
        lemma_entry_list_lookup(cs[0].1);
        assert(forall|i: int| 0 <= i < rest_cs.len() ==> rest_cs[i] == cs[i + 1]);
        assert(keys_sorted(rest_cs)) by {
            assert forall|i1: int, i2: int| 0 <= i1 < i2 < rest_cs.len() implies lex_lt(
                #[trigger] rest_cs[i1].0@,
                #[trigger] rest_cs[i2].0@,
            ) by {
                assert(lex_lt(cs[i1 + 1].0@, cs[i2 + 1].0@));
            }
        }
        assert forall|i: int| 0 <= i < rest_cs.len() implies node_wf(#[trigger] rest_cs[i].1) by {
            assert(rest_cs[i] == cs[i + 1]);
        }
        lemma_children_entries_lookup(rest_cs);
        assert(whole == block0 + rest);
        assert forall|k: int| 0 <= k < whole.len() implies (#[trigger] whole[k].0).len() > 0
            && exists|i: int|
            0 <= i < cs.len() && whole[k].0[0] == cs[i].0@ && spec_lookup(
                cs[i].1,
                whole[k].0.drop_first(),
            ) == Some(whole[k].1) by {
            if k < block0.len() {
                assert(whole[k] == block0[k]);
                assert(block0[k] == (seq![k0] + el0[k].0, el0[k].1));
                assert((seq![k0] + el0[k].0)[0] == k0);
                assert((seq![k0] + el0[k].0).drop_first() =~= el0[k].0);
                assert(spec_lookup(cs[0].1, whole[k].0.drop_first()) == Some(whole[k].1));
                assert(0 <= 0 < cs.len() && whole[k].0[0] == cs[0].0@ && spec_lookup(
                    cs[0].1,
                    whole[k].0.drop_first(),
                ) == Some(whole[k].1));
            } else {
                assert(whole[k] == rest[k - block0.len()]);
                let i0 = choose|i: int|
                    0 <= i < rest_cs.len() && rest[k - block0.len()].0[0] == rest_cs[i].0@
                        && spec_lookup(
                        rest_cs[i].1,
                        rest[k - block0.len()].0.drop_first(),
                    ) == Some(rest[k - block0.len()].1);
                assert(rest_cs[i0] == cs[i0 + 1]);
                assert(0 <= i0 + 1 < cs.len() && whole[k].0[0] == cs[i0 + 1].0@ && spec_lookup(
                    cs[i0 + 1].1,
                    whole[k].0.drop_first(),
                ) == Some(whole[k].1));
            }
        }
    }
}

proof fn lemma_entry_list_lookup(n: PathNode)
    requires
        node_wf(n),
    ensures
        forall|k: int|
            0 <= k < entry_list(n).len() ==> spec_lookup(n, (#[trigger] entry_list(n)[k]).0)
                == Some(entry_list(n)[k].1),
    decreases n,
{
    let cs = n.children@;
    let ch = entry_list_children(cs);
    lemma_children_entries_lookup(cs);
    lemma_sorted_distinct(cs);
    let bp: Seq<(Seq<Seq<u8>>, Seq<u8>)> = if n.body is Some {
        seq![(Seq::<Seq<u8>>::empty(), n.body->Some_0@)]
    } else {
        seq![]
    };
    assert(entry_list(n) == bp + ch);
    assert forall|k: int| 0 <= k < entry_list(n).len() implies spec_lookup(
        n,
        (#[trigger] entry_list(n)[k]).0,
    ) == Some(entry_list(n)[k].1) by {
        if k < bp.len() {
            assert(entry_list(n)[k] == bp[0]);
            assert(entry_list(n)[k].0.len() == 0);
        } else {
            let e = ch[k - bp.len()];
            assert(entry_list(n)[k] == e);
            let i0 = choose|i: int|
                0 <= i < cs.len() && e.0[0] == cs[i].0@ && spec_lookup(cs[i].1, e.0.drop_first())
                    == Some(e.1);
            assert forall|i2: int| 0 <= i2 < i0 implies (#[trigger] cs[i2].0@) != cs[i0].0@ by {
                assert(cs[i2].0@ != cs[i0].0@);
            }
            lemma_find_at(cs, i0);
            assert(assoc_find(cs, e.0[0]) == Some(cs[i0].1));
            assert(spec_lookup(n, e.0) == spec_lookup(cs[i0].1, e.0.drop_first()));
        }
    }
}

/// Law: the listing is truthful. Every listed entry is registered in the
/// table under its method and segment list, with exactly the listed body.
pub proof fn lemma_listing_registered(s: EndpointStore, m: HttpMethod)
    requires
        s.wf(),
    ensures
        s.spec_method_entries(m).len() == s.entry_paths(m).len(),
        forall|k: int|
            0 <= k < s.entry_paths(m).len() ==> s@.contains_key(
                (m, #[trigger] s.entry_paths(m)[k]),
            ) && s@[(m, s.entry_paths(m)[k])] == s.spec_method_entries(m)[k].1,
{
    match tree_of(s, m) {
        Some(t) => {
            assert(node_wf(t));
            lemma_entry_list_lookup(t);
            assert forall|k: int| 0 <= k < s.entry_paths(m).len() implies s@.contains_key(
                (m, #[trigger] s.entry_paths(m)[k]),
            ) && s@[(m, s.entry_paths(m)[k])] == s.spec_method_entries(m)[k].1 by {
                assert(s.entry_paths(m)[k] == entry_list(t)[k].0);
                assert(spec_lookup(t, entry_list(t)[k].0) == Some(entry_list(t)[k].1));
                assert(store_lookup(s, m, s.entry_paths(m)[k]) is Some);
            }
        },
        None => {},
    }
}


proof fn lemma_children_entries_complete(
    cs: Seq<(Vec<u8>, PathNode)>,
    seg: Seq<u8>,
    c: PathNode,
    q: Seq<Seq<u8>>,
    val: Seq<u8>,
)
    requires
        assoc_find(cs, seg) == Some(c),
        entry_list(c).contains((q, val)),
    ensures
        entry_list_children(cs).contains((seq![seg] + q, val)),
    decreases cs.len(),
{
    let block0 = prefix_entries(cs[0].0@, entry_list(cs[0].1));
    let rest = entry_list_children(cs.drop_first());
    let whole = entry_list_children(cs);
    assert(whole == block0 + rest);
    if cs[0].0@ == seg {
        assert(c == cs[0].1);
        let k = choose|k: int| 0 <= k < entry_list(c).len() && entry_list(c)[k] == (q, val);
        assert(block0[k] == (seq![seg] + q, val));
        assert(whole[k] == block0[k]);
        assert(whole.contains((seq![seg] + q, val)));
    } else {
        lemma_children_entries_complete(cs.drop_first(), seg, c, q, val);
        let k = choose|k: int| 0 <= k < rest.len() && rest[k] == (seq![seg] + q, val);
        assert(whole[block0.len() + k] == rest[k]);
        assert(whole.contains((seq![seg] + q, val)));
    }
}

proof fn lemma_entry_list_complete(n: PathNode, p: Seq<Seq<u8>>)
    requires
        spec_lookup(n, p) is Some,
    ensures
        entry_list(n).contains((p, spec_lookup(n, p)->Some_0)),
    decreases p.len(),
{
    let val = spec_lookup(n, p)->Some_0;
    let cs = n.children@;
    let ch = entry_list_children(cs);
    let bp: Seq<(Seq<Seq<u8>>, Seq<u8>)> = if n.body is Some {
        seq![(Seq::<Seq<u8>>::empty(), n.body->Some_0@)]
    } else {
        seq![]
    };
    assert(entry_list(n) == bp + ch);
    if p.len() == 0 {
        assert(p =~= Seq::<Seq<u8>>::empty());
        assert(entry_list(n)[0] == (p, val));
        assert(entry_list(n).contains((p, val)));
    } else {
        let c = assoc_find(cs, p[0])->Some_0;
        assert(spec_lookup(c, p.drop_first()) == Some(val));
        lemma_entry_list_complete(c, p.drop_first());
        lemma_children_entries_complete(cs, p[0], c, p.drop_first(), val);
        assert(seq![p[0]] + p.drop_first() =~= p);
        let k = choose|k: int| 0 <= k < ch.len() && ch[k] == (p, val);
        assert(entry_list(n)[bp.len() + k] == ch[k]);
        assert(entry_list(n).contains((p, val)));
    }
}

/// Law: the listing is exhaustive. Every entry registered in the table is
/// listed for its method, under its segment list and with its body.
pub proof fn lemma_registered_is_listed(s: EndpointStore, m: HttpMethod, p: Seq<Seq<u8>>)
    requires
        s.wf(),
        s@.contains_key((m, p)),
    ensures
        exists|k: int|
            0 <= k < s.entry_paths(m).len() && #[trigger] s.entry_paths(m)[k] == p
                && s.spec_method_entries(m)[k].1 == s@[(m, p)],
{
    assert(store_lookup(s, m, p) is Some);
    let t = tree_of(s, m)->Some_0;
    lemma_entry_list_complete(t, p);
    let k = choose|k: int|
        0 <= k < entry_list(t).len() && entry_list(t)[k] == (p, spec_lookup(t, p)->Some_0);
    assert(s.entry_paths(m)[k] == p);
    assert(s.spec_method_entries(m)[k].1 == s@[(m, p)]);
}

} // verus!

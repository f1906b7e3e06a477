//! The table's laws, each stated over the abstract view that the store's
//! contracts use: a map from (method, normalized path) to body.

use crate::command::HttpMethod;
use crate::endpoint::has_entry_for;
use crate::path::spec_segments;
use vstd::prelude::*;

verus! {

/// The table as the contracts see it.
pub type TableView = Map<(HttpMethod, Seq<Seq<u8>>), Seq<u8>>;

/// Law: path identity is normalization. Registering under one spelling of a
/// path and looking up under any spelling with the same segments yields the
/// registered body.
pub proof fn lemma_normalized_paths_agree(
    v0: TableView,
    v1: TableView,
    m: HttpMethod,
    p1: Seq<u8>,
    p2: Seq<u8>,
    b: Seq<u8>,
)
    requires
        spec_segments(p1) == spec_segments(p2),
        v1 == v0.insert((m, spec_segments(p1)), b),
    ensures
        v1.contains_key((m, spec_segments(p2))),
        v1[(m, spec_segments(p2))] == b,
{
}

/// Law: the root path `/` has no segments.
pub proof fn lemma_root_path_normal()
    ensures
        spec_segments(seq![47u8]) == Seq::<Seq<u8>>::empty(),
{
    let s: Seq<u8> = seq![47u8];
    assert(s.drop_first() =~= Seq::<u8>::empty());
    assert(crate::path::seg_split(Seq::<u8>::empty(), Seq::<u8>::empty()) =~= Seq::<
        Seq<u8>,
    >::empty());
    assert(spec_segments(s) =~= Seq::<Seq<u8>>::empty());
}

/// Law: entries under distinct methods are independent; deleting under one
/// method leaves every entry of any other method intact.
pub proof fn lemma_methods_independent(
    v0: TableView,
    v1: TableView,
    m1: HttpMethod,
    m2: HttpMethod,
    p1: Seq<Seq<u8>>,
    p2: Seq<Seq<u8>>,
)
    requires
        m1 != m2,
        v1 == v0.remove((m1, p1)),
    ensures
        v1.contains_key((m2, p2)) == v0.contains_key((m2, p2)),
        v0.contains_key((m2, p2)) ==> v1[(m2, p2)] == v0[(m2, p2)],
{
}

/// Law: deleting one path leaves every sibling entry intact.
pub proof fn lemma_delete_preserves_siblings(
    v0: TableView,
    v1: TableView,
    m: HttpMethod,
    p1: Seq<Seq<u8>>,
    p2: Seq<Seq<u8>>,
)
    requires
        p1 != p2,
        v1 == v0.remove((m, p1)),
    ensures
        v1.contains_key((m, p2)) == v0.contains_key((m, p2)),
        v0.contains_key((m, p2)) ==> v1[(m, p2)] == v0[(m, p2)],
{
}

/// Law: matching is exact, never by prefix. Registering a path makes no
/// strict prefix of it visible.
pub proof fn lemma_no_prefix_match(
    v0: TableView,
    v1: TableView,
    m: HttpMethod,
    p_long: Seq<Seq<u8>>,
    p_short: Seq<Seq<u8>>,
    b: Seq<u8>,
)
    requires
        p_short.len() < p_long.len(),
        p_short == p_long.subrange(0, p_short.len() as int),
        !v0.contains_key((m, p_short)),
        v1 == v0.insert((m, p_long), b),
    ensures
        !v1.contains_key((m, p_short)),
{
    assert(p_short != p_long);
}

/// Law: deleting the only entry leaves the table empty, with no method
/// listed by enumeration.
pub proof fn lemma_delete_last_empties(
    v0: TableView,
    v1: TableView,
    k: (HttpMethod, Seq<Seq<u8>>),
)
    requires
        v0.dom() == set![k],
        v1 == v0.remove(k),
    ensures
        v1 == Map::<(HttpMethod, Seq<Seq<u8>>), Seq<u8>>::empty(),
        forall|m: HttpMethod| !has_entry_for(v1, m),
{
    assert forall|k2: (HttpMethod, Seq<Seq<u8>>)| !v1.contains_key(k2) by {
        if v1.contains_key(k2) {
            assert(v0.dom().contains(k2));
            assert(set![k].contains(k2));
        }
    }
    assert(v1 =~= Map::<(HttpMethod, Seq<Seq<u8>>), Seq<u8>>::empty());
    assert forall|m: HttpMethod| !has_entry_for(v1, m) by {
        if has_entry_for(v1, m) {
            let p = choose|p: Seq<Seq<u8>>| v1.contains_key((m, p));
            assert(v1.contains_key((m, p)));
        }
    }
}

/// Law: deleting an unregistered path changes nothing; the table, and hence
/// its enumeration, is exactly what it was.
pub proof fn lemma_delete_missing_is_noop(v0: TableView, k: (HttpMethod, Seq<Seq<u8>>))
    requires
        !v0.contains_key(k),
    ensures
        v0.remove(k) == v0,
{
    assert(v0.remove(k) =~= v0);
}

/// Law: the root entry and a single-segment entry never collide; after
/// registering both, each is lookupable with its own body.
pub proof fn lemma_root_independent(
    v0: TableView,
    v1: TableView,
    v2: TableView,
    m: HttpMethod,
    s: Seq<u8>,
    b_root: Seq<u8>,
    b_seg: Seq<u8>,
)
    requires
        v1 == v0.insert((m, Seq::empty()), b_root),
        v2 == v1.insert((m, seq![s]), b_seg),
    ensures
        v2.contains_key((m, Seq::empty())) && v2[(m, Seq::empty())] == b_root,
        v2.contains_key((m, seq![s])) && v2[(m, seq![s])] == b_seg,
{
    assert(seq![s].len() == 1);
    assert(Seq::<Seq<u8>>::empty().len() == 0);
    assert(seq![s] != Seq::<Seq<u8>>::empty());
}


} // verus!

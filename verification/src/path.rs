//! Path normalization: a path is split on `/` into its non-empty segments,
//! so `users`, `/users` and `/users/` all denote the same one-segment path,
//! and `/` (or the empty string) denotes the zero-segment root path.

use crate::slash;
use vstd::prelude::*;

verus! {

/// The segments of `s` given that the bytes of an unfinished segment `cur`
/// have already been read.
pub open spec fn seg_split(s: Seq<u8>, cur: Seq<u8>) -> Seq<Seq<u8>>
    decreases s.len(),
{
    if s.len() == 0 {
        if cur.len() > 0 {
            seq![cur]
        } else {
            seq![]
        }
    } else if s[0] == slash() {
        (if cur.len() > 0 {
            seq![cur]
        } else {
            seq![]
        }) + seg_split(s.drop_first(), seq![])
    } else {
        seg_split(s.drop_first(), cur.push(s[0]))
    }
}

/// The normalized form of a path: its maximal runs of non-`/` bytes.
pub open spec fn spec_segments(s: Seq<u8>) -> Seq<Seq<u8>> {
    seg_split(s, seq![])
}

/// The views of a vector of byte vectors, as a sequence of byte sequences.
pub open spec fn views_of(s: Seq<Vec<u8>>) -> Seq<Seq<u8>> {
    s.map_values(|v: Vec<u8>| v@)
}

/// Every segment that normalization produces is non-empty.
pub proof fn lemma_seg_split_nonempty(s: Seq<u8>, cur: Seq<u8>)
    ensures
        forall|k: int|
            0 <= k < seg_split(s, cur).len() ==> #[trigger] seg_split(s, cur)[k].len() > 0,
    decreases s.len(),
{
    if s.len() == 0 {
    } else if s[0] == slash() {
        lemma_seg_split_nonempty(s.drop_first(), seq![]);
        let pre: Seq<Seq<u8>> = if cur.len() > 0 {
            seq![cur]
        } else {
            seq![]
        };
        assert forall|k: int| 0 <= k < seg_split(s, cur).len() implies #[trigger] seg_split(
            s,
            cur,
        )[k].len() > 0 by {
            if k >= pre.len() {
                assert(seg_split(s, cur)[k] == seg_split(s.drop_first(), seq![])[k - pre.len()]);
            }
        }
    } else {
        lemma_seg_split_nonempty(s.drop_first(), cur.push(s[0]));
        assert forall|k: int| 0 <= k < seg_split(s, cur).len() implies #[trigger] seg_split(
            s,
            cur,
        )[k].len() > 0 by {
            assert(seg_split(s, cur)[k] == seg_split(s.drop_first(), cur.push(s[0]))[k]);
        }
    }
}

/// Copies a byte slice into an owned vector.
pub fn copy_bytes(s: &[u8]) -> (v: Vec<u8>)
    ensures
        v@ == s@,
{
    let mut v: Vec<u8> = Vec::new();
    let mut i: usize = 0;
    while i < s.len()
        invariant
            i <= s@.len(),
            v@ == s@.subrange(0, i as int),
        decreases s@.len() - i,
    {
        v.push(s[i]);
        proof {
            assert(v@ =~= s@.subrange(0, i as int + 1));
        }
        i = i + 1;
    }
    proof {
        assert(v@ =~= s@);
    }
    v
}

/// Splits `path` into its non-empty segments, in order.
pub fn normalize(path: &[u8]) -> (segs: Vec<Vec<u8>>)
    ensures
        views_of(segs@) == spec_segments(path@),
        forall|k: int| 0 <= k < segs@.len() ==> #[trigger] segs@[k]@.len() > 0,
{
    let mut out: Vec<Vec<u8>> = Vec::new();
    let mut cur: Vec<u8> = Vec::new();
    let mut i: usize = 0;
    proof {
        assert(path@.skip(0) =~= path@);
        assert(cur@ =~= Seq::<u8>::empty());
        assert(views_of(out@) + seg_split(path@, cur@) =~= seg_split(path@, seq![]));
    }
    while i < path.len()
        invariant
            i <= path@.len(),
            spec_segments(path@) == views_of(out@) + seg_split(path@.skip(i as int), cur@),
            forall|k: int| 0 <= k < out@.len() ==> #[trigger] out@[k]@.len() > 0,
        decreases path@.len() - i,
    {
        let ghost rest = path@.skip(i as int);
        proof {
            assert(rest[0] == path@[i as int]);
            assert(rest.drop_first() =~= path@.skip(i as int + 1));
        }
        if path[i] == 47u8 {
            proof {
                assert(seg_split(rest, cur@) == (if cur@.len() > 0 {
                    seq![cur@]
                } else {
                    seq![]
                }) + seg_split(path@.skip(i as int + 1), seq![]));
            }
            if cur.len() > 0 {
                let ghost old_out = out@;
                let ghost old_cur = cur@;
                out.push(cur);
                cur = Vec::new();
                proof {
                    assert(cur@ =~= Seq::<u8>::empty());
                    assert(views_of(out@) =~= views_of(old_out).push(old_cur));
                    assert(views_of(out@) + seg_split(path@.skip(i as int + 1), cur@)
                        =~= views_of(old_out) + (seq![old_cur] + seg_split(
                        path@.skip(i as int + 1),
                        seq![],
                    )));
                }
            } else {
                proof {
                    assert(cur@ =~= Seq::<u8>::empty());
                    assert(seg_split(rest, cur@) =~= seg_split(path@.skip(i as int + 1), cur@));
                }
            }
        } else {
            cur.push(path[i]);
        }
        i = i + 1;
    }
    proof {
        assert(path@.skip(i as int) =~= Seq::<u8>::empty());
    }
    if cur.len() > 0 {
        let ghost old_out = out@;
        let ghost old_cur = cur@;
        out.push(cur);
        proof {
            assert(views_of(out@) =~= views_of(old_out).push(old_cur));
            assert(views_of(out@) =~= views_of(old_out) + seq![old_cur]);
        }
    } else {
        proof {
            assert(views_of(out@) + seg_split(path@.skip(i as int), cur@) =~= views_of(out@));
        }
    }
    out
}

} // verus!

//! The bound-watch index: per-variable, threshold-sorted watcher storage.
//!
//! Each variable owns two independent bucket arrays, one per relation, kept
//! sorted by strictly increasing threshold. A bucket holds the watchers
//! registered under one exact literal, in registration order.
//!
//! Query order is deterministic and documented here once and for all: a `<=`
//! query walks the entailed thresholds in ascending order (from the query
//! threshold outward), a `>=` query walks them in descending order (again
//! outward), and within one bucket watchers come out in registration order.

use vstd::prelude::*;

use crate::lit::Lit;
use crate::lit::Rel;
use crate::lit::lit_entails;

verus! {

/// All watchers registered under one exact literal, in registration order.
struct Bucket<W> {
    threshold: i64,
    watchers: Vec<W>,
}

/// The two independent polarity orderings of one variable.
struct VarWatches<W> {
    on_leq: Vec<Bucket<W>>,
    on_geq: Vec<Bucket<W>>,
}

/// The bound-watch index. It maps bound literals to the watchers registered
/// under them and answers, for a literal that has just become true, every
/// watcher whose literal it entails.
///
/// The index is constructed empty, grows monotonically under
/// [`Watches::add_watch`], and is read by [`Watches::watches_on`]; no
/// operation fails.
pub struct Watches<W> {
    vars: Vec<VarWatches<W>>,
}

/// Thresholds strictly increase along a bucket array.
spec fn buckets_sorted<W>(bs: Seq<Bucket<W>>) -> bool {
    forall|i: int, j: int| 0 <= i < j < bs.len() ==> bs[i].threshold < bs[j].threshold
}

/// The watchers of the bucket with threshold `t`, or the empty sequence if no
/// bucket has it.
spec fn bucket_lookup<W>(bs: Seq<Bucket<W>>, t: int) -> Seq<W>
    decreases bs.len(),
{
    if bs.len() == 0 {
        Seq::empty()
    } else if bs.first().threshold as int == t {
        bs.first().watchers@
    } else {
        bucket_lookup(bs.drop_first(), t)
    }
}

/// What one bucket contributes to a `<=` query with threshold `t`.
spec fn up_part<W>(b: Bucket<W>, t: int) -> Seq<W> {
    if b.threshold as int >= t {
        b.watchers@
    } else {
        Seq::empty()
    }
}

/// What one bucket contributes to a `>=` query with threshold `t`.
spec fn down_part<W>(b: Bucket<W>, t: int) -> Seq<W> {
    if b.threshold as int <= t {
        b.watchers@
    } else {
        Seq::empty()
    }
}

/// The result of a `<=` query: the entailed buckets in ascending threshold
/// order (thresholds at least `t`, walked front to back).
spec fn entailed_up<W>(bs: Seq<Bucket<W>>, t: int) -> Seq<W>
    decreases bs.len(),
{
    if bs.len() == 0 {
        Seq::empty()
    } else {
        up_part(bs.first(), t) + entailed_up(bs.drop_first(), t)
    }
}

/// The result of a `>=` query: the entailed buckets in descending threshold
/// order (thresholds at most `t`, walked back to front).
spec fn entailed_down<W>(bs: Seq<Bucket<W>>, t: int) -> Seq<W>
    decreases bs.len(),
{
    if bs.len() == 0 {
        Seq::empty()
    } else {
        down_part(bs.last(), t) + entailed_down(bs.drop_last(), t)
    }
}

/// The bucket array of one variable for one relation.
spec fn sel<W>(vw: VarWatches<W>, rel: Rel) -> Seq<Bucket<W>> {
    match rel {
        Rel::Leq => vw.on_leq@,
        Rel::Geq => vw.on_geq@,
    }
}

/// Under sortedness, the lookup at the threshold of bucket `i` finds exactly
/// that bucket.
proof fn lemma_lookup_at_index<W>(bs: Seq<Bucket<W>>, i: int)
    requires
        buckets_sorted(bs),
        0 <= i < bs.len(),
    ensures
        bucket_lookup(bs, bs[i].threshold as int) == bs[i].watchers@,
    decreases bs.len(),
{
    if i > 0 {
        assert(bs.first().threshold < bs[i].threshold);
        assert(buckets_sorted(bs.drop_first()));
        assert(bs.drop_first()[i - 1] == bs[i]);
        lemma_lookup_at_index(bs.drop_first(), i - 1);
    }
}

/// A threshold that no bucket has looks up to the empty sequence.
proof fn lemma_lookup_absent<W>(bs: Seq<Bucket<W>>, t: int)
    requires
        forall|i: int| 0 <= i < bs.len() ==> (#[trigger] bs[i].threshold) as int != t,
    ensures
        bucket_lookup(bs, t) == Seq::<W>::empty(),
    decreases bs.len(),
{
    if bs.len() > 0 {
        assert(bs[0].threshold as int != t);
        assert(forall|i: int|
            0 <= i < bs.drop_first().len() ==> (#[trigger] bs.drop_first()[i].threshold) as int
                != t);
        lemma_lookup_absent(bs.drop_first(), t);
    }
}

/// Appends `watcher` under `threshold`: grows the existing bucket, or opens a
/// new one at the sorted position. Every other threshold keeps its watchers,
/// every query strictly on the untouched side of `threshold` keeps its whole
/// answer, and every query that reaches `threshold` answers with `watcher`
/// inserted at one position.
fn bucket_add<W>(bs: &mut Vec<Bucket<W>>, threshold: i64, watcher: W)
    requires
        buckets_sorted(old(bs)@),
    ensures
        buckets_sorted(final(bs)@),
        bucket_lookup(final(bs)@, threshold as int) == bucket_lookup(old(bs)@, threshold as int)
            .push(watcher),
        forall|t2: int|
            t2 != threshold as int ==> bucket_lookup(final(bs)@, t2) == bucket_lookup(
                old(bs)@,
                t2,
            ),
        forall|t2: int|
            t2 > threshold as int ==> entailed_up(final(bs)@, t2) == entailed_up(old(bs)@, t2),
        forall|t2: int|
            t2 <= threshold as int ==> inserted_once(
                entailed_up(old(bs)@, t2),
                #[trigger] entailed_up(final(bs)@, t2),
                watcher,
            ),
        forall|t2: int|
            t2 < threshold as int ==> entailed_down(final(bs)@, t2) == entailed_down(old(bs)@, t2),
        forall|t2: int|
            t2 >= threshold as int ==> inserted_once(
                entailed_down(old(bs)@, t2),
                #[trigger] entailed_down(final(bs)@, t2),
                watcher,
            ),
{
    let ghost pre = bs@;
    // Find the first index whose threshold is at least the new one.
    let mut lo: usize = 0;
    let mut hi: usize = bs.len();
    while lo < hi
        invariant
            lo <= hi <= bs@.len(),
            bs@ == pre,
            buckets_sorted(bs@),
            forall|k: int| 0 <= k < lo ==> (#[trigger] bs@[k].threshold) < threshold,
            forall|k: int| hi <= k < bs@.len() ==> (#[trigger] bs@[k].threshold) >= threshold,
        decreases hi - lo,
    {
        let mid = lo + (hi - lo) / 2;
        if bs[mid].threshold < threshold {
            lo = mid + 1;
        } else {
            hi = mid;
        }
    }
    if lo < bs.len() && bs[lo].threshold == threshold {
        let b = &mut bs[lo];
        b.watchers.push(watcher);
        proof {
            let post = bs@;
            assert(post[lo as int].threshold == threshold);
            assert(post[lo as int].watchers@ == pre[lo as int].watchers@.push(watcher));
            assert(post =~= pre.update(lo as int, post[lo as int]));
            assert forall|i: int, j: int| 0 <= i < j < post.len() implies post[i].threshold
                < post[j].threshold by {
                assert(pre[i].threshold < pre[j].threshold);
            }
            lemma_lookup_at_index(pre, lo as int);
            lemma_lookup_at_index(post, lo as int);
            assert forall|t2: int| t2 != threshold as int implies bucket_lookup(post, t2)
                == bucket_lookup(pre, t2) by {
                lemma_lookup_update_other(pre, lo as int, post[lo as int], t2);
            }
            lemma_entailed_after_update(pre, post, lo as int, watcher);
        }
    } else {
        let mut ws: Vec<W> = Vec::new();
        ws.push(watcher);
        let ghost wsv = ws@;
        bs.insert(lo, Bucket { threshold, watchers: ws });
        proof {
            let post = bs@;
            let b = post[lo as int];
            assert(post == pre.insert(lo as int, b));
            pre.insert_ensures(lo as int, b);
            assert(b.threshold == threshold && b.watchers@ == wsv);
            // The suffix lies strictly above the new threshold: the boundary
            // bucket, if there is one, was not an exact match.
            assert forall|k: int| lo <= k < pre.len() implies (#[trigger] pre[k].threshold)
                > threshold by {
                if k > lo {
                    assert(pre[lo as int].threshold < pre[k].threshold);
                }
            }
            assert forall|i: int, j: int| 0 <= i < j < post.len() implies post[i].threshold
                < post[j].threshold by {
                if j < lo {
                    assert(post[i] == pre[i] && post[j] == pre[j]);
                } else if i > lo {
                    assert(post[i] == pre[i - 1] && post[j] == pre[j - 1]);
                } else if i == lo {
                    assert(post[j] == pre[j - 1] && pre[j - 1].threshold > threshold);
                } else if j == lo {
                    assert(post[i] == pre[i] && pre[i].threshold < threshold);
                } else {
                    assert(post[i] == pre[i] && post[j] == pre[j - 1]);
                    assert(pre[i].threshold < threshold && pre[j - 1].threshold > threshold);
                }
            }
            assert(forall|i: int|
                0 <= i < pre.len() ==> (#[trigger] pre[i].threshold) as int != threshold as int);
            lemma_lookup_absent(pre, threshold as int);
            lemma_lookup_at_index(post, lo as int);
            assert(bucket_lookup(post, threshold as int) == bucket_lookup(pre, threshold as int)
                .push(watcher));
            assert forall|t2: int| t2 != threshold as int implies bucket_lookup(post, t2)
                == bucket_lookup(pre, t2) by {
                lemma_lookup_insert_other(pre, lo as int, b, t2);
            }
            lemma_entailed_after_insert(pre, post, lo as int, watcher);
        }
    }
}

/// Appends `watcher` in one variable's storage, on the side that `rel` picks;
/// the other side is untouched.
fn var_add<W>(vw: &mut VarWatches<W>, rel: Rel, threshold: i64, watcher: W)
    requires
        buckets_sorted(old(vw).on_leq@),
        buckets_sorted(old(vw).on_geq@),
    ensures
        buckets_sorted(final(vw).on_leq@),
        buckets_sorted(final(vw).on_geq@),
        rel == Rel::Leq ==> final(vw).on_geq@ == old(vw).on_geq@,
        rel == Rel::Geq ==> final(vw).on_leq@ == old(vw).on_leq@,
        bucket_lookup(sel(*final(vw), rel), threshold as int) == bucket_lookup(
            sel(*old(vw), rel),
            threshold as int,
        ).push(watcher),
        forall|t2: int|
            t2 != threshold as int ==> bucket_lookup(sel(*final(vw), rel), t2) == bucket_lookup(
                sel(*old(vw), rel),
                t2,
            ),
        rel == Rel::Leq ==> forall|t2: int|
            t2 > threshold as int ==> entailed_up(final(vw).on_leq@, t2) == entailed_up(
                old(vw).on_leq@,
                t2,
            ),
        rel == Rel::Leq ==> forall|t2: int|
            t2 <= threshold as int ==> inserted_once(
                entailed_up(old(vw).on_leq@, t2),
                #[trigger] entailed_up(final(vw).on_leq@, t2),
                watcher,
            ),
        rel == Rel::Geq ==> forall|t2: int|
            t2 < threshold as int ==> entailed_down(final(vw).on_geq@, t2) == entailed_down(
                old(vw).on_geq@,
                t2,
            ),
        rel == Rel::Geq ==> forall|t2: int|
            t2 >= threshold as int ==> inserted_once(
                entailed_down(old(vw).on_geq@, t2),
                #[trigger] entailed_down(final(vw).on_geq@, t2),
                watcher,
            ),
{
    match rel {
        Rel::Leq => bucket_add(&mut vw.on_leq, threshold, watcher),
        Rel::Geq => bucket_add(&mut vw.on_geq, threshold, watcher),
    }
}

/// Replacing one bucket by a bucket with the same threshold leaves every
/// other threshold's lookup unchanged.
proof fn lemma_lookup_update_other<W>(pre: Seq<Bucket<W>>, i: int, b: Bucket<W>, t2: int)
    requires
        0 <= i < pre.len(),
        b.threshold == pre[i].threshold,
        t2 != b.threshold as int,
    ensures
        bucket_lookup(pre.update(i, b), t2) == bucket_lookup(pre, t2),
    decreases pre.len(),
{
    let post = pre.update(i, b);
    if i == 0 {
        assert(post.first() == b);
        assert(post.drop_first() =~= pre.drop_first());
    } else {
        assert(post.first() == pre.first());
        if pre.first().threshold as int != t2 {
            assert(post.drop_first() =~= pre.drop_first().update(i - 1, b));
            lemma_lookup_update_other(pre.drop_first(), i - 1, b, t2);
        }
    }
}

/// Inserting a bucket with a different threshold leaves a threshold's lookup
/// unchanged.
proof fn lemma_lookup_insert_other<W>(pre: Seq<Bucket<W>>, i: int, b: Bucket<W>, t2: int)
    requires
        0 <= i <= pre.len(),
        t2 != b.threshold as int,
    ensures
        bucket_lookup(pre.insert(i, b), t2) == bucket_lookup(pre, t2),
    decreases pre.len(),
{
    let post = pre.insert(i, b);
    if i == 0 {
        assert(post.first() == b);
        assert(post.drop_first() =~= pre);
    } else {
        assert(post.first() == pre.first());
        if pre.first().threshold as int != t2 {
            assert(post.drop_first() =~= pre.drop_first().insert(i - 1, b));
            lemma_lookup_insert_other(pre.drop_first(), i - 1, b, t2);
        }
    }
}

/// An all-below prefix contributes nothing to a `<=` query.
proof fn lemma_up_all_below<W>(bs: Seq<Bucket<W>>, t: int)
    requires
        forall|k: int| 0 <= k < bs.len() ==> ((#[trigger] bs[k].threshold) as int) < t,
    ensures
        entailed_up(bs, t) == Seq::<W>::empty(),
    decreases bs.len(),
{
    if bs.len() > 0 {
        assert((bs[0].threshold as int) < t);
        assert(forall|k: int|
            0 <= k < bs.drop_first().len() ==> ((#[trigger] bs.drop_first()[k].threshold) as int)
                < t);
        lemma_up_all_below(bs.drop_first(), t);
        assert(Seq::<W>::empty() + Seq::<W>::empty() =~= Seq::<W>::empty());
    }
}

/// Extending a bucket array at its back appends that bucket's contribution to
/// a `<=` query.
proof fn lemma_up_push<W>(s: Seq<Bucket<W>>, b: Bucket<W>, t: int)
    ensures
        entailed_up(s.push(b), t) == entailed_up(s, t) + up_part(b, t),
    decreases s.len(),
{
    let sp = s.push(b);
    if s.len() == 0 {
        assert(sp.first() == b);
        assert(sp.drop_first() =~= s);
        assert(entailed_up(sp, t) == up_part(b, t) + entailed_up(s, t));
        assert(entailed_up(s, t) == Seq::<W>::empty());
        assert(up_part(b, t) + Seq::<W>::empty() =~= up_part(b, t));
        assert(Seq::<W>::empty() + up_part(b, t) =~= up_part(b, t));
    } else {
        assert(sp.first() == s.first());
        assert(sp.drop_first() =~= s.drop_first().push(b));
        lemma_up_push(s.drop_first(), b, t);
        assert(entailed_up(sp, t) == up_part(s.first(), t) + entailed_up(sp.drop_first(), t));
        assert(entailed_up(sp.drop_first(), t) == entailed_up(s.drop_first(), t) + up_part(b, t));
        assert(entailed_up(s, t) == up_part(s.first(), t) + entailed_up(s.drop_first(), t));
        assert(up_part(s.first(), t) + (entailed_up(s.drop_first(), t) + up_part(b, t)) =~= (
        up_part(s.first(), t) + entailed_up(s.drop_first(), t)) + up_part(b, t));
    }
}

/// An all-above suffix contributes nothing to a `>=` query.
proof fn lemma_down_suffix_above<W>(bs: Seq<Bucket<W>>, t: int, nb: int)
    requires
        0 <= nb <= bs.len(),
        forall|k: int| nb <= k < bs.len() ==> (#[trigger] bs[k].threshold) as int > t,
    ensures
        entailed_down(bs, t) == entailed_down(bs.take(nb), t),
    decreases bs.len() - nb,
{
    if nb < bs.len() {
        assert(bs.last().threshold as int > t);
        assert(down_part(bs.last(), t) == Seq::<W>::empty());
        assert(Seq::<W>::empty() + entailed_down(bs.drop_last(), t) =~= entailed_down(
            bs.drop_last(),
            t,
        ));
        assert(bs.drop_last() =~= bs.take(bs.len() - 1));
        assert(forall|k: int|
            nb <= k < bs.drop_last().len() ==> (#[trigger] bs.drop_last()[k].threshold) as int
                > t);
        lemma_down_suffix_above(bs.drop_last(), t, nb);
        assert(bs.drop_last().take(nb) =~= bs.take(nb));
    } else {
        assert(bs.take(nb) =~= bs);
    }
}

/// Splits a `<=` query around bucket `i`: the result is what the buckets
/// before `i` contribute, then bucket `i`'s own contribution, then the rest.
/// Replacing bucket `i` changes only the middle part.
proof fn lemma_up_update<W>(pre: Seq<Bucket<W>>, i: int, b: Bucket<W>, t: int) -> (r: (
    Seq<W>,
    Seq<W>,
))
    requires
        0 <= i < pre.len(),
    ensures
        entailed_up(pre, t) == r.0 + up_part(pre[i], t) + r.1,
        entailed_up(pre.update(i, b), t) == r.0 + up_part(b, t) + r.1,
    decreases pre.len(),
{
    let post = pre.update(i, b);
    if i == 0 {
        assert(post.first() == b);
        assert(post.drop_first() =~= pre.drop_first());
        let c = entailed_up(pre.drop_first(), t);
        assert(entailed_up(pre, t) == up_part(pre.first(), t) + c);
        assert(entailed_up(post, t) == up_part(b, t) + c);
        assert(Seq::<W>::empty() + up_part(pre[i], t) =~= up_part(pre[i], t));
        assert(Seq::<W>::empty() + up_part(b, t) =~= up_part(b, t));
        (Seq::<W>::empty(), c)
    } else {
        assert(post.first() == pre.first());
        assert(post.drop_first() =~= pre.drop_first().update(i - 1, b));
        assert(pre.drop_first()[i - 1] == pre[i]);
        let r0 = lemma_up_update(pre.drop_first(), i - 1, b, t);
        let h = up_part(pre.first(), t);
        assert(entailed_up(pre, t) == h + entailed_up(pre.drop_first(), t));
        assert(entailed_up(post, t) == h + entailed_up(pre.drop_first().update(i - 1, b), t));
        assert(h + ((r0.0 + up_part(pre[i], t)) + r0.1) =~= ((h + r0.0) + up_part(pre[i], t))
            + r0.1);
        assert(h + ((r0.0 + up_part(b, t)) + r0.1) =~= ((h + r0.0) + up_part(b, t)) + r0.1);
        (h + r0.0, r0.1)
    }
}

/// Splits a `<=` query around an insertion position: the inserted bucket's
/// contribution lands between what the surrounding buckets contribute.
proof fn lemma_up_insert<W>(pre: Seq<Bucket<W>>, i: int, b: Bucket<W>, t: int) -> (r: (
    Seq<W>,
    Seq<W>,
))
    requires
        0 <= i <= pre.len(),
    ensures
        entailed_up(pre, t) == r.0 + r.1,
        entailed_up(pre.insert(i, b), t) == r.0 + up_part(b, t) + r.1,
    decreases pre.len(),
{
    let post = pre.insert(i, b);
    pre.insert_ensures(i, b);
    if i == 0 {
        assert(post.first() == b);
        assert(post.drop_first() =~= pre);
        let c = entailed_up(pre, t);
        assert(entailed_up(post, t) == up_part(b, t) + c);
        assert(Seq::<W>::empty() + c =~= c);
        assert(Seq::<W>::empty() + up_part(b, t) =~= up_part(b, t));
        (Seq::<W>::empty(), c)
    } else {
        assert(post.first() == pre.first());
        assert(post.drop_first() =~= pre.drop_first().insert(i - 1, b));
        let r0 = lemma_up_insert(pre.drop_first(), i - 1, b, t);
        let h = up_part(pre.first(), t);
        assert(entailed_up(pre, t) == h + entailed_up(pre.drop_first(), t));
        assert(entailed_up(post, t) == h + entailed_up(pre.drop_first().insert(i - 1, b), t));
        assert(h + (r0.0 + r0.1) =~= (h + r0.0) + r0.1);
        assert(h + ((r0.0 + up_part(b, t)) + r0.1) =~= ((h + r0.0) + up_part(b, t)) + r0.1);
        (h + r0.0, r0.1)
    }
}

/// Splits a `>=` query around bucket `i`, as `lemma_up_update` does for `<=`.
proof fn lemma_down_update<W>(pre: Seq<Bucket<W>>, i: int, b: Bucket<W>, t: int) -> (r: (
    Seq<W>,
    Seq<W>,
))
    requires
        0 <= i < pre.len(),
    ensures
        entailed_down(pre, t) == r.0 + down_part(pre[i], t) + r.1,
        entailed_down(pre.update(i, b), t) == r.0 + down_part(b, t) + r.1,
    decreases pre.len(),
{
    let post = pre.update(i, b);
    if i == pre.len() - 1 {
        assert(post.last() == b);
        assert(post.drop_last() =~= pre.drop_last());
        let c = entailed_down(pre.drop_last(), t);
        assert(entailed_down(pre, t) == down_part(pre[i], t) + c);
        assert(entailed_down(post, t) == down_part(b, t) + c);
        assert(Seq::<W>::empty() + down_part(pre[i], t) =~= down_part(pre[i], t));
        assert(Seq::<W>::empty() + down_part(b, t) =~= down_part(b, t));
        (Seq::<W>::empty(), c)
    } else {
        assert(post.last() == pre.last());
        assert(post.drop_last() =~= pre.drop_last().update(i, b));
        assert(pre.drop_last()[i] == pre[i]);
        let r0 = lemma_down_update(pre.drop_last(), i, b, t);
        let h = down_part(pre.last(), t);
        assert(entailed_down(pre, t) == h + entailed_down(pre.drop_last(), t));
        assert(entailed_down(post, t) == h + entailed_down(pre.drop_last().update(i, b), t));
        assert(h + ((r0.0 + down_part(pre[i], t)) + r0.1) =~= ((h + r0.0) + down_part(pre[i], t))
            + r0.1);
        assert(h + ((r0.0 + down_part(b, t)) + r0.1) =~= ((h + r0.0) + down_part(b, t)) + r0.1);
        (h + r0.0, r0.1)
    }
}

/// Splits a `>=` query around an insertion position, as `lemma_up_insert`
/// does for `<=`.
proof fn lemma_down_insert<W>(pre: Seq<Bucket<W>>, i: int, b: Bucket<W>, t: int) -> (r: (
    Seq<W>,
    Seq<W>,
))
    requires
        0 <= i <= pre.len(),
    ensures
        entailed_down(pre, t) == r.0 + r.1,
        entailed_down(pre.insert(i, b), t) == r.0 + down_part(b, t) + r.1,
    decreases pre.len(),
{
    let post = pre.insert(i, b);
    pre.insert_ensures(i, b);
    if i == pre.len() {
        assert(post.last() == b);
        assert(post.drop_last() =~= pre);
        let c = entailed_down(pre, t);
        assert(entailed_down(post, t) == down_part(b, t) + c);
        assert(Seq::<W>::empty() + c =~= c);
        assert(Seq::<W>::empty() + down_part(b, t) =~= down_part(b, t));
        (Seq::<W>::empty(), c)
    } else {
        assert(post.last() == pre.last());
        assert(post.drop_last() =~= pre.drop_last().insert(i, b));
        let r0 = lemma_down_insert(pre.drop_last(), i, b, t);
        let h = down_part(pre.last(), t);
        assert(entailed_down(pre, t) == h + entailed_down(pre.drop_last(), t));
        assert(entailed_down(post, t) == h + entailed_down(pre.drop_last().insert(i, b), t));
        assert(h + (r0.0 + r0.1) =~= (h + r0.0) + r0.1);
        assert(h + ((r0.0 + down_part(b, t)) + r0.1) =~= ((h + r0.0) + down_part(b, t)) + r0.1);
        (h + r0.0, r0.1)
    }
}

/// `post` is `pre` with one occurrence of `a` inserted at some position:
/// everything of `pre` survives, in its order, and exactly `a` is new.
pub open spec fn inserted_once<A>(pre: Seq<A>, post: Seq<A>, a: A) -> bool {
    exists|k: int| 0 <= k <= pre.len() && post == pre.insert(k, a)
}

/// After one bucket grows by `watcher` at its end, every query strictly on
/// the untouched side answers as before, and every query that reaches the
/// bucket answers with `watcher` inserted at one position.
proof fn lemma_entailed_after_update<W>(pre: Seq<Bucket<W>>, post: Seq<Bucket<W>>, i: int, watcher: W)
    requires
        0 <= i < pre.len(),
        post == pre.update(i, post[i]),
        post[i].threshold == pre[i].threshold,
        post[i].watchers@ == pre[i].watchers@.push(watcher),
    ensures
        forall|t2: int|
            t2 > pre[i].threshold as int ==> entailed_up(post, t2) == entailed_up(pre, t2),
        forall|t2: int|
            t2 <= pre[i].threshold as int ==> inserted_once(
                entailed_up(pre, t2),
                #[trigger] entailed_up(post, t2),
                watcher,
            ),
        forall|t2: int|
            t2 < pre[i].threshold as int ==> entailed_down(post, t2) == entailed_down(pre, t2),
        forall|t2: int|
            t2 >= pre[i].threshold as int ==> inserted_once(
                entailed_down(pre, t2),
                #[trigger] entailed_down(post, t2),
                watcher,
            ),
{
    let b = post[i];
    assert forall|t2: int| t2 > pre[i].threshold as int implies entailed_up(post, t2)
        == entailed_up(pre, t2) by {
        let r = lemma_up_update(pre, i, b, t2);
        assert(up_part(pre[i], t2) == Seq::<W>::empty());
        assert(up_part(b, t2) == Seq::<W>::empty());
    }
    assert forall|t2: int|
        t2 <= pre[i].threshold as int implies inserted_once(
        entailed_up(pre, t2),
        #[trigger] entailed_up(post, t2),
        watcher,
    ) by {
        let r = lemma_up_update(pre, i, b, t2);
        let x = pre[i].watchers@;
        assert(up_part(pre[i], t2) == x);
        assert(up_part(b, t2) == x.push(watcher));
        let e = entailed_up(pre, t2);
        let k = r.0.len() as int + x.len() as int;
        e.insert_ensures(k, watcher);
        assert(e.insert(k, watcher) =~= (r.0 + x.push(watcher)) + r.1);
        assert(0 <= k <= e.len() && entailed_up(post, t2) == e.insert(k, watcher));
        assert(inserted_once(e, entailed_up(post, t2), watcher));
    }
    assert forall|t2: int| t2 < pre[i].threshold as int implies entailed_down(post, t2)
        == entailed_down(pre, t2) by {
        let r = lemma_down_update(pre, i, b, t2);
        assert(down_part(pre[i], t2) == Seq::<W>::empty());
        assert(down_part(b, t2) == Seq::<W>::empty());
    }
    assert forall|t2: int|
        t2 >= pre[i].threshold as int implies inserted_once(
        entailed_down(pre, t2),
        #[trigger] entailed_down(post, t2),
        watcher,
    ) by {
        let r = lemma_down_update(pre, i, b, t2);
        let x = pre[i].watchers@;
        assert(down_part(pre[i], t2) == x);
        assert(down_part(b, t2) == x.push(watcher));
        let e = entailed_down(pre, t2);
        let k = r.0.len() as int + x.len() as int;
        e.insert_ensures(k, watcher);
        assert(e.insert(k, watcher) =~= (r.0 + x.push(watcher)) + r.1);
        assert(0 <= k <= e.len() && entailed_down(post, t2) == e.insert(k, watcher));
        assert(inserted_once(e, entailed_down(post, t2), watcher));
    }
}

/// After a fresh one-watcher bucket is inserted, every query strictly on the
/// untouched side answers as before, and every query that reaches the bucket
/// answers with `watcher` inserted at one position.
proof fn lemma_entailed_after_insert<W>(pre: Seq<Bucket<W>>, post: Seq<Bucket<W>>, i: int, watcher: W)
    requires
        0 <= i <= pre.len(),
        i < post.len(),
        post == pre.insert(i, post[i]),
        post[i].watchers@ == Seq::<W>::empty().push(watcher),
    ensures
        forall|t2: int|
            t2 > post[i].threshold as int ==> entailed_up(post, t2) == entailed_up(pre, t2),
        forall|t2: int|
            t2 <= post[i].threshold as int ==> inserted_once(
                entailed_up(pre, t2),
                #[trigger] entailed_up(post, t2),
                watcher,
            ),
        forall|t2: int|
            t2 < post[i].threshold as int ==> entailed_down(post, t2) == entailed_down(pre, t2),
        forall|t2: int|
            t2 >= post[i].threshold as int ==> inserted_once(
                entailed_down(pre, t2),
                #[trigger] entailed_down(post, t2),
                watcher,
            ),
{
    let b = post[i];
    assert forall|t2: int| t2 > b.threshold as int implies entailed_up(post, t2) == entailed_up(
        pre,
        t2,
    ) by {
        let r = lemma_up_insert(pre, i, b, t2);
        assert(up_part(b, t2) == Seq::<W>::empty());
        assert((r.0 + Seq::<W>::empty()) + r.1 =~= r.0 + r.1);
    }
    assert forall|t2: int|
        t2 <= b.threshold as int implies inserted_once(
        entailed_up(pre, t2),
        #[trigger] entailed_up(post, t2),
        watcher,
    ) by {
        let r = lemma_up_insert(pre, i, b, t2);
        assert(up_part(b, t2) == Seq::<W>::empty().push(watcher));
        let e = entailed_up(pre, t2);
        let k = r.0.len() as int;
        e.insert_ensures(k, watcher);
        assert(e.insert(k, watcher) =~= (r.0 + Seq::<W>::empty().push(watcher)) + r.1);
        assert(0 <= k <= e.len() && entailed_up(post, t2) == e.insert(k, watcher));
        assert(inserted_once(e, entailed_up(post, t2), watcher));
    }
    assert forall|t2: int| t2 < b.threshold as int implies entailed_down(post, t2)
        == entailed_down(pre, t2) by {
        let r = lemma_down_insert(pre, i, b, t2);
        assert(down_part(b, t2) == Seq::<W>::empty());
        assert((r.0 + Seq::<W>::empty()) + r.1 =~= r.0 + r.1);
    }
    assert forall|t2: int|
        t2 >= b.threshold as int implies inserted_once(
        entailed_down(pre, t2),
        #[trigger] entailed_down(post, t2),
        watcher,
    ) by {
        let r = lemma_down_insert(pre, i, b, t2);
        assert(down_part(b, t2) == Seq::<W>::empty().push(watcher));
        let e = entailed_down(pre, t2);
        let k = r.0.len() as int;
        e.insert_ensures(k, watcher);
        assert(e.insert(k, watcher) =~= (r.0 + Seq::<W>::empty().push(watcher)) + r.1);
        assert(0 <= k <= e.len() && entailed_down(post, t2) == e.insert(k, watcher));
        assert(inserted_once(e, entailed_down(post, t2), watcher));
    }
}

/// A watcher is in a concatenation exactly when it is in one of the parts.
proof fn lemma_add_contains<W>(a: Seq<W>, b: Seq<W>, w: W)
    ensures
        (a + b).contains(w) <==> a.contains(w) || b.contains(w),
{
    if a.contains(w) {
        let i = choose|i: int| 0 <= i < a.len() && a[i] == w;
        assert((a + b)[i] == w);
    }
    if b.contains(w) {
        let i = choose|i: int| 0 <= i < b.len() && b[i] == w;
        assert((a + b)[a.len() + i] == w);
    }
    if (a + b).contains(w) {
        let i = choose|i: int| 0 <= i < (a + b).len() && (a + b)[i] == w;
        if i < a.len() {
            assert(a[i] == w);
        } else {
            assert(b[i - a.len()] == w);
        }
    }
}

/// A watcher comes out of a `<=` query exactly when some bucket with a
/// threshold at least `t` holds it.
proof fn lemma_up_mem<W>(bs: Seq<Bucket<W>>, t: int, w: W)
    ensures
        entailed_up(bs, t).contains(w) <==> exists|i: int|
            0 <= i < bs.len() && ((#[trigger] bs[i]).threshold as int) >= t
                && bs[i].watchers@.contains(w),
    decreases bs.len(),
{
    if bs.len() > 0 {
        let a = up_part(bs.first(), t);
        let c = entailed_up(bs.drop_first(), t);
        assert(entailed_up(bs, t) == a + c);
        lemma_add_contains(a, c, w);
        lemma_up_mem(bs.drop_first(), t, w);
        if entailed_up(bs, t).contains(w) {
            if a.contains(w) {
                assert((bs[0].threshold as int) >= t && bs[0].watchers@.contains(w));
            } else {
                let i = choose|i: int|
                    0 <= i < bs.drop_first().len() && ((bs.drop_first()[i]).threshold as int) >= t
                        && bs.drop_first()[i].watchers@.contains(w);
                assert(bs.drop_first()[i] == bs[i + 1]);
            }
        }
        if exists|i: int|
            0 <= i < bs.len() && ((#[trigger] bs[i]).threshold as int) >= t
                && bs[i].watchers@.contains(w) {
            let i = choose|i: int|
                0 <= i < bs.len() && ((#[trigger] bs[i]).threshold as int) >= t
                    && bs[i].watchers@.contains(w);
            if i == 0 {
                assert(a.contains(w));
            } else {
                assert(bs.drop_first()[i - 1] == bs[i]);
                assert(c.contains(w));
            }
            assert((a + c).contains(w));
        }
    }
}

/// A watcher comes out of a `>=` query exactly when some bucket with a
/// threshold at most `t` holds it.
proof fn lemma_down_mem<W>(bs: Seq<Bucket<W>>, t: int, w: W)
    ensures
        entailed_down(bs, t).contains(w) <==> exists|i: int|
            0 <= i < bs.len() && ((#[trigger] bs[i]).threshold as int) <= t
                && bs[i].watchers@.contains(w),
    decreases bs.len(),
{
    if bs.len() > 0 {
        let a = down_part(bs.last(), t);
        let c = entailed_down(bs.drop_last(), t);
        let last = bs.len() - 1;
        assert(entailed_down(bs, t) == a + c);
        lemma_add_contains(a, c, w);
        lemma_down_mem(bs.drop_last(), t, w);
        if entailed_down(bs, t).contains(w) {
            if a.contains(w) {
                assert((bs[last].threshold as int) <= t && bs[last].watchers@.contains(w));
            } else {
                let i = choose|i: int|
                    0 <= i < bs.drop_last().len() && ((bs.drop_last()[i]).threshold as int) <= t
                        && bs.drop_last()[i].watchers@.contains(w);
                assert(bs.drop_last()[i] == bs[i]);
            }
        }
        if exists|i: int|
            0 <= i < bs.len() && ((#[trigger] bs[i]).threshold as int) <= t
                && bs[i].watchers@.contains(w) {
            let i = choose|i: int|
                0 <= i < bs.len() && ((#[trigger] bs[i]).threshold as int) <= t
                    && bs[i].watchers@.contains(w);
            if i == last {
                assert(a.contains(w));
            } else {
                assert(bs.drop_last()[i] == bs[i]);
                assert(c.contains(w));
            }
            assert((a + c).contains(w));
        }
    }
}

/// The watchers of a bucket at or above `t` stand contiguously, in their own
/// order, inside the `<=` query result; the returned value is where.
proof fn lemma_up_sub<W>(bs: Seq<Bucket<W>>, t: int, i: int) -> (a: int)
    requires
        0 <= i < bs.len(),
        (bs[i].threshold as int) >= t,
    ensures
        0 <= a,
        a + bs[i].watchers@.len() <= entailed_up(bs, t).len(),
        entailed_up(bs, t).subrange(a, a + bs[i].watchers@.len()) == bs[i].watchers@,
    decreases bs.len(),
{
    let e = entailed_up(bs, t);
    assert(e == up_part(bs.first(), t) + entailed_up(bs.drop_first(), t));
    if i == 0 {
        assert(up_part(bs.first(), t) == bs[0].watchers@);
        assert(e.subrange(0, bs[0].watchers@.len() as int) =~= bs[0].watchers@);
        0
    } else {
        assert(bs.drop_first()[i - 1] == bs[i]);
        let a0 = lemma_up_sub(bs.drop_first(), t, i - 1);
        let a = a0 + up_part(bs.first(), t).len();
        assert(e.subrange(a, a + bs[i].watchers@.len()) =~= entailed_up(
            bs.drop_first(),
            t,
        ).subrange(a0, a0 + bs[i].watchers@.len()));
        a
    }
}

/// The watchers of a bucket at or below `t` stand contiguously, in their own
/// order, inside the `>=` query result; the returned value is where.
proof fn lemma_down_sub<W>(bs: Seq<Bucket<W>>, t: int, i: int) -> (a: int)
    requires
        0 <= i < bs.len(),
        (bs[i].threshold as int) <= t,
    ensures
        0 <= a,
        a + bs[i].watchers@.len() <= entailed_down(bs, t).len(),
        entailed_down(bs, t).subrange(a, a + bs[i].watchers@.len()) == bs[i].watchers@,
    decreases bs.len(),
{
    let e = entailed_down(bs, t);
    assert(e == down_part(bs.last(), t) + entailed_down(bs.drop_last(), t));
    if i == bs.len() - 1 {
        assert(down_part(bs.last(), t) == bs[i].watchers@);
        assert(e.subrange(0, bs[i].watchers@.len() as int) =~= bs[i].watchers@);
        0
    } else {
        assert(bs.drop_last()[i] == bs[i]);
        let a0 = lemma_down_sub(bs.drop_last(), t, i);
        let a = a0 + down_part(bs.last(), t).len();
        assert(e.subrange(a, a + bs[i].watchers@.len()) =~= entailed_down(
            bs.drop_last(),
            t,
        ).subrange(a0, a0 + bs[i].watchers@.len()));
        a
    }
}

/// Copies every watcher of `src` to the back of `out`, in order.
fn push_all<W: Copy>(out: &mut Vec<W>, src: &Vec<W>)
    ensures
        final(out)@ == old(out)@ + src@,
{
    proof {
        assert(old(out)@ + src@.take(0) =~= old(out)@);
    }
    let mut k: usize = 0;
    while k < src.len()
        invariant
            k <= src@.len(),
            out@ == old(out)@ + src@.take(k as int),
        decreases src@.len() - k,
    {
        let w = src[k];
        proof {
            assert(src@.take(k as int + 1) =~= src@.take(k as int).push(src@[k as int]));
            assert(old(out)@ + src@.take(k as int).push(src@[k as int]) =~= (old(out)@ + src@.take(
                k as int,
            )).push(src@[k as int]));
        }
        out.push(w);
        k = k + 1;
    }
    proof {
        assert(src@.take(src@.len() as int) =~= src@);
    }
}

/// Streams the entailed buckets of a `<=` query: from the first threshold at
/// least `t` to the back of the array, in ascending threshold order.
fn collect_up<W: Copy>(bs: &Vec<Bucket<W>>, threshold: i64) -> (out: Vec<W>)
    requires
        buckets_sorted(bs@),
    ensures
        out@ == entailed_up(bs@, threshold as int),
{
    let mut out: Vec<W> = Vec::new();
    // Find the boundary: the first index whose threshold is at least `t`.
    let mut lo: usize = 0;
    let mut hi: usize = bs.len();
    while lo < hi
        invariant
            lo <= hi <= bs@.len(),
            buckets_sorted(bs@),
            forall|k: int| 0 <= k < lo ==> (#[trigger] bs@[k].threshold) < threshold,
            forall|k: int| hi <= k < bs@.len() ==> (#[trigger] bs@[k].threshold) >= threshold,
        decreases hi - lo,
    {
        let mid = lo + (hi - lo) / 2;
        if bs[mid].threshold < threshold {
            lo = mid + 1;
        } else {
            hi = mid;
        }
    }
    proof {
        assert(forall|k: int|
            0 <= k < bs@.take(lo as int).len() ==> ((#[trigger] bs@.take(
                lo as int,
            )[k].threshold) as int) < threshold as int);
        lemma_up_all_below(bs@.take(lo as int), threshold as int);
    }
    let mut j = lo;
    while j < bs.len()
        invariant
            lo <= j <= bs@.len(),
            buckets_sorted(bs@),
            forall|k: int| lo <= k < bs@.len() ==> (#[trigger] bs@[k].threshold) >= threshold,
            out@ == entailed_up(bs@.take(j as int), threshold as int),
        decreases bs@.len() - j,
    {
        proof {
            assert(bs@.take(j as int + 1) =~= bs@.take(j as int).push(bs@[j as int]));
            lemma_up_push(bs@.take(j as int), bs@[j as int], threshold as int);
            assert(up_part(bs@[j as int], threshold as int) == bs@[j as int].watchers@);
        }
        push_all(&mut out, &bs[j].watchers);
        j = j + 1;
    }
    proof {
        assert(bs@.take(bs@.len() as int) =~= bs@);
    }
    out
}

/// Streams the entailed buckets of a `>=` query: from the last threshold at
/// most `t` down to the front of the array, in descending threshold order.
fn collect_down<W: Copy>(bs: &Vec<Bucket<W>>, threshold: i64) -> (out: Vec<W>)
    requires
        buckets_sorted(bs@),
    ensures
        out@ == entailed_down(bs@, threshold as int),
{
    let mut out: Vec<W> = Vec::new();
    // Find the boundary: the first index whose threshold is above `t`.
    let mut lo: usize = 0;
    let mut hi: usize = bs.len();
    while lo < hi
        invariant
            lo <= hi <= bs@.len(),
            buckets_sorted(bs@),
            forall|k: int| 0 <= k < lo ==> (#[trigger] bs@[k].threshold) <= threshold,
            forall|k: int| hi <= k < bs@.len() ==> (#[trigger] bs@[k].threshold) > threshold,
        decreases hi - lo,
    {
        let mid = lo + (hi - lo) / 2;
        if bs[mid].threshold <= threshold {
            lo = mid + 1;
        } else {
            hi = mid;
        }
    }
    let nb = lo;
    proof {
        lemma_down_suffix_above(bs@, threshold as int, nb as int);
        assert(Seq::<W>::empty() + entailed_down(bs@.take(nb as int), threshold as int)
            =~= entailed_down(bs@.take(nb as int), threshold as int));
    }
    let mut j = nb;
    while j > 0
        invariant
            j <= nb <= bs@.len(),
            forall|k: int| 0 <= k < nb ==> (#[trigger] bs@[k].threshold) <= threshold,
            out@ + entailed_down(bs@.take(j as int), threshold as int) == entailed_down(
                bs@.take(nb as int),
                threshold as int,
            ),
        decreases j,
    {
        j = j - 1;
        proof {
            let tj = bs@.take(j as int + 1);
            assert(tj.last() == bs@[j as int]);
            assert(tj.drop_last() =~= bs@.take(j as int));
            assert(down_part(bs@[j as int], threshold as int) == bs@[j as int].watchers@);
            assert(entailed_down(tj, threshold as int) == bs@[j as int].watchers@ + entailed_down(
                bs@.take(j as int),
                threshold as int,
            ));
            assert((out@ + bs@[j as int].watchers@) + entailed_down(
                bs@.take(j as int),
                threshold as int,
            ) =~= out@ + (bs@[j as int].watchers@ + entailed_down(
                bs@.take(j as int),
                threshold as int,
            )));
        }
        push_all(&mut out, &bs[j].watchers);
    }
    proof {
        assert(bs@.take(0) =~= Seq::<Bucket<W>>::empty());
        assert(out@ + Seq::<W>::empty() =~= out@);
    }
    out
}

impl<W> Watches<W> {
    /// The bucket array of one variable and one relation; empty for a
    /// variable the index has never stored anything for.
    spec fn pol(self, v: int, rel: Rel) -> Seq<Bucket<W>> {
        if 0 <= v < self.vars@.len() {
            sel(self.vars@[v], rel)
        } else {
            Seq::empty()
        }
    }

    /// Every bucket array of the index is sorted by strictly increasing
    /// threshold. Constructors establish this and every method preserves it.
    pub closed spec fn well_formed(self) -> bool {
        forall|v: int, rel: Rel| buckets_sorted(#[trigger] self.pol(v, rel))
    }

    /// The watchers registered under exactly `lit`, in registration order.
    pub closed spec fn watchers(self, lit: Lit) -> Seq<W> {
        bucket_lookup(self.pol(lit.var as int, lit.rel), lit.threshold as int)
    }

    /// The full query result for `lit`: every watcher registered under a
    /// literal that `lit` entails, in the documented deterministic order.
    pub closed spec fn entailed(self, lit: Lit) -> Seq<W> {
        match lit.rel {
            Rel::Leq => entailed_up(self.pol(lit.var as int, Rel::Leq), lit.threshold as int),
            Rel::Geq => entailed_down(self.pol(lit.var as int, Rel::Geq), lit.threshold as int),
        }
    }

    /// Creates an empty index: every literal has no watchers and every query
    /// yields the empty sequence.
    pub fn new() -> (r: Watches<W>)
        ensures
            r.well_formed(),
            forall|l: Lit| r.watchers(l) == Seq::<W>::empty(),
            forall|l: Lit| r.entailed(l) == Seq::<W>::empty(),
    {
        let r = Watches { vars: Vec::new() };
        proof {
            assert forall|v: int, rel: Rel| buckets_sorted(#[trigger] r.pol(v, rel)) by {
                assert(r.pol(v, rel) == Seq::<Bucket<W>>::empty());
            }
            assert forall|l: Lit| r.watchers(l) == Seq::<W>::empty() by {
                assert(r.pol(l.var as int, l.rel) == Seq::<Bucket<W>>::empty());
            }
            assert forall|l: Lit| r.entailed(l) == Seq::<W>::empty() by {
                assert(r.pol(l.var as int, l.rel) == Seq::<Bucket<W>>::empty());
            }
        }
        r
    }

    /// Registers `watcher` under `lit`, creating the variable's storage and
    /// the threshold bucket on first use.
    ///
    /// Exactly the bucket of `lit` grows, by `watcher` at its end, and every
    /// other literal keeps its watchers. Every query that does not entail
    /// `lit` — on another variable, on the other relation, or too loose to
    /// reach it — keeps its whole answer, and every query that entails `lit`
    /// now answers with the prior sequence plus `watcher` at one position:
    /// nothing is dropped, reordered, or deduplicated.
    pub fn add_watch(&mut self, watcher: W, lit: Lit)
        requires
            old(self).well_formed(),
        ensures
            final(self).well_formed(),
            final(self).watchers(lit) == old(self).watchers(lit).push(watcher),
            forall|m: Lit| m != lit ==> final(self).watchers(m) == old(self).watchers(m),
            forall|q: Lit|
                !lit_entails(q, lit) ==> final(self).entailed(q) == old(self).entailed(q),
            forall|q: Lit|
                lit_entails(q, lit) ==> inserted_once(
                    old(self).entailed(q),
                    #[trigger] final(self).entailed(q),
                    watcher,
                ),
            forall|q: Lit|
                lit_entails(q, lit) ==> final(self).entailed(q).to_multiset() == old(
                    self,
                ).entailed(q).to_multiset().insert(watcher),
    {
        let ghost orig = *self;
        // Grow the per-variable storage lazily, with empty polarity arrays.
        while self.vars.len() <= lit.var
            invariant
                orig.vars@.len() <= self.vars@.len(),
                forall|k: int| 0 <= k < orig.vars@.len() ==> self.vars@[k] == orig.vars@[k],
                forall|k: int|
                    orig.vars@.len() <= k < self.vars@.len() ==> (#[trigger] self.vars@[k]).on_leq@
                        == Seq::<Bucket<W>>::empty() && self.vars@[k].on_geq@ == Seq::<
                        Bucket<W>,
                    >::empty(),
            decreases lit.var + 1 - self.vars@.len(),
        {
            self.vars.push(VarWatches { on_leq: Vec::new(), on_geq: Vec::new() });
        }
        proof {
            assert forall|v: int, rel: Rel| #[trigger] self.pol(v, rel) == orig.pol(v, rel) by {
                if 0 <= v < orig.vars@.len() {
                    assert(self.vars@[v] == orig.vars@[v]);
                } else if 0 <= v < self.vars@.len() {
                    assert(self.pol(v, rel) == Seq::<Bucket<W>>::empty());
                }
            }
        }
        let ghost mid = *self;
        let idx = lit.var;
        proof {
            assert(mid.pol(idx as int, Rel::Leq) == sel(mid.vars@[idx as int], Rel::Leq));
            assert(mid.pol(idx as int, Rel::Geq) == sel(mid.vars@[idx as int], Rel::Geq));
            assert(buckets_sorted(orig.pol(idx as int, Rel::Leq)));
            assert(buckets_sorted(orig.pol(idx as int, Rel::Geq)));
        }
        var_add(&mut self.vars[idx], lit.rel, lit.threshold, watcher);
        proof {
            let post = *self;
            let v0 = idx as int;
            assert(forall|k: int|
                0 <= k < post.vars@.len() && k != v0 ==> post.vars@[k] == mid.vars@[k]);
            // Every polarity array other than the touched one is unchanged.
            assert forall|v: int, rel: Rel|
                v != v0 || rel != lit.rel implies #[trigger] post.pol(v, rel) == orig.pol(
                v,
                rel,
            ) by {
                if v != v0 {
                    if 0 <= v < post.vars@.len() {
                        assert(post.vars@[v] == mid.vars@[v]);
                    }
                    assert(post.pol(v, rel) == mid.pol(v, rel));
                } else {
                    match lit.rel {
                        Rel::Leq => {
                            assert(post.vars@[v0].on_geq@ == mid.vars@[v0].on_geq@);
                        },
                        Rel::Geq => {
                            assert(post.vars@[v0].on_leq@ == mid.vars@[v0].on_leq@);
                        },
                    }
                    assert(post.pol(v, rel) == mid.pol(v, rel));
                }
            }
            // The touched polarity array: sorted, with the stated lookups.
            assert(post.pol(v0, lit.rel) == sel(post.vars@[v0], lit.rel));
            assert(mid.pol(v0, lit.rel) == sel(mid.vars@[v0], lit.rel));
            assert forall|v: int, rel: Rel| buckets_sorted(#[trigger] post.pol(v, rel)) by {
                if v == v0 {
                    match rel {
                        Rel::Leq => assert(buckets_sorted(post.vars@[v0].on_leq@)),
                        Rel::Geq => assert(buckets_sorted(post.vars@[v0].on_geq@)),
                    }
                } else {
                    assert(post.pol(v, rel) == orig.pol(v, rel));
                }
            }
            assert(post.watchers(lit) == orig.watchers(lit).push(watcher));
            assert forall|m: Lit| m != lit implies post.watchers(m) == orig.watchers(m) by {
                if m.var != lit.var || m.rel != lit.rel {
                    assert(post.pol(m.var as int, m.rel) == orig.pol(m.var as int, m.rel));
                } else {
                    assert(m.threshold != lit.threshold);
                    assert(m.threshold as int != lit.threshold as int);
                }
            }
            assert forall|q: Lit| !lit_entails(q, lit) implies post.entailed(q) == orig.entailed(
                q,
            ) by {
                if q.var != lit.var || q.rel != lit.rel {
                    assert(post.pol(q.var as int, q.rel) == orig.pol(q.var as int, q.rel));
                } else {
                    let t2 = q.threshold as int;
                    assert(post.pol(v0, q.rel) == sel(post.vars@[v0], q.rel));
                    assert(mid.pol(v0, q.rel) == sel(mid.vars@[v0], q.rel));
                    assert(mid.pol(v0, q.rel) == orig.pol(v0, q.rel));
                    match lit.rel {
                        Rel::Leq => {
                            assert(t2 > lit.threshold as int);
                            assert(entailed_up(post.vars@[v0].on_leq@, t2) == entailed_up(
                                mid.vars@[v0].on_leq@,
                                t2,
                            ));
                        },
                        Rel::Geq => {
                            assert(t2 < lit.threshold as int);
                            assert(entailed_down(post.vars@[v0].on_geq@, t2) == entailed_down(
                                mid.vars@[v0].on_geq@,
                                t2,
                            ));
                        },
                    }
                }
            }
            assert forall|q: Lit| lit_entails(q, lit) implies inserted_once(
                orig.entailed(q),
                #[trigger] post.entailed(q),
                watcher,
            ) by {
                let t2 = q.threshold as int;
                assert(q.var == lit.var && q.rel == lit.rel);
                assert(post.pol(v0, q.rel) == sel(post.vars@[v0], q.rel));
                assert(mid.pol(v0, q.rel) == sel(mid.vars@[v0], q.rel));
                assert(mid.pol(v0, q.rel) == orig.pol(v0, q.rel));
                match lit.rel {
                    Rel::Leq => {
                        assert(t2 <= lit.threshold as int);
                        assert(inserted_once(
                            entailed_up(mid.vars@[v0].on_leq@, t2),
                            entailed_up(post.vars@[v0].on_leq@, t2),
                            watcher,
                        ));
                        assert(orig.entailed(q) == entailed_up(mid.vars@[v0].on_leq@, t2));
                        assert(post.entailed(q) == entailed_up(post.vars@[v0].on_leq@, t2));
                    },
                    Rel::Geq => {
                        assert(t2 >= lit.threshold as int);
                        assert(inserted_once(
                            entailed_down(mid.vars@[v0].on_geq@, t2),
                            entailed_down(post.vars@[v0].on_geq@, t2),
                            watcher,
                        ));
                        assert(orig.entailed(q) == entailed_down(mid.vars@[v0].on_geq@, t2));
                        assert(post.entailed(q) == entailed_down(post.vars@[v0].on_geq@, t2));
                    },
                }
            }
            assert forall|q: Lit| lit_entails(q, lit) implies post.entailed(q).to_multiset()
                == orig.entailed(q).to_multiset().insert(watcher) by {
                assert(inserted_once(orig.entailed(q), post.entailed(q), watcher));
                let k = choose|k: int|
                    0 <= k <= orig.entailed(q).len() && post.entailed(q) == orig.entailed(
                        q,
                    ).insert(k, watcher);
                vstd::seq_lib::to_multiset_insert(orig.entailed(q), k, watcher);
            }
        }
    }
}

impl<W> Watches<W> {
    /// Entailment completeness: a query for `q` yields exactly the watchers
    /// registered under literals that `q` entails — none missed, and no
    /// watcher registered under a literal `q` does not entail, so nothing
    /// crosses over from the other relation or from another variable.
    pub proof fn lemma_entailment_complete(self, q: Lit, w: W)
        requires
            self.well_formed(),
        ensures
            self.entailed(q).contains(w) <==> exists|l2: Lit|
                lit_entails(q, l2) && (#[trigger] self.watchers(l2)).contains(w),
    {
        let bs = self.pol(q.var as int, q.rel);
        let t = q.threshold as int;
        assert(buckets_sorted(bs));
        match q.rel {
            Rel::Leq => {
                lemma_up_mem(bs, t, w);
                if self.entailed(q).contains(w) {
                    let i = choose|i: int|
                        0 <= i < bs.len() && ((#[trigger] bs[i]).threshold as int) >= t
                            && bs[i].watchers@.contains(w);
                    let l2 = Lit { var: q.var, rel: q.rel, threshold: bs[i].threshold };
                    lemma_lookup_at_index(bs, i);
                    assert(self.watchers(l2) == bs[i].watchers@);
                    assert(lit_entails(q, l2) && self.watchers(l2).contains(w));
                }
                if exists|l2: Lit| lit_entails(q, l2) && (#[trigger] self.watchers(l2)).contains(
                    w,
                ) {
                    let l2 = choose|l2: Lit|
                        lit_entails(q, l2) && (#[trigger] self.watchers(l2)).contains(w);
                    assert(self.pol(l2.var as int, l2.rel) == bs);
                    if !(exists|i: int|
                        0 <= i < bs.len() && ((#[trigger] bs[i]).threshold as int)
                            == l2.threshold as int) {
                        assert(forall|i: int|
                            0 <= i < bs.len() ==> ((#[trigger] bs[i].threshold) as int)
                                != l2.threshold as int);
                        lemma_lookup_absent(bs, l2.threshold as int);
                        assert(false);
                    }
                    let i = choose|i: int|
                        0 <= i < bs.len() && ((#[trigger] bs[i]).threshold as int)
                            == l2.threshold as int;
                    lemma_lookup_at_index(bs, i);
                    assert(bs[i].watchers@.contains(w));
                    assert((bs[i].threshold as int) >= t);
                }
            },
            Rel::Geq => {
                lemma_down_mem(bs, t, w);
                if self.entailed(q).contains(w) {
                    let i = choose|i: int|
                        0 <= i < bs.len() && ((#[trigger] bs[i]).threshold as int) <= t
                            && bs[i].watchers@.contains(w);
                    let l2 = Lit { var: q.var, rel: q.rel, threshold: bs[i].threshold };
                    lemma_lookup_at_index(bs, i);
                    assert(self.watchers(l2) == bs[i].watchers@);
                    assert(lit_entails(q, l2) && self.watchers(l2).contains(w));
                }
                if exists|l2: Lit| lit_entails(q, l2) && (#[trigger] self.watchers(l2)).contains(
                    w,
                ) {
                    let l2 = choose|l2: Lit|
                        lit_entails(q, l2) && (#[trigger] self.watchers(l2)).contains(w);
                    assert(self.pol(l2.var as int, l2.rel) == bs);
                    if !(exists|i: int|
                        0 <= i < bs.len() && ((#[trigger] bs[i]).threshold as int)
                            == l2.threshold as int) {
                        assert(forall|i: int|
                            0 <= i < bs.len() ==> ((#[trigger] bs[i].threshold) as int)
                                != l2.threshold as int);
                        lemma_lookup_absent(bs, l2.threshold as int);
                        assert(false);
                    }
                    let i = choose|i: int|
                        0 <= i < bs.len() && ((#[trigger] bs[i]).threshold as int)
                            == l2.threshold as int;
                    lemma_lookup_at_index(bs, i);
                    assert(bs[i].watchers@.contains(w));
                    assert((bs[i].threshold as int) <= t);
                }
            },
        }
    }

    /// No deduplication and no reordering within a bucket: the watchers of
    /// every literal that `q` entails stand in the query result as one
    /// contiguous run, in registration order, duplicates included. The
    /// returned value says where the run begins.
    pub proof fn lemma_entailed_bucket_intact(self, q: Lit, l2: Lit) -> (a: int)
        requires
            self.well_formed(),
            lit_entails(q, l2),
        ensures
            0 <= a,
            a + self.watchers(l2).len() <= self.entailed(q).len(),
            self.entailed(q).subrange(a, a + self.watchers(l2).len()) == self.watchers(l2),
    {
        let bs = self.pol(q.var as int, q.rel);
        let t = q.threshold as int;
        assert(buckets_sorted(bs));
        assert(self.pol(l2.var as int, l2.rel) == bs);
        if !(exists|i: int|
            0 <= i < bs.len() && ((#[trigger] bs[i]).threshold as int) == l2.threshold as int) {
            assert(forall|i: int|
                0 <= i < bs.len() ==> ((#[trigger] bs[i].threshold) as int)
                    != l2.threshold as int);
            lemma_lookup_absent(bs, l2.threshold as int);
            assert(self.watchers(l2) == Seq::<W>::empty());
            assert(self.entailed(q).subrange(0, 0) =~= Seq::<W>::empty());
            0
        } else {
            let i = choose|i: int|
                0 <= i < bs.len() && ((#[trigger] bs[i]).threshold as int) == l2.threshold as int;
            lemma_lookup_at_index(bs, i);
            assert(self.watchers(l2) == bs[i].watchers@);
            match q.rel {
                Rel::Leq => lemma_up_sub(bs, t, i),
                Rel::Geq => lemma_down_sub(bs, t, i),
            }
        }
    }

    /// Boundary exactness: entailment is reflexive, so a query whose literal
    /// exactly matches a registered one includes that bucket's watchers.
    pub proof fn lemma_boundary_included(self, q: Lit)
        requires
            self.well_formed(),
        ensures
            forall|w: W|
                self.watchers(q).contains(w) ==> (#[trigger] self.entailed(q)).contains(w),
    {
        assert forall|w: W|
            self.watchers(q).contains(w) implies (#[trigger] self.entailed(q)).contains(w) by {
            crate::lit::lemma_entails_reflexive(q);
            self.lemma_entailment_complete(q, w);
            assert(lit_entails(q, q) && self.watchers(q).contains(w));
        }
    }
}

impl<W: Copy> Watches<W> {
    /// Answers a query for `lit`, the literal that has just become true: every
    /// watcher previously registered under a literal that `lit` entails, and
    /// no other.
    ///
    /// The result is a function of the index state and the literal alone, so
    /// two queries against an unchanged index answer identically; the order
    /// is the documented one (ascending thresholds for `<=`, descending for
    /// `>=`, registration order within a bucket). The index is not changed: a
    /// query reads through a shared borrow.
    pub fn watches_on(&self, lit: Lit) -> (r: Vec<W>)
        requires
            self.well_formed(),
        ensures
            r@ == self.entailed(lit),
    {
        if lit.var >= self.vars.len() {
            let r: Vec<W> = Vec::new();
            proof {
                assert(self.pol(lit.var as int, lit.rel) == Seq::<Bucket<W>>::empty());
                assert(self.entailed(lit) == Seq::<W>::empty());
            }
            return r;
        }
        let vw = &self.vars[lit.var];
        match lit.rel {
            Rel::Leq => {
                proof {
                    assert(vw.on_leq@ == self.pol(lit.var as int, Rel::Leq));
                    assert(buckets_sorted(self.pol(lit.var as int, Rel::Leq)));
                }
                collect_up(&vw.on_leq, lit.threshold)
            },
            Rel::Geq => {
                proof {
                    assert(vw.on_geq@ == self.pol(lit.var as int, Rel::Geq));
                    assert(buckets_sorted(self.pol(lit.var as int, Rel::Geq)));
                }
                collect_down(&vw.on_geq, lit.threshold)
            },
        }
    }
}

} // verus!

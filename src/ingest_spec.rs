//! What ingesting a batch of remote operations does, and the laws it obeys.
use vstd::prelude::*;
use crate::op::OpView;
use crate::log::eligible;
use crate::table::{TableState, apply_op, replay};
use crate::watermark::{covered, advanced};

verus! {

/// Table and watermark after ingesting `ops` in order: an operation the watermark
/// already covers is skipped; any other is applied and raises its origin's entry.
pub open spec fn ingest_spec(s: TableState, wm: Map<u128, u64>, ops: Seq<OpView>) -> (TableState, Map<u128, u64>)
    decreases ops.len(),
{
    if ops.len() == 0 {
        (s, wm)
    } else {
        let prev = ingest_spec(s, wm, ops.drop_last());
        let o = ops.last();
        if covered(prev.1, o) {
            prev
        } else {
            (apply_op(prev.0, o), advanced(prev.1, o.instance, o.timestamp))
        }
    }
}

/// Every operation of the sequence is covered by the watermark.
pub open spec fn all_covered(wm: Map<u128, u64>, ops: Seq<OpView>) -> bool {
    forall|i: int| 0 <= i < ops.len() ==> covered(wm, #[trigger] ops[i])
}

/// Per origin instance, the timestamps strictly increase along the sequence, and none
/// is covered by the watermark.
pub open spec fn fresh_and_ordered(wm: Map<u128, u64>, ops: Seq<OpView>) -> bool {
    &&& forall|i: int| 0 <= i < ops.len() ==> !covered(wm, #[trigger] ops[i])
    &&& forall|i: int, j: int|
        0 <= i < j < ops.len() && ops[i].instance == ops[j].instance ==> ops[i].timestamp < ops[j].timestamp
}

/// After an ingest the watermark covers every operation of the batch, and every entry
/// is either the one before or the timestamp of an operation of the batch from that
/// instance, and never lower than before: it is the per-instance maximum.
pub proof fn lemma_ingest_watermark(s: TableState, wm: Map<u128, u64>, ops: Seq<OpView>)
    ensures
        all_covered(ingest_spec(s, wm, ops).1, ops),
        forall|k: u128| #[trigger] wm.contains_key(k) ==> ingest_spec(s, wm, ops).1.contains_key(k)
            && wm[k] <= ingest_spec(s, wm, ops).1[k],
        forall|k: u128| #[trigger] ingest_spec(s, wm, ops).1.contains_key(k) ==>
            (wm.contains_key(k) && ingest_spec(s, wm, ops).1[k] == wm[k])
            || exists|i: int| 0 <= i < ops.len() && ops[i].instance == k
                && ops[i].timestamp == ingest_spec(s, wm, ops).1[k],
    decreases ops.len(),
{
    if ops.len() > 0 {
        let p = ops.drop_last();
        lemma_ingest_watermark(s, wm, p);
        let w = ingest_spec(s, wm, p).1;
        let o = ops.last();
        let w2 = ingest_spec(s, wm, ops).1;
        assert forall|i: int| 0 <= i < ops.len() implies covered(w2, #[trigger] ops[i]) by {
            if i < ops.len() - 1 {
                assert(ops[i] == p[i]);
                assert(covered(w, p[i]));
            }
        }
        assert forall|k: u128| #[trigger] w2.contains_key(k) implies
            (wm.contains_key(k) && w2[k] == wm[k])
            || exists|i: int| 0 <= i < ops.len() && ops[i].instance == k && ops[i].timestamp == w2[k] by {
            if k == o.instance && !covered(w, o) {
                assert(ops[ops.len() - 1] == o);
            } else {
                assert(w.contains_key(k) && w2[k] == w[k]);
                if !(wm.contains_key(k) && w[k] == wm[k]) {
                    let i = choose|i: int| 0 <= i < p.len() && p[i].instance == k && p[i].timestamp == w[k];
                    assert(ops[i] == p[i]);
                }
            }
        }
    }
}

/// Ingesting two sequences one after the other is ingesting their concatenation.
pub proof fn lemma_ingest_append(s: TableState, wm: Map<u128, u64>, a: Seq<OpView>, b: Seq<OpView>)
    ensures
        ingest_spec(s, wm, a + b) == ingest_spec(ingest_spec(s, wm, a).0, ingest_spec(s, wm, a).1, b),
    decreases b.len(),
{
    if b.len() == 0 {
        assert(a + b == a);
    } else {
        lemma_ingest_append(s, wm, a, b.drop_last());
        assert((a + b).drop_last() == a + b.drop_last());
        assert((a + b).last() == b.last());
    }
}

/// Ingesting skips what the watermark already covers, so leaving it out beforehand
/// changes nothing.
pub proof fn lemma_ingest_eligible(s: TableState, wm: Map<u128, u64>, ops: Seq<OpView>)
    ensures
        ingest_spec(s, wm, eligible(ops, wm)) == ingest_spec(s, wm, ops),
    decreases ops.len(),
{
    if ops.len() > 0 {
        let p = ops.drop_last();
        lemma_ingest_eligible(s, wm, p);
        let o = ops.last();
        if covered(wm, o) {
            lemma_ingest_watermark(s, wm, p);
            let w = ingest_spec(s, wm, p).1;
            assert(wm.contains_key(o.instance));
            assert(covered(w, o));
        } else {
            let e = eligible(p, wm);
            assert(e.push(o).drop_last() == e);
            assert(e.push(o).last() == o);
        }
    }
}

/// Once a watermark covers a batch, ingesting the batch again changes nothing.
pub proof fn lemma_ingest_covered(s: TableState, wm: Map<u128, u64>, ops: Seq<OpView>)
    requires
        all_covered(wm, ops),
    ensures
        ingest_spec(s, wm, ops) == (s, wm),
    decreases ops.len(),
{
    if ops.len() > 0 {
        let p = ops.drop_last();
        assert forall|i: int| 0 <= i < p.len() implies covered(wm, #[trigger] p[i]) by {
            assert(p[i] == ops[i]);
        }
        lemma_ingest_covered(s, wm, p);
        assert(covered(wm, ops[ops.len() - 1]));
    }
}

/// Ingesting the same batch twice leaves the table and the watermark as ingesting it
/// once does: overlapping or repeated deliveries are harmless.
pub proof fn lemma_ingest_idempotent(s: TableState, wm: Map<u128, u64>, ops: Seq<OpView>)
    ensures
        ingest_spec(ingest_spec(s, wm, ops).0, ingest_spec(s, wm, ops).1, ops) == ingest_spec(s, wm, ops),
{
    lemma_ingest_watermark(s, wm, ops);
    lemma_ingest_covered(ingest_spec(s, wm, ops).0, ingest_spec(s, wm, ops).1, ops);
}

/// Ingesting operations that are new to the watermark and ordered per instance
/// applies every one of them: the result is the replay of the whole sequence.
pub proof fn lemma_ingest_replays(s: TableState, wm: Map<u128, u64>, ops: Seq<OpView>)
    requires
        fresh_and_ordered(wm, ops),
    ensures
        ingest_spec(s, wm, ops).0 == replay(s, ops),
    decreases ops.len(),
{
    if ops.len() > 0 {
        let p = ops.drop_last();
        let o = ops.last();
        assert(fresh_and_ordered(wm, p)) by {
            assert forall|i: int| 0 <= i < p.len() implies !covered(wm, #[trigger] p[i]) by {
                assert(p[i] == ops[i]);
            }
        }
        lemma_ingest_replays(s, wm, p);
        lemma_ingest_watermark(s, wm, p);
        let w = ingest_spec(s, wm, p).1;
        if covered(w, o) {
            assert(w.contains_key(o.instance));
            assert(!covered(wm, ops[ops.len() - 1]));
            let i = choose|i: int| 0 <= i < p.len() && p[i].instance == o.instance && p[i].timestamp == w[o.instance];
            assert(ops[i] == p[i]);
            assert(false);
        }
    }
}

} // verus!

//! The operation log: every operation an instance has written or ingested, kept in
//! the global total order.
use vstd::prelude::*;
use crate::op::{CRDTOperation, OpView, op_le, ops_view, sorted};
use crate::watermark::{Watermark, covered};

verus! {

/// The log refused to store an operation.
#[derive(Debug, Clone, Copy, PartialEq, Eq, Structural)]
pub enum StorageError {
    /// An operation with the same identifier is already stored.
    DuplicateId,
}

/// The operations of `s` that the watermark does not cover, in the order of `s`.
pub open spec fn eligible(s: Seq<OpView>, wm: Map<u128, u64>) -> Seq<OpView>
    decreases s.len(),
{
    if s.len() == 0 {
        Seq::empty()
    } else {
        let p = eligible(s.drop_last(), wm);
        if covered(wm, s.last()) { p } else { p.push(s.last()) }
    }
}

/// The answer to a range query: the eligible operations, cut at `limit`.
pub open spec fn query_spec(s: Seq<OpView>, wm: Map<u128, u64>, limit: nat) -> Seq<OpView> {
    let e = eligible(s, wm);
    if e.len() <= limit { e } else { e.take(limit as int) }
}

/// Whether some operation of `s` has the identifier.
pub open spec fn has_id(s: Seq<OpView>, id: u128) -> bool {
    exists|i: int| 0 <= i < s.len() && s[i].id == id
}

/// Whether the operation is in `s`.
pub open spec fn has_op(s: Seq<OpView>, o: OpView) -> bool {
    exists|i: int| 0 <= i < s.len() && s[i] == o
}

/// No identifier occurs twice.
pub open spec fn ids_distinct(s: Seq<OpView>) -> bool {
    forall|i: int, j: int| 0 <= i < j < s.len() ==> s[i].id != s[j].id
}

/// `t` is `s` with `o` put at position `p`, after every operation that does not come
/// later than `o` and before every one that does.
pub open spec fn inserted_at(s: Seq<OpView>, t: Seq<OpView>, o: OpView, p: int) -> bool {
    &&& 0 <= p <= s.len()
    &&& t == s.insert(p, o)
    &&& forall|i: int| 0 <= i < p ==> op_le(s[i], o)
    &&& forall|i: int| p <= i < s.len() ==> !op_le(s[i], o)
}

/// Inserting an operation keeps the operations stored and adds itself.
pub proof fn lemma_inserted_ops(s: Seq<OpView>, t: Seq<OpView>, o: OpView, p: int)
    requires
        inserted_at(s, t, o, p),
    ensures
        forall|x: OpView| #[trigger] has_op(t, x) <==> (has_op(s, x) || x == o),
{
    assert forall|x: OpView| #[trigger] has_op(t, x) <==> (has_op(s, x) || x == o) by {
        if has_op(s, x) {
            let i = choose|i: int| 0 <= i < s.len() && s[i] == x;
            if i < p {
                assert(t[i] == s[i]);
            } else {
                assert(t[i + 1] == s[i]);
            }
        }
        if x == o {
            assert(t[p] == o);
        }
        if has_op(t, x) && x != o {
            let i = choose|i: int| 0 <= i < t.len() && t[i] == x;
            if i < p {
                assert(t[i] == s[i]);
            } else {
                assert(i != p);
                assert(t[i] == s[i - 1]);
            }
        }
    }
}

/// Inserting an operation keeps the identifiers stored and adds its own.
pub proof fn lemma_inserted_ids(s: Seq<OpView>, t: Seq<OpView>, o: OpView, p: int)
    requires
        inserted_at(s, t, o, p),
    ensures
        forall|x: u128| #[trigger] has_id(t, x) <==> (has_id(s, x) || x == o.id),
{
    assert forall|x: u128| #[trigger] has_id(t, x) <==> (has_id(s, x) || x == o.id) by {
        if has_id(s, x) {
            let i = choose|i: int| 0 <= i < s.len() && s[i].id == x;
            if i < p {
                assert(t[i] == s[i]);
            } else {
                assert(t[i + 1] == s[i]);
            }
        }
        if x == o.id {
            assert(t[p] == o);
        }
        if has_id(t, x) && x != o.id {
            let i = choose|i: int| 0 <= i < t.len() && t[i].id == x;
            if i < p {
                assert(t[i] == s[i]);
            } else {
                assert(i != p);
                assert(t[i] == s[i - 1]);
            }
        }
    }
}

/// The eligible operations of a prefix are a prefix of those of a longer prefix.
pub proof fn lemma_eligible_prefix(s: Seq<OpView>, wm: Map<u128, u64>, i: int, j: int)
    requires
        0 <= i <= j <= s.len(),
    ensures
        eligible(s.take(i), wm).len() <= eligible(s.take(j), wm).len(),
        eligible(s.take(j), wm).take(eligible(s.take(i), wm).len() as int) == eligible(s.take(i), wm),
    decreases j - i,
{
    if i < j {
        lemma_eligible_prefix(s, wm, i, j - 1);
        assert(s.take(j).drop_last() == s.take(j - 1));
        let a = eligible(s.take(i), wm);
        let b = eligible(s.take(j - 1), wm);
        assert(b.push(s.take(j).last()).take(a.len() as int) == b.take(a.len() as int));
    }
}

/// A query whose eligible operations outnumber `limit` answers exactly `limit` of
/// them, the first ones in order.
pub proof fn lemma_query_truncates(s: Seq<OpView>, wm: Map<u128, u64>, limit: nat)
    requires
        eligible(s, wm).len() > limit,
    ensures
        query_spec(s, wm, limit).len() == limit,
        query_spec(s, wm, limit) == eligible(s, wm).take(limit as int),
{
}

/// The eligible operations are the operations of `s` that the watermark does not
/// cover.
pub proof fn lemma_eligible_members(s: Seq<OpView>, wm: Map<u128, u64>)
    ensures
        forall|i: int| 0 <= i < s.len() && !covered(wm, s[i]) ==> has_op(eligible(s, wm), #[trigger] s[i]),
        forall|j: int| 0 <= j < eligible(s, wm).len() ==> !covered(wm, #[trigger] eligible(s, wm)[j])
            && has_op(s, eligible(s, wm)[j]),
    decreases s.len(),
{
    if s.len() > 0 {
        let p = s.drop_last();
        lemma_eligible_members(p, wm);
        let e = eligible(s, wm);
        let ep = eligible(p, wm);
        assert forall|i: int| 0 <= i < s.len() && !covered(wm, s[i]) implies has_op(e, #[trigger] s[i]) by {
            if i < s.len() - 1 {
                assert(p[i] == s[i]);
                let j = choose|j: int| 0 <= j < ep.len() && ep[j] == p[i];
                assert(e[j] == ep[j]);
            } else {
                assert(e[e.len() - 1] == s[i]);
            }
        }
        assert forall|j: int| 0 <= j < e.len() implies !covered(wm, #[trigger] e[j]) && has_op(s, e[j]) by {
            if j < ep.len() {
                assert(e[j] == ep[j]);
                let k = choose|k: int| 0 <= k < p.len() && p[k] == ep[j];
                assert(s[k] == p[k]);
            } else {
                assert(e[j] == s[s.len() - 1]);
            }
        }
    }
}

/// A watermark that covers more leaves fewer operations eligible, and strictly fewer
/// when it covers one that the other did not.
pub proof fn lemma_eligible_shrinks(s: Seq<OpView>, wm: Map<u128, u64>, wm2: Map<u128, u64>, i: int)
    requires
        forall|o: OpView| #[trigger] covered(wm, o) ==> covered(wm2, o),
    ensures
        eligible(s, wm2).len() <= eligible(s, wm).len(),
        0 <= i < s.len() && !covered(wm, s[i]) && covered(wm2, s[i])
            ==> eligible(s, wm2).len() < eligible(s, wm).len(),
    decreases s.len(),
{
    if s.len() > 0 {
        let p = s.drop_last();
        lemma_eligible_shrinks(p, wm, wm2, i);
        if 0 <= i < p.len() {
            assert(p[i] == s[i]);
        }
    }
}

/// The answer to a query on a log in the global order is in the global order.
pub proof fn lemma_query_sorted(s: Seq<OpView>, wm: Map<u128, u64>, limit: nat)
    requires
        sorted(s),
    ensures
        sorted(eligible(s, wm)),
        sorted(query_spec(s, wm, limit)),
    decreases s.len(),
{
    if s.len() > 0 {
        let p = s.drop_last();
        assert(sorted(p));
        lemma_query_sorted(p, wm, limit);
        lemma_eligible_members(p, wm);
        let e = eligible(s, wm);
        let ep = eligible(p, wm);
        if !covered(wm, s.last()) {
            assert forall|i: int, j: int| 0 <= i < j < e.len() implies op_le(e[i], e[j]) by {
                if j == e.len() - 1 {
                    assert(has_op(p, ep[i]));
                    let k = choose|k: int| 0 <= k < p.len() && p[k] == ep[i];
                    assert(s[k] == p[k]);
                    assert(op_le(s[k], s[s.len() - 1]));
                } else {
                    assert(e[i] == ep[i] && e[j] == ep[j]);
                }
            }
        }
    }
    let e = eligible(s, wm);
    if e.len() > limit {
        assert forall|i: int, j: int| 0 <= i < j < e.take(limit as int).len() implies op_le(e.take(limit as int)[i], e.take(limit as int)[j]) by {
            assert(e.take(limit as int)[i] == e[i] && e.take(limit as int)[j] == e[j]);
        }
    }
}

/// Filtering distributes over concatenation.
pub proof fn lemma_eligible_concat(a: Seq<OpView>, b: Seq<OpView>, wm: Map<u128, u64>)
    ensures
        eligible(a + b, wm) == eligible(a, wm) + eligible(b, wm),
    decreases b.len(),
{
    if b.len() == 0 {
        assert(a + b == a);
        assert(eligible(a, wm) + eligible(b, wm) == eligible(a, wm));
    } else {
        lemma_eligible_concat(a, b.drop_last(), wm);
        assert((a + b).drop_last() == a + b.drop_last());
        assert((a + b).last() == b.last());
        if !covered(wm, b.last()) {
            assert(eligible(a, wm) + eligible(b.drop_last(), wm).push(b.last())
                == (eligible(a, wm) + eligible(b.drop_last(), wm)).push(b.last()));
        }
    }
}

/// Nothing of a sequence that the watermark covers whole is eligible.
pub proof fn lemma_eligible_none(s: Seq<OpView>, wm: Map<u128, u64>)
    requires
        forall|i: int| 0 <= i < s.len() ==> covered(wm, #[trigger] s[i]),
    ensures
        eligible(s, wm) == Seq::<OpView>::empty(),
    decreases s.len(),
{
    if s.len() > 0 {
        let p = s.drop_last();
        assert forall|i: int| 0 <= i < p.len() implies covered(wm, #[trigger] p[i]) by {
            assert(p[i] == s[i]);
        }
        lemma_eligible_none(p, wm);
        assert(covered(wm, s[s.len() - 1]));
    }
}

/// Filtering by a watermark that covers more after one that covers less is filtering
/// by the first alone.
pub proof fn lemma_eligible_twice(s: Seq<OpView>, wm: Map<u128, u64>, wm2: Map<u128, u64>)
    requires
        forall|o: OpView| #[trigger] covered(wm, o) ==> covered(wm2, o),
    ensures
        eligible(eligible(s, wm), wm2) == eligible(s, wm2),
    decreases s.len(),
{
    if s.len() > 0 {
        let p = s.drop_last();
        lemma_eligible_twice(p, wm, wm2);
        if !covered(wm, s.last()) {
            let e = eligible(p, wm);
            assert(e.push(s.last()).drop_last() == e);
            assert(e.push(s.last()).last() == s.last());
        }
    }
}

/// With an empty watermark every operation is eligible.
pub proof fn lemma_eligible_all(s: Seq<OpView>)
    ensures
        eligible(s, Map::empty()) == s,
    decreases s.len(),
{
    if s.len() > 0 {
        lemma_eligible_all(s.drop_last());
        assert(s.drop_last().push(s.last()) == s);
    }
}

/// Append-only store of operations, ordered by timestamp and then by instance.
pub struct OpLog {
    ops: Vec<CRDTOperation>,
}

impl View for OpLog {
    type V = Seq<OpView>;

    closed spec fn view(&self) -> Seq<OpView> {
        ops_view(self.ops@)
    }
}

impl OpLog {
    pub closed spec fn wf(&self) -> bool {
        &&& sorted(self@)
        &&& ids_distinct(self@)
    }

    /// A well-formed log is in the global order, each identifier once.
    pub proof fn lemma_wf(&self)
        requires
            self.wf(),
        ensures
            sorted(self@),
            ids_distinct(self@),
    {
    }

    /// A log with no operations.
    pub fn new() -> (r: OpLog)
        ensures
            r.wf(),
            r@ == Seq::<OpView>::empty(),
    {
        let r = OpLog { ops: Vec::new() };
        assert(r@ =~= Seq::<OpView>::empty());
        r
    }

    /// The number of stored operations.
    pub fn len(&self) -> (r: usize)
        ensures
            r == self@.len(),
    {
        self.ops.len()
    }

    /// Whether an operation with the identifier is stored.
    pub fn contains_id(&self, id: u128) -> (r: bool)
        ensures
            r == has_id(self@, id),
    {
        let mut i: usize = 0;
        while i < self.ops.len()
            invariant
                i <= self@.len(),
                self@.len() == self.ops@.len(),
                forall|j: int| 0 <= j < i ==> self@[j].id != id,
            decreases self.ops.len() - i,
        {
            assert(self@[i as int] == self.ops@[i as int]@);
            if self.ops[i].id == id {
                return true;
            }
            i = i + 1;
        }
        false
    }

    /// Puts the operation at its place in the order and returns that place.
    fn insert_sorted(&mut self, op: CRDTOperation) -> (r: usize)
        requires
            old(self).wf(),
            !has_id(old(self)@, op.id),
        ensures
            final(self).wf(),
            inserted_at(old(self)@, final(self)@, op@, r as int),
    {
        let ghost s = self@;
        let mut i: usize = 0;
        while i < self.ops.len() && self.ops[i].le(&op)
            invariant
                i <= s.len(),
                s == self@,
                s.len() == self.ops@.len(),
                forall|j: int| 0 <= j < i ==> op_le(s[j], op@),
            decreases self.ops.len() - i,
        {
            assert(s[i as int] == self.ops@[i as int]@);
            i = i + 1;
        }
        assert(i < s.len() ==> s[i as int] == self.ops@[i as int]@);
        assert forall|j: int| i <= j < s.len() implies !op_le(s[j], op@) by {
            assert(op_le(s[i as int], s[j]));
        }
        let ghost o = op@;
        self.ops.insert(i, op);
        assert(self@ =~= s.insert(i as int, o));
        let ghost t = self@;
        assert forall|a: int, b: int| 0 <= a < b < t.len() implies op_le(t[a], t[b]) by {
            if a < i && b == i {
            } else if a < i && b > i {
                assert(t[b] == s[b - 1]);
            } else if a == i {
                assert(t[b] == s[b - 1]);
            } else if a > i {
                assert(t[a] == s[a - 1] && t[b] == s[b - 1]);
            } else {
                assert(t[a] == s[a] && t[b] == s[b]);
            }
        }
        assert forall|a: int, b: int| 0 <= a < b < t.len() implies t[a].id != t[b].id by {
            let a2 = if a < i { a } else { a - 1 };
            let b2 = if b < i { b } else { b - 1 };
            if a != i && b != i {
                assert(t[a] == s[a2] && t[b] == s[b2]);
            } else if a == i {
                assert(t[b] == s[b2]);
            } else {
                assert(t[a] == s[a2]);
            }
        }
        i
    }

    /// Stores the operation at its place in the order and returns that place; refused when an operation with
    /// the same identifier is stored already.
    pub fn append(&mut self, op: CRDTOperation) -> (r: Result<usize, StorageError>)
        requires
            old(self).wf(),
        ensures
            final(self).wf(),
            r is Err <==> has_id(old(self)@, op.id),
            r is Err ==> final(self)@ == old(self)@,
            r matches Ok(p) ==> inserted_at(old(self)@, final(self)@, op@, p as int),
    {
        if self.contains_id(op.id) {
            Err(StorageError::DuplicateId)
        } else {
            Ok(self.insert_sorted(op))
        }
    }

    /// The operations the watermark does not cover, in the log's order, at most `limit`
    /// of them. A result of exactly `limit` operations means that more may exist.
    pub fn query(&self, wm: &Watermark, limit: usize) -> (r: Vec<CRDTOperation>)
        requires
            wm.wf(),
        ensures
            ops_view(r@) == query_spec(self@, wm@, limit as nat),
    {
        let ghost s = self@;
        let mut r: Vec<CRDTOperation> = Vec::new();
        let mut i: usize = 0;
        assert(ops_view(r@) =~= eligible(s.take(0), wm@));
        while i < self.ops.len() && r.len() < limit
            invariant
                i <= s.len(),
                s == self@,
                s.len() == self.ops@.len(),
                wm.wf(),
                r.len() <= limit,
                ops_view(r@) == eligible(s.take(i as int), wm@),
            decreases self.ops.len() - i,
        {
            let op = &self.ops[i];
            assert(s[i as int] == op@);
            assert(s.take(i + 1).drop_last() == s.take(i as int));
            let ghost before = r@;
            if !wm.covers(op.instance, op.timestamp) {
                r.push(op.copy());
                assert(ops_view(r@) =~= ops_view(before).push(op@));
            }
            i = i + 1;
        }
        proof {
            lemma_eligible_prefix(s, wm@, i as int, s.len() as int);
            assert(s.take(s.len() as int) == s);
        }
        r
    }
}

} // verus!

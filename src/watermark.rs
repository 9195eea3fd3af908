//! Watermarks: per instance, the highest timestamp already applied from it.
use vstd::prelude::*;
use crate::assoc::{map_of, keys_distinct, lemma_map_of, lemma_map_of_update, lemma_push_distinct};
use crate::op::OpView;

verus! {

/// An operation is covered when its origin's entry is at or past its timestamp.
pub open spec fn covered(wm: Map<u128, u64>, o: OpView) -> bool {
    wm.contains_key(o.instance) && o.timestamp <= wm[o.instance]
}

/// The watermark after seeing `ts` from `instance`: the entry only ever grows.
pub open spec fn advanced(wm: Map<u128, u64>, instance: u128, ts: u64) -> Map<u128, u64> {
    if wm.contains_key(instance) && ts <= wm[instance] {
        wm
    } else {
        wm.insert(instance, ts)
    }
}

/// A mapping from instance to last applied timestamp, one entry per instance.
pub struct Watermark {
    entries: Vec<(u128, u64)>,
}

impl View for Watermark {
    type V = Map<u128, u64>;

    closed spec fn view(&self) -> Map<u128, u64> {
        map_of(self.entries@)
    }
}

impl Watermark {
    pub closed spec fn wf(&self) -> bool {
        keys_distinct(self.entries@)
    }

    /// The watermark that covers nothing.
    pub fn new() -> (r: Watermark)
        ensures
            r.wf(),
            r@ == Map::<u128, u64>::empty(),
    {
        Watermark { entries: Vec::new() }
    }

    /// The entries, one pair per instance.
    pub fn entries(&self) -> (r: &Vec<(u128, u64)>)
        requires
            self.wf(),
        ensures
            keys_distinct(r@),
            map_of(r@) == self@,
    {
        &self.entries
    }

    fn find(&self, instance: u128) -> (r: Option<usize>)
        requires
            self.wf(),
        ensures
            match r {
                Some(i) => i < self.entries@.len() && self.entries@[i as int].0 == instance,
                None => !self@.contains_key(instance),
            },
    {
        let mut i: usize = 0;
        while i < self.entries.len()
            invariant
                i <= self.entries@.len(),
                forall|j: int| 0 <= j < i ==> self.entries@[j].0 != instance,
            decreases self.entries.len() - i,
        {
            if self.entries[i].0 == instance {
                return Some(i);
            }
            i = i + 1;
        }
        proof {
            lemma_map_of(self.entries@);
        }
        None
    }

    /// The entry of `instance`, if there is one.
    pub fn get(&self, instance: u128) -> (r: Option<u64>)
        requires
            self.wf(),
        ensures
            r == (if self@.contains_key(instance) { Some(self@[instance]) } else { None::<u64> }),
    {
        match self.find(instance) {
            Some(i) => {
                proof {
                    lemma_map_of(self.entries@);
                }
                Some(self.entries[i].1)
            },
            None => None,
        }
    }

    /// Whether `instance`'s entry is at or past `timestamp`.
    pub fn covers(&self, instance: u128, timestamp: u64) -> (r: bool)
        requires
            self.wf(),
        ensures
            r == (self@.contains_key(instance) && timestamp <= self@[instance]),
    {
        match self.get(instance) {
            Some(t) => timestamp <= t,
            None => false,
        }
    }

    /// Raises `instance`'s entry to `ts` unless it is already at or past it.
    pub fn advance(&mut self, instance: u128, ts: u64)
        requires
            old(self).wf(),
        ensures
            final(self).wf(),
            final(self)@ == advanced(old(self)@, instance, ts),
    {
        proof {
            lemma_map_of(self.entries@);
        }
        match self.find(instance) {
            Some(i) => {
                if self.entries[i].1 < ts {
                    proof {
                        lemma_map_of_update(self.entries@, i as int, ts);
                    }
                    self.entries.set(i, (instance, ts));
                }
            },
            None => {
                proof {
                    lemma_push_distinct(self.entries@, (instance, ts));
                }
                self.entries.push((instance, ts));
            },
        }
    }
}

} // verus!

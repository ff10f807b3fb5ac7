//! The pending reminders: a set keyed by text and time, filled as documents
//! arrive and emptied as reminders fall due.
use vstd::prelude::*;
use crate::document::Org;
use crate::reminder::{keys_of, local_now, sections_reminders, Reminder};

verus! {

/// `ks` with `k` added at the end, unless it is there already.
pub open spec fn insert_key(ks: Seq<(Seq<char>, i64)>, k: (Seq<char>, i64)) -> Seq<(Seq<char>, i64)> {
    if ks.contains(k) {
        ks
    } else {
        ks.push(k)
    }
}

/// `ks` with each key of `new` added in turn.
pub open spec fn insert_keys(ks: Seq<(Seq<char>, i64)>, new: Seq<(Seq<char>, i64)>) -> Seq<(Seq<char>, i64)>
    decreases new.len(),
{
    if new.len() == 0 {
        ks
    } else {
        insert_key(insert_keys(ks, new.subrange(0, new.len() - 1)), new.last())
    }
}

/// The keys of `ks` whose time lies before `now`, in order.
pub open spec fn due_keys(ks: Seq<(Seq<char>, i64)>, now: i64) -> Seq<(Seq<char>, i64)>
    decreases ks.len(),
{
    if ks.len() == 0 {
        seq![]
    } else {
        due_keys(ks.drop_last(), now) + if ks.last().1 < now {
            seq![ks.last()]
        } else {
            seq![]
        }
    }
}

/// The keys of `ks` whose time does not lie before `now`, in order.
pub open spec fn kept_keys(ks: Seq<(Seq<char>, i64)>, now: i64) -> Seq<(Seq<char>, i64)>
    decreases ks.len(),
{
    if ks.len() == 0 {
        seq![]
    } else {
        kept_keys(ks.drop_last(), now) + if ks.last().1 < now {
            seq![]
        } else {
            seq![ks.last()]
        }
    }
}

/// The keys of `ks` whose time lies after `now`, in order.
pub open spec fn future_keys(ks: Seq<(Seq<char>, i64)>, now: i64) -> Seq<(Seq<char>, i64)>
    decreases ks.len(),
{
    if ks.len() == 0 {
        seq![]
    } else {
        future_keys(ks.drop_last(), now) + if ks.last().1 > now {
            seq![ks.last()]
        } else {
            seq![]
        }
    }
}

/// The reminders waiting to fire, no two with the same text and time.
#[derive(Debug)]
pub struct Pending {
    entries: Vec<Reminder>,
}

impl Pending {
    /// The keys of the pending reminders, in the order they came.
    pub closed spec fn keys(&self) -> Seq<(Seq<char>, i64)> {
        keys_of(self.entries@)
    }

    pub open spec fn wf(&self) -> bool {
        self.keys().no_duplicates()
    }

    pub fn new() -> (r: Pending)
        ensures
            r.wf(),
            r.keys() == Seq::<(Seq<char>, i64)>::empty(),
    {
        let r = Pending { entries: Vec::new() };
        proof {
            assert(r.keys() =~= Seq::<(Seq<char>, i64)>::empty());
        }
        r
    }

    pub fn len(&self) -> (r: usize)
        ensures
            r == self.keys().len(),
    {
        self.entries.len()
    }

    /// The pending reminders, in the order they came.
    pub fn entries(&self) -> (r: &Vec<Reminder>)
        ensures
            keys_of(r@) == self.keys(),
    {
        &self.entries
    }

    /// Whether a reminder with the text and time of `r` is pending.
    pub fn contains(&self, r: &Reminder) -> (b: bool)
        ensures
            b == self.keys().contains(r.key()),
    {
        let mut i: usize = 0;
        while i < self.entries.len()
            invariant
                i <= self.entries@.len(),
                forall|j: int| 0 <= j < i ==> #[trigger] self.keys()[j] != r.key(),
            decreases self.entries@.len() - i,
        {
            if self.entries[i].title == r.title && self.entries[i].datetime == r.datetime {
                proof {
                    assert(self.keys()[i as int] == r.key());
                }
                return true;
            }
            i += 1;
        }
        false
    }

    /// Adds `r` unless a reminder with its text and time is pending; says whether it was added.
    pub fn insert(&mut self, r: Reminder) -> (added: bool)
        requires
            old(self).wf(),
        ensures
            final(self).wf(),
            final(self).keys() == insert_key(old(self).keys(), r.key()),
            added == !old(self).keys().contains(r.key()),
    {
        if self.contains(&r) {
            false
        } else {
            let ghost k = r.key();
            self.entries.push(r);
            proof {
                assert(self.keys() =~= old(self).keys().push(k));
            }
            true
        }
    }

    /// Adds the reminders of `org` at the time `now` whose time lies after
    /// `now`, each unless one with its text and time is pending; says how many
    /// were added.
    pub fn add_document(&mut self, org: &Org, now: i64) -> (added: usize)
        requires
            old(self).wf(),
        ensures
            final(self).wf(),
            final(self).keys() == insert_keys(
                old(self).keys(),
                future_keys(sections_reminders(org.sections@, now), now),
            ),
            added == final(self).keys().len() - old(self).keys().len(),
    {
        let rs = org.get_reminders_at(now);
        let ghost all = keys_of(rs@);
        let mut rs = rs;
        let start_len = self.entries.len();
        let ghost mut k: int = 0;
        let ghost start = self.keys();
        while rs.len() > 0
            invariant
                self.wf(),
                0 <= k <= all.len(),
                all.len() == k + rs@.len(),
                keys_of(rs@) == all.subrange(k, all.len() as int),
                self.keys() == insert_keys(start, future_keys(all.subrange(0, k), now)),
                start_len == start.len(),
                self.keys().len() >= start.len(),
            decreases rs@.len(),
        {
            let ghost rs_old = rs@;
            let r = rs.remove(0);
            proof {
                assert(keys_of(rs_old)[0] == all[k]);
                assert(r.key() == all[k]);
                assert(all.subrange(0, k + 1).drop_last() =~= all.subrange(0, k));
                assert(all.subrange(0, k + 1).last() == all[k]);
                assert forall|x: int| 0 <= x < rs@.len() implies #[trigger] keys_of(rs@)[x] == all[k + 1 + x] by {
                    assert(rs@[x] == rs_old[x + 1]);
                    assert(keys_of(rs_old)[x + 1] == all.subrange(k, all.len() as int)[x + 1]);
                }
                assert(keys_of(rs@) =~= all.subrange(k + 1, all.len() as int));
            }
            if now < r.datetime {
                let ghost before = self.keys();
                self.insert(r);
                proof {
                    let f = future_keys(all.subrange(0, k + 1), now);
                    assert(f == future_keys(all.subrange(0, k), now).push(all[k]));
                    assert(f.subrange(0, f.len() - 1) =~= future_keys(all.subrange(0, k), now));
                }
            } else {
                proof {
                    assert(future_keys(all.subrange(0, k + 1), now) =~= future_keys(all.subrange(0, k), now));
                }
            }
            proof {
                k = k + 1;
            }
        }
        proof {
            assert(all.subrange(0, all.len() as int) =~= all);
        }
        self.entries.len() - start_len
    }

    /// Removes the reminders whose time lies before `now` and returns them, in order.
    pub fn take_due(&mut self, now: i64) -> (due: Vec<Reminder>)
        requires
            old(self).wf(),
        ensures
            final(self).wf(),
            keys_of(due@) == due_keys(old(self).keys(), now),
            final(self).keys() == kept_keys(old(self).keys(), now),
    {
        let mut rest: Vec<Reminder> = Vec::new();
        std::mem::swap(&mut rest, &mut self.entries);
        let ghost orig = keys_of(rest@);
        let ghost n = orig.len();
        let mut due: Vec<Reminder> = Vec::new();
        let ghost mut k: int = 0;
        let ghost mut idx: Seq<int> = seq![];
        while rest.len() > 0
            invariant
                orig.no_duplicates(),
                n == orig.len(),
                0 <= k <= n,
                rest@.len() == n - k,
                keys_of(rest@) == orig.subrange(k, n as int),
                keys_of(due@) == due_keys(orig.subrange(0, k), now),
                self.keys() == kept_keys(orig.subrange(0, k), now),
                idx.len() == self.keys().len(),
                forall|m: int| 0 <= m < idx.len() ==> 0 <= #[trigger] idx[m] < k && self.keys()[m] == orig[idx[m]],
                forall|m: int, p: int| 0 <= m < p < idx.len() ==> idx[m] < idx[p],
            decreases rest@.len(),
        {
            let ghost rest_old = rest@;
            let r = rest.remove(0);
            proof {
                assert(keys_of(rest_old)[0] == orig[k]);
                assert(r.key() == orig[k]);
                assert(orig.subrange(0, k + 1).drop_last() =~= orig.subrange(0, k));
                assert(orig.subrange(0, k + 1).last() == orig[k]);
                assert forall|x: int| 0 <= x < rest@.len() implies #[trigger] keys_of(rest@)[x] == orig[k + 1 + x] by {
                    assert(rest@[x] == rest_old[x + 1]);
                    assert(keys_of(rest_old)[x + 1] == orig.subrange(k, n as int)[x + 1]);
                }
                assert(keys_of(rest@) =~= orig.subrange(k + 1, n as int));
            }
            if r.datetime < now {
                let ghost before = due@;
                due.push(r);
                proof {
                    assert(keys_of(due@) =~= keys_of(before).push(orig[k]));
                }
            } else {
                let ghost before = self.keys();
                self.entries.push(r);
                proof {
                    assert(self.keys() =~= before.push(orig[k]));
                    idx = idx.push(k);
                }
            }
            proof {
                k = k + 1;
            }
        }
        proof {
            assert(orig.subrange(0, n as int) =~= orig);
            assert forall|a: int, b: int|
                0 <= a < self.keys().len() && 0 <= b < self.keys().len() && a != b implies self.keys()[a]
                != self.keys()[b] by {
                if a < b {
                    assert(idx[a] < idx[b]);
                } else {
                    assert(idx[b] < idx[a]);
                }
            }
        }
        due
    }

    /// Removes and returns the reminders due at the local time now.
    pub fn tick(&mut self) -> (due: Vec<Reminder>)
        requires
            old(self).wf(),
        ensures
            final(self).wf(),
            exists|now: i64|
                keys_of(due@) == due_keys(old(self).keys(), now) && final(self).keys() == kept_keys(
                    old(self).keys(),
                    now,
                ),
    {
        let now = local_now();
        self.take_due(now)
    }

    /// Adds the reminders of `org` that lie after the local time now (see `add_document`).
    pub fn receive(&mut self, org: &Org) -> (added: usize)
        requires
            old(self).wf(),
        ensures
            final(self).wf(),
            exists|now: i64|
                final(self).keys() == insert_keys(
                    old(self).keys(),
                    future_keys(sections_reminders(org.sections@, now), now),
                ),
            added == final(self).keys().len() - old(self).keys().len(),
    {
        let now = local_now();
        self.add_document(org, now)
    }
}

} // verus!

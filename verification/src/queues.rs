//! Deduplicated work queues keyed by stable problem indices.
//! A drained batch is distinct from the next scheduling round.

use vstd::prelude::*;

verus! {

/// The queue `entries` after `index` is scheduled: nothing is scheduled twice,
/// and what was scheduled first stays first.
pub open spec fn scheduled(entries: Seq<usize>, index: usize) -> Seq<usize> {
    if entries.contains(index) {
        entries
    } else {
        entries.push(index)
    }
}

/// Indices waiting to be processed, each at most once, in first-push order.
#[derive(Clone, Debug)]
pub struct Worklist {
    entries: Vec<usize>,
    queued: Vec<bool>,
}

impl View for Worklist {
    type V = Seq<usize>;

    closed spec fn view(&self) -> Seq<usize> {
        self.entries@
    }
}

impl Worklist {
    /// Entries are distinct, and the flags mark exactly the entries.
    pub closed spec fn wf(&self) -> bool {
        &&& self.entries@.no_duplicates()
        &&& forall|i: int|
            0 <= i < self.entries@.len() ==> (#[trigger] self.entries@[i]) < self.queued@.len()
        &&& forall|k: usize|
            k < self.queued@.len() ==> (#[trigger] self.queued@[k as int]
                <==> self.entries@.contains(k))
    }

    pub fn new(size: usize) -> (queue: Self)
        ensures
            queue.wf(),
            queue@ == Seq::<usize>::empty(),
    {
        Worklist { entries: Vec::new(), queued: vec![false; size] }
    }

    /// Schedule `index` unless it is already waiting.
    pub fn push(&mut self, index: usize)
        requires
            old(self).wf(),
            index < usize::MAX,
        ensures
            final(self).wf(),
            final(self)@ == scheduled(old(self)@, index),
    {
        if index >= self.queued.len() {
            self.queued.resize(index + 1, false);
        }
        proof {
            assert forall|k: usize| k < self.queued@.len() implies (
            #[trigger] self.queued@[k as int] <==> self.entries@.contains(k)) by {
                if k < old(self).queued@.len() {
                    assert(self.queued@.subrange(0, old(self).queued@.len() as int)[k as int]
                        == old(self).queued@[k as int]);
                } else if self.entries@.contains(k) {
                    let i = choose|i: int| 0 <= i < self.entries@.len() && self.entries@[i] == k;
                    assert(self.entries@[i] < old(self).queued@.len());
                }
            }
        }
        if !self.queued[index] {
            self.queued.set(index, true);
            self.entries.push(index);
            proof {
                let before = old(self).entries@;
                assert(self.entries@ == before.push(index));
                assert forall|k: usize| k < self.queued@.len() implies (
                #[trigger] self.queued@[k as int] <==> self.entries@.contains(k)) by {
                    if before.contains(k) {
                        let i = choose|i: int| 0 <= i < before.len() && before[i] == k;
                        assert(self.entries@[i] == k);
                    }
                    if k == index {
                        assert(self.entries@[before.len() as int] == k);
                    }
                }
            }
        }
    }

    /// The most recently scheduled index.
    pub fn pop(&mut self) -> (index: Option<usize>)
        requires
            old(self).wf(),
        ensures
            final(self).wf(),
            old(self)@.len() == 0 ==> index is None && final(self)@ == old(self)@,
            old(self)@.len() > 0 ==> index == Some(old(self)@.last()) && final(self)@
                == old(self)@.drop_last(),
    {
        let index = match self.entries.pop() {
            None => {
                return None;
            },
            Some(index) => index,
        };
        self.queued.set(index, false);
        proof {
            let before = old(self).entries@;
            assert(before.last() == index);
            assert forall|k: usize| k < self.queued@.len() implies (
            #[trigger] self.queued@[k as int] <==> self.entries@.contains(k)) by {
                if before.contains(k) && k != index {
                    let i = choose|i: int| 0 <= i < before.len() && before[i] == k;
                    assert(self.entries@[i] == k);
                }
            }
        }
        Some(index)
    }

    /// Clear the flag of every index in `round`, which are exactly the flags set.
    fn unmark(queued: &mut Vec<bool>, round: &Vec<usize>)
        requires
            forall|i: int| 0 <= i < round@.len() ==> (#[trigger] round@[i]) < old(queued)@.len(),
            forall|k: usize|
                k < old(queued)@.len() && #[trigger] old(queued)@[k as int] ==> round@.contains(k),
        ensures
            final(queued)@.len() == old(queued)@.len(),
            forall|k: int| 0 <= k < final(queued)@.len() ==> !#[trigger] final(queued)@[k],
    {
        let mut at: usize = 0;
        proof {
            assert(round@.skip(0) =~= round@);
        }
        while at < round.len()
            invariant
                at <= round@.len(),
                queued@.len() == old(queued)@.len(),
                forall|i: int| 0 <= i < round@.len() ==> (#[trigger] round@[i]) < queued@.len(),
                forall|k: usize|
                    k < queued@.len() && #[trigger] queued@[k as int] ==> round@.skip(
                        at as int,
                    ).contains(k),
            decreases round@.len() - at,
        {
            let ghost before = queued@;
            queued.set(round[at], false);
            proof {
                let tail = round@.skip(at as int);
                let rest = round@.skip(at + 1);
                assert forall|k: usize| k < queued@.len() && #[trigger] queued@[k as int] implies
                rest.contains(k) by {
                    assert(before[k as int]);
                    let i = choose|i: int| 0 <= i < tail.len() && tail[i] == k;
                    assert(tail[0] == round@[at as int]);
                    assert(rest[i - 1] == k);
                }
            }
            at = at + 1;
        }
        proof {
            assert(queued.len() == queued@.len());
            assert forall|k: int| 0 <= k < queued@.len() implies !#[trigger] queued@[k] by {
                if queued@[k] {
                    assert(queued@[(k as usize) as int]);
                    assert(round@.skip(at as int).contains(k as usize));
                }
            }
        }
    }

    /// Take every waiting index. Indices pushed from now on belong to the next round.
    pub fn take_round(&mut self) -> (round: Vec<usize>)
        requires
            old(self).wf(),
        ensures
            final(self).wf(),
            round@ == old(self)@,
            final(self)@ == Seq::<usize>::empty(),
            round@.no_duplicates(),
    {
        let mut round: Vec<usize> = Vec::new();
        self.swap_round(&mut round);
        round
    }

    /// Move the current round into `round`, whose allocation receives the next round.
    pub fn swap_round(&mut self, round: &mut Vec<usize>)
        requires
            old(self).wf(),
        ensures
            final(self).wf(),
            final(round)@ == old(self)@,
            final(self)@ == Seq::<usize>::empty(),
            final(round)@.no_duplicates(),
    {
        round.clear();
        std::mem::swap(&mut self.entries, round);
        Self::unmark(&mut self.queued, round);
    }

    /// Reuse the allocation for a different index space, discarding entries.
    pub fn reset(&mut self, size: usize)
        requires
            old(self).wf(),
        ensures
            final(self).wf(),
            final(self)@ == Seq::<usize>::empty(),
    {
        self.clear();
        self.queued.clear();
        self.queued.resize(size, false);
    }

    pub fn clear(&mut self)
        requires
            old(self).wf(),
        ensures
            final(self).wf(),
            final(self)@ == Seq::<usize>::empty(),
    {
        Self::unmark(&mut self.queued, &self.entries);
        self.entries.clear();
    }

    pub fn is_empty(&self) -> (b: bool)
        ensures
            b == (self@.len() == 0),
    {
        self.entries.len() == 0
    }

    /// The waiting indices, in first-push order, which stay scheduled.
    pub fn iter(&self) -> (indices: Vec<usize>)
        ensures
            indices@ == self@,
    {
        self.entries.clone()
    }
}

const PROPAGATION: u8 = 1;

const SINGLETON: u8 = 2;

spec fn flagged(flags: u8, bit: u8) -> bool {
    (flags / bit) % 2 == 1
}

/// Rows whose activity changed, queued for bound propagation and for the
/// singleton-column scan. Every change is pushed to both consumers, so one
/// flag byte per row serves both lists. Each list keeps its own first-push
/// order and is drained independently.
#[derive(Clone, Debug)]
pub struct ActivityRows {
    flags: Vec<u8>,
    propagation: Vec<usize>,
    singleton: Vec<usize>,
}

/// One consumer's list agrees with its bit of the shared flags.
spec fn consistent(entries: Seq<usize>, flags: Seq<u8>, bit: u8) -> bool {
    &&& entries.no_duplicates()
    &&& forall|i: int| 0 <= i < entries.len() ==> (#[trigger] entries[i]) < flags.len()
    &&& forall|k: usize|
        k < flags.len() ==> (flagged(#[trigger] flags[k as int], bit) <==> entries.contains(k))
}

impl ActivityRows {
    pub closed spec fn wf(&self) -> bool {
        &&& consistent(self.propagation@, self.flags@, PROPAGATION)
        &&& consistent(self.singleton@, self.flags@, SINGLETON)
        &&& forall|k: int| 0 <= k < self.flags@.len() ==> (#[trigger] self.flags@[k]) < 4
    }

    /// Number of rows that can be scheduled.
    pub closed spec fn rows(&self) -> nat {
        self.flags@.len()
    }

    /// Rows waiting for bound propagation.
    pub closed spec fn propagation(&self) -> Seq<usize> {
        self.propagation@
    }

    /// Rows waiting for the singleton-column scan.
    pub closed spec fn singleton(&self) -> Seq<usize> {
        self.singleton@
    }

    pub fn new(rows: usize) -> (queue: Self)
        ensures
            queue.wf(),
            queue.rows() == rows,
            queue.propagation() == Seq::<usize>::empty(),
            queue.singleton() == Seq::<usize>::empty(),
    {
        ActivityRows { flags: vec![0u8; rows], propagation: Vec::new(), singleton: Vec::new() }
    }

    fn pending(flags: u8, bit: u8) -> (b: bool)
        requires
            bit == PROPAGATION || bit == SINGLETON,
        ensures
            b == flagged(flags, bit),
    {
        (flags / bit) % 2 == 1
    }

    /// Schedule `row` for both consumers.
    pub fn push(&mut self, row: usize)
        requires
            old(self).wf(),
            row < old(self).rows(),
        ensures
            final(self).wf(),
            final(self).rows() == old(self).rows(),
            final(self).propagation() == scheduled(old(self).propagation(), row),
            final(self).singleton() == scheduled(old(self).singleton(), row),
    {
        let flags: u8 = self.flags[row];
        if !Self::pending(flags, PROPAGATION) {
            self.propagation.push(row);
        }
        if !Self::pending(flags, SINGLETON) {
            self.singleton.push(row);
        }
        self.flags.set(row, PROPAGATION + SINGLETON);
        proof {
            scheduled_membership(old(self).propagation@, row);
            scheduled_membership(old(self).singleton@, row);
            assert(flagged(3, PROPAGATION) && flagged(3, SINGLETON));
        }
    }

    /// Take one consumer's list, leaving the other's bit in every flag.
    fn drain(entries: &mut Vec<usize>, flags: &mut Vec<u8>, bit: u8) -> (round: Vec<usize>)
        requires
            bit == PROPAGATION || bit == SINGLETON,
            consistent(old(entries)@, old(flags)@, bit),
            forall|k: int| 0 <= k < old(flags)@.len() ==> (#[trigger] old(flags)@[k]) < 4,
        ensures
            round@ == old(entries)@,
            final(entries)@ == Seq::<usize>::empty(),
            final(flags)@.len() == old(flags)@.len(),
            forall|k: int|
                0 <= k < final(flags)@.len() ==> {
                    &&& (#[trigger] final(flags)@[k]) < 4
                    &&& !flagged(final(flags)@[k], bit)
                    &&& flagged(final(flags)@[k], (3 - bit) as u8) == flagged(
                        old(flags)@[k],
                        (3 - bit) as u8,
                    )
                },
    {
        let mut round: Vec<usize> = Vec::new();
        std::mem::swap(entries, &mut round);
        let mut at: usize = 0;
        while at < round.len()
            invariant
                bit == PROPAGATION || bit == SINGLETON,
                at <= round@.len(),
                round@ == old(entries)@,
                flags@.len() == old(flags)@.len(),
                consistent(old(entries)@, old(flags)@, bit),
                forall|k: int| 0 <= k < old(flags)@.len() ==> (#[trigger] old(flags)@[k]) < 4,
                forall|k: int|
                    0 <= k < flags@.len() ==> {
                        &&& (#[trigger] flags@[k]) < 4
                        &&& flagged(flags@[k], bit) ==> flagged(old(flags)@[k], bit)
                        &&& flagged(flags@[k], (3 - bit) as u8) == flagged(
                            old(flags)@[k],
                            (3 - bit) as u8,
                        )
                    },
                forall|i: int|
                    0 <= i < at ==> !flagged(flags@[(#[trigger] round@[i]) as int], bit),
            decreases round@.len() - at,
        {
            let row: usize = round[at];
            let flag: u8 = flags[row];
            if Self::pending(flag, bit) {
                flags.set(row, flag - bit);
            }
            at = at + 1;
        }
        proof {
            assert(flags.len() == flags@.len());
            assert forall|k: int| 0 <= k < flags@.len() implies !flagged(
                #[trigger] flags@[k],
                bit,
            ) by {
                if flagged(flags@[k], bit) {
                    assert(flagged(old(flags)@[(k as usize) as int], bit));
                    assert(round@.contains(k as usize));
                }
            }
        }
        round
    }

    /// Rows pending for bound propagation.
    pub fn take_round(&mut self) -> (round: Vec<usize>)
        requires
            old(self).wf(),
        ensures
            final(self).wf(),
            final(self).rows() == old(self).rows(),
            forall|k: int| 0 <= k < round@.len() ==> #[trigger] round@[k] < old(self).rows(),
            round@ == old(self).propagation(),
            round@.no_duplicates(),
            final(self).propagation() == Seq::<usize>::empty(),
            final(self).singleton() == old(self).singleton(),
    {
        Self::drain(&mut self.propagation, &mut self.flags, PROPAGATION)
    }

    /// Rows pending for the singleton-column scan.
    pub fn take_singleton_round(&mut self) -> (round: Vec<usize>)
        requires
            old(self).wf(),
        ensures
            final(self).wf(),
            final(self).rows() == old(self).rows(),
            round@ == old(self).singleton(),
            round@.no_duplicates(),
            final(self).singleton() == Seq::<usize>::empty(),
            final(self).propagation() == old(self).propagation(),
    {
        Self::drain(&mut self.singleton, &mut self.flags, SINGLETON)
    }

    /// The rows pending for bound propagation, which stay scheduled.
    pub fn iter(&self) -> (indices: Vec<usize>)
        ensures
            indices@ == self.propagation(),
    {
        self.propagation.clone()
    }
}

proof fn scheduled_membership(entries: Seq<usize>, index: usize)
    ensures
        forall|k: usize|
            #[trigger] scheduled(entries, index).contains(k) <==> entries.contains(k) || k == index,
        entries.no_duplicates() ==> scheduled(entries, index).no_duplicates(),
{
    if !entries.contains(index) {
        let after = entries.push(index);
        assert forall|k: usize| #[trigger] after.contains(k) <==> entries.contains(k) || k
            == index by {
            if entries.contains(k) {
                let i = choose|i: int| 0 <= i < entries.len() && entries[i] == k;
                assert(after[i] == k);
            }
            assert(after[entries.len() as int] == index);
        }
    }
}

/// Scheduling is idempotent: pushing an index twice leaves what pushing it once leaves.
pub proof fn scheduling_twice_is_scheduling_once(entries: Seq<usize>, index: usize)
    ensures
        scheduled(scheduled(entries, index), index) == scheduled(entries, index),
{
    scheduled_membership(entries, index);
}

/// The queues of one working model.
#[derive(Clone, Debug)]
pub struct Queues {
    pub empty_rows: Worklist,
    pub singleton_rows: Worklist,
    pub doubleton_rows: Worklist,
    pub short_equalities: Worklist,
    pub empty_columns: Worklist,
    pub singleton_columns: Worklist,
    pub changed_activities: ActivityRows,
    pub fixed_columns: Worklist,
    pub unlocked_columns: Worklist,
}

/// The part of the queues that a row or column change touches, as sequences.
#[verifier::ext_equal]
pub struct Waiting {
    pub empty_rows: Seq<usize>,
    pub singleton_rows: Seq<usize>,
    pub doubleton_rows: Seq<usize>,
    pub short_equalities: Seq<usize>,
    pub empty_columns: Seq<usize>,
    pub singleton_columns: Seq<usize>,
    pub propagation: Seq<usize>,
    pub singleton_scan: Seq<usize>,
    pub fixed_columns: Seq<usize>,
    pub unlocked_columns: Seq<usize>,
}

impl Waiting {
    /// Schedule what a row with `size` entries can lead to: emptiness or a
    /// singleton whatever its sides, and the equality rules by its length.
    pub open spec fn row_changed(self, row: usize, size: nat, equality: bool) -> Waiting {
        let activity = Waiting {
            propagation: scheduled(self.propagation, row),
            singleton_scan: scheduled(self.singleton_scan, row),
            ..self
        };
        if size == 0 {
            Waiting { empty_rows: scheduled(self.empty_rows, row), ..activity }
        } else if size == 1 {
            Waiting { singleton_rows: scheduled(self.singleton_rows, row), ..activity }
        } else if size == 2 && equality {
            Waiting { doubleton_rows: scheduled(self.doubleton_rows, row), ..activity }
        } else if equality {
            Waiting { short_equalities: scheduled(self.short_equalities, row), ..activity }
        } else {
            activity
        }
    }

    /// Schedule a column whose locks may have changed, by its length.
    pub open spec fn column_changed(self, column: usize, size: nat) -> Waiting {
        let unlocked = Waiting {
            unlocked_columns: scheduled(self.unlocked_columns, column),
            ..self
        };
        if size == 0 {
            Waiting { empty_columns: scheduled(self.empty_columns, column), ..unlocked }
        } else if size == 1 {
            Waiting { singleton_columns: scheduled(self.singleton_columns, column), ..unlocked }
        } else {
            unlocked
        }
    }
}

impl View for Queues {
    type V = Waiting;

    open spec fn view(&self) -> Waiting {
        Waiting {
            empty_rows: self.empty_rows@,
            singleton_rows: self.singleton_rows@,
            doubleton_rows: self.doubleton_rows@,
            short_equalities: self.short_equalities@,
            empty_columns: self.empty_columns@,
            singleton_columns: self.singleton_columns@,
            propagation: self.changed_activities.propagation(),
            singleton_scan: self.changed_activities.singleton(),
            fixed_columns: self.fixed_columns@,
            unlocked_columns: self.unlocked_columns@,
        }
    }
}

impl Queues {
    pub open spec fn wf(&self) -> bool {
        &&& self.empty_rows.wf()
        &&& self.singleton_rows.wf()
        &&& self.doubleton_rows.wf()
        &&& self.short_equalities.wf()
        &&& self.empty_columns.wf()
        &&& self.singleton_columns.wf()
        &&& self.changed_activities.wf()
        &&& self.fixed_columns.wf()
        &&& self.unlocked_columns.wf()
    }

    pub fn new(rows: usize, columns: usize) -> (queues: Self)
        ensures
            queues.wf(),
            queues.changed_activities.rows() == rows,
            queues@ == (Waiting {
                empty_rows: Seq::empty(),
                singleton_rows: Seq::empty(),
                doubleton_rows: Seq::empty(),
                short_equalities: Seq::empty(),
                empty_columns: Seq::empty(),
                singleton_columns: Seq::empty(),
                propagation: Seq::empty(),
                singleton_scan: Seq::empty(),
                fixed_columns: Seq::empty(),
                unlocked_columns: Seq::empty(),
            }),
    {
        Queues {
            empty_rows: Worklist::new(rows),
            singleton_rows: Worklist::new(rows),
            doubleton_rows: Worklist::new(rows),
            short_equalities: Worklist::new(rows),
            empty_columns: Worklist::new(columns),
            singleton_columns: Worklist::new(columns),
            changed_activities: ActivityRows::new(rows),
            fixed_columns: Worklist::new(columns),
            unlocked_columns: Worklist::new(columns),
        }
    }

    pub fn row_changed(&mut self, row: usize, size: usize, equality: bool)
        requires
            old(self).wf(),
            row < old(self).changed_activities.rows(),
            row < usize::MAX,
        ensures
            final(self).wf(),
            final(self).changed_activities.rows() == old(self).changed_activities.rows(),
            final(self)@ == old(self)@.row_changed(row, size as nat, equality),
    {
        if size == 0 {
            self.empty_rows.push(row);
        } else if size == 1 {
            self.singleton_rows.push(row);
        } else if size == 2 && equality {
            self.doubleton_rows.push(row);
        } else if equality {
            self.short_equalities.push(row);
        }
        self.changed_activities.push(row);
    }

    pub fn column_changed(&mut self, column: usize, size: usize)
        requires
            old(self).wf(),
            column < usize::MAX,
        ensures
            final(self).wf(),
            final(self).changed_activities.rows() == old(self).changed_activities.rows(),
            final(self)@ == old(self)@.column_changed(column, size as nat),
    {
        self.unlocked_columns.push(column);
        if size == 0 {
            self.empty_columns.push(column);
        } else if size == 1 {
            self.singleton_columns.push(column);
        }
    }
}

} // verus!

//! A fixed-capacity history of per-device key events, read newest first,
//! used to find which device produced an intercepted key event.
use vstd::prelude::*;
use crate::event::{KDir, KeyCode, KeyEvent};

verus! {

/// A circular buffer of key events; a slot is cleared once a correlation consumes it.
pub struct EventLog {
    records: Vec<Option<KeyEvent>>,
    ind: usize,
}

/// `o` is a live record of key `key` moving in direction `dir`.
pub open spec fn is_match(o: Option<KeyEvent>, key: KeyCode, dir: KDir) -> bool {
    o matches Some(e) && e.key == key && e.dir == dir
}

/// The log after one push: the new event first, the oldest record dropped.
pub open spec fn pushed(log: Seq<Option<KeyEvent>>, e: KeyEvent) -> Seq<Option<KeyEvent>> {
    seq![Some(e)] + log.drop_last()
}

/// The log after pushing each of `es` in order.
pub open spec fn pushed_all(log: Seq<Option<KeyEvent>>, es: Seq<KeyEvent>) -> Seq<Option<KeyEvent>>
    decreases es.len(),
{
    if es.len() == 0 {
        log
    } else {
        pushed(pushed_all(log, es.drop_last()), es.last())
    }
}

/// `i` is the first of the newest `n` records that matches `key` and `dir`.
pub open spec fn first_match(log: Seq<Option<KeyEvent>>, n: int, key: KeyCode, dir: KDir, i: int) -> bool {
    &&& 0 <= i < n
    &&& i < log.len()
    &&& is_match(log[i], key, dir)
    &&& forall|j: int| 0 <= j < i ==> !is_match(#[trigger] log[j], key, dir)
}

/// None of the newest `n` records matches `key` and `dir`.
pub open spec fn no_match(log: Seq<Option<KeyEvent>>, n: int, key: KeyCode, dir: KDir) -> bool {
    forall|j: int| 0 <= j < n && j < log.len() ==> !is_match(#[trigger] log[j], key, dir)
}

/// `r` and `after` are what a scan of the newest `n` records of `before` gives:
/// the first match, whose slot is then cleared, or nothing and no change.
pub open spec fn scanned(
    before: Seq<Option<KeyEvent>>,
    after: Seq<Option<KeyEvent>>,
    n: int,
    key: KeyCode,
    dir: KDir,
    r: Option<KeyEvent>,
) -> bool {
    match r {
        Some(e) => exists|i: int|
            first_match(before, n, key, dir, i) && before[i] == Some(e) && after == before.update(
                i,
                None,
            ),
        None => no_match(before, n, key, dir) && after == before,
    }
}

impl EventLog {
    pub closed spec fn capacity(&self) -> nat {
        self.records@.len()
    }

    pub closed spec fn wf(&self) -> bool {
        self.records@.len() > 0 && self.ind < self.records@.len()
    }

    /// The slot that holds the `i`-th newest record.
    pub closed spec fn slot(&self, i: int) -> int {
        if i <= self.ind {
            self.ind - i
        } else {
            self.ind + self.records@.len() - i
        }
    }

    /// The records, newest first.
    pub closed spec fn view(&self) -> Seq<Option<KeyEvent>> {
        Seq::new(self.records@.len(), |i: int| self.records@[self.slot(i)])
    }

    fn slot_of(&self, i: usize) -> (r: usize)
        requires
            self.wf(),
            i < self.records@.len(),
        ensures
            r == self.slot(i as int),
            r < self.records@.len(),
    {
        if i <= self.ind {
            self.ind - i
        } else {
            self.ind + (self.records.len() - i)
        }
    }

    /// An empty log of `size` slots.
    pub fn new(size: usize) -> (r: EventLog)
        requires
            size > 0,
        ensures
            r.wf(),
            r.view() == Seq::new(size as nat, |i: int| None::<KeyEvent>),
    {
        let mut records: Vec<Option<KeyEvent>> = Vec::new();
        let mut k: usize = 0;
        while k < size
            invariant
                k <= size,
                records@ == Seq::new(k as nat, |i: int| None::<KeyEvent>),
            decreases size - k,
        {
            records.push(None);
            k = k + 1;
        }
        let r = EventLog { records, ind: size - 1 };
        assert(r.view() =~= Seq::new(size as nat, |i: int| None::<KeyEvent>));
        r
    }

    pub fn len(&self) -> (r: usize)
        requires
            self.wf(),
        ensures
            r == self.view().len(),
            r == self.capacity(),
    {
        self.records.len()
    }

    /// The `i`-th newest record.
    pub fn newest(&self, i: usize) -> (r: Option<KeyEvent>)
        requires
            self.wf(),
            i < self.view().len(),
        ensures
            r == self.view()[i as int],
    {
        self.records[self.slot_of(i)]
    }

    /// Records `e` as the newest event, overwriting the oldest slot.
    pub fn push(&mut self, e: KeyEvent)
        requires
            old(self).wf(),
        ensures
            final(self).wf(),
            final(self).capacity() == old(self).capacity(),
            final(self).view() == pushed(old(self).view(), e),
    {
        let ghost before = self.view();
        self.ind = if self.ind == self.records.len() - 1 {
            0
        } else {
            self.ind + 1
        };
        let ind = self.ind;
        self.records.set(ind, Some(e));
        assert(self.view() =~= pushed(before, e));
    }

    /// Scans the newest `search_amt` records for the first one of key `key`
    /// moving in direction `dir`; on a match its slot is cleared so that it
    /// cannot be matched again.
    pub fn rec_from_hook_msg_in_logs(&mut self, search_amt: usize, key: KeyCode, dir: KDir) -> (r:
        Option<KeyEvent>)
        requires
            old(self).wf(),
        ensures
            final(self).wf(),
            final(self).capacity() == old(self).capacity(),
            scanned(old(self).view(), final(self).view(), search_amt as int, key, dir, r),
    {
        let ghost before = self.view();
        assert(before == old(self).view());
        let len = self.records.len();
        let mut i: usize = 0;
        while i < len && i < search_amt
            invariant
                self.wf(),
                len == self.records@.len(),
                len == old(self).records@.len(),
                i <= len,
                self.view() == before,
                before == old(self).view(),
                no_match(before, i as int, key, dir),
            decreases len - i,
        {
            let s = self.slot_of(i);
            if let Some(e) = self.records[s] {
                if e.key == key && e.dir == dir {
                    assert(before[i as int] == Some(e));
                    self.records.set(s, None);
                    assert forall|j: int| 0 <= j < len implies #[trigger] self.view()[j]
                        == before.update(i as int, None)[j] by {
                        assert(j != i ==> self.slot(j) != s);
                    }
                    assert(self.view() =~= before.update(i as int, None));
                    assert(first_match(before, search_amt as int, key, dir, i as int));
                    assert(scanned(before, self.view(), search_amt as int, key, dir, Some(e)));
                    return Some(e);
                }
            }
            i = i + 1;
        }
        None
    }

    /// The fallback of a failed correlation: pushes the events that were
    /// still waiting, oldest first, then scans only those new records.
    pub fn rec_from_drained(&mut self, drained: &Vec<KeyEvent>, key: KeyCode, dir: KDir) -> (r:
        Option<KeyEvent>)
        requires
            old(self).wf(),
        ensures
            final(self).wf(),
            final(self).capacity() == old(self).capacity(),
            scanned(
                pushed_all(old(self).view(), drained@),
                final(self).view(),
                drained@.len() as int,
                key,
                dir,
                r,
            ),
    {
        let mut k: usize = 0;
        while k < drained.len()
            invariant
                self.wf(),
                k <= drained@.len(),
                self.capacity() == old(self).capacity(),
                self.view() == pushed_all(old(self).view(), drained@.subrange(0, k as int)),
            decreases drained@.len() - k,
        {
            self.push(drained[k]);
            assert(drained@.subrange(0, k + 1).drop_last() =~= drained@.subrange(0, k as int));
            k = k + 1;
        }
        assert(drained@.subrange(0, drained@.len() as int) =~= drained@);
        self.rec_from_hook_msg_in_logs(drained.len(), key, dir)
    }
}

/// The length of a log never changes, and after pushing `es` its `i`-th
/// newest record is the `i`-th newest pushed event, or an older record.
pub proof fn lemma_pushed_all(log: Seq<Option<KeyEvent>>, es: Seq<KeyEvent>)
    requires
        log.len() > 0,
    ensures
        pushed_all(log, es).len() == log.len(),
        forall|i: int|
            0 <= i < log.len() ==> #[trigger] pushed_all(log, es)[i] == if i < es.len() {
                Some(es[es.len() - 1 - i])
            } else {
                log[i - es.len()]
            },
    decreases es.len(),
{
    if es.len() > 0 {
        lemma_pushed_all(log, es.drop_last());
    }
}

/// A log of `N` slots that has taken `N + 1` pushes holds exactly the last
/// `N` of them, newest first: the first event pushed can no longer be matched.
pub proof fn lemma_oldest_overwritten(log: Seq<Option<KeyEvent>>, es: Seq<KeyEvent>)
    requires
        log.len() > 0,
        es.len() == log.len() + 1,
    ensures
        pushed_all(log, es) == Seq::new(log.len(), |i: int| Some(es[log.len() - i])),
{
    lemma_pushed_all(log, es);
    assert(pushed_all(log, es) =~= Seq::new(log.len(), |i: int| Some(es[log.len() - i])));
}

} // verus!

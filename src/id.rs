use vstd::prelude::*;

verus! {

/// Issues time-ordered 128-bit ids: the high 64 bits carry a millisecond
/// timestamp, and ids issued by one generator strictly increase even when the
/// clock goes backward.
pub struct IdGenerator {
    pub last: u128,
}

/// The id issued at time `now` after `last`: the timestamp in the high bits when
/// that is larger, otherwise the next integer.
pub open spec fn next_after(last: u128, now: u64) -> u128 {
    if ((now as u128) << 64u128) > last {
        (now as u128) << 64u128
    } else {
        (last + 1) as u128
    }
}

impl IdGenerator {
    /// A generator that has issued nothing yet.
    pub fn new() -> (r: IdGenerator)
        ensures
            r.last == 0,
    {
        IdGenerator { last: 0 }
    }

    /// Whether another id can be issued.
    pub open spec fn can_issue(&self) -> bool {
        self.last < u128::MAX
    }

    /// Issues the next id for the clock reading `now` (milliseconds).
    pub fn next_id(&mut self, now: u64) -> (r: u128)
        requires
            old(self).can_issue(),
        ensures
            r == next_after(old(self).last, now),
            r > old(self).last,
            final(self).last == r,
    {
        let stamp: u128 = (now as u128) << 64u128;
        let r = if stamp > self.last {
            stamp
        } else {
            self.last + 1
        };
        self.last = r;
        r
    }
}

/// The ids that a generator at `last` issues for the clock readings `nows`, in turn.
pub open spec fn issued(last: u128, nows: Seq<u64>) -> Seq<u128>
    decreases nows.len(),
{
    if nows.len() == 0 {
        Seq::empty()
    } else {
        let before = issued(last, nows.drop_last());
        let prev = if before.len() == 0 {
            last
        } else {
            before.last()
        };
        before.push(next_after(prev, nows.last()))
    }
}

proof fn lemma_issued_len(last: u128, nows: Seq<u64>)
    ensures
        issued(last, nows).len() == nows.len(),
    decreases nows.len(),
{
    if nows.len() > 0 {
        lemma_issued_len(last, nows.drop_last());
    }
}

/// Ids issued one after another by a generator strictly increase, whatever the
/// clock readings, as long as it can issue each of them.
pub proof fn lemma_ids_increase(last: u128, nows: Seq<u64>)
    requires
        last < u128::MAX,
        forall|i: int| 0 <= i < nows.len() - 1 ==> #[trigger] issued(last, nows)[i] < u128::MAX,
    ensures
        issued(last, nows).len() == nows.len(),
        forall|i: int, j: int|
            0 <= i < j < nows.len() ==> #[trigger] issued(last, nows)[i] < #[trigger] issued(
                last,
                nows,
            )[j],
        nows.len() > 0 ==> last < issued(last, nows)[0],
    decreases nows.len(),
{
    if nows.len() > 0 {
        let front = nows.drop_last();
        let before = issued(last, front);
        lemma_issued_len(last, front);
        assert forall|i: int| 0 <= i < front.len() - 1 implies #[trigger] issued(last, front)[i]
            < u128::MAX by {
            assert(issued(last, nows)[i] == before[i]);
        }
        lemma_ids_increase(last, front);
        let all = issued(last, nows);
        if before.len() > 0 {
            assert(all[before.len() - 1] == before.last());
        }
        assert forall|i: int, j: int| 0 <= i < j < nows.len() implies #[trigger] all[i] < #[trigger] all[j] by {
            if j < front.len() {
                assert(all[i] == before[i] && all[j] == before[j]);
            } else if i < front.len() {
                assert(all[i] == before[i]);
                if i < before.len() - 1 {
                    assert(before[i] < before[before.len() - 1]);
                }
            }
        }
    }
}

} // verus!

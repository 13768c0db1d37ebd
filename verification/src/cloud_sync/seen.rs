//! Messages that came in before.
use vstd::prelude::*;

verus! {

/// How many messages are remembered.
pub const SEEN_CAPACITY: usize = 1000;

/// The numbers of the latest messages.
pub struct SeenMessages {
    list: Vec<u128>,
}

/// The remembered numbers after a message that was not among them.
pub open spec fn remembered(s: Seq<u128>, id: u128) -> Seq<u128> {
    if s.len() + 1 > SEEN_CAPACITY {
        s.push(id).drop_first()
    } else {
        s.push(id)
    }
}

impl SeenMessages {
    /// The remembered numbers, oldest first.
    pub closed spec fn seq(&self) -> Seq<u128> {
        self.list@
    }

    /// No more are remembered than there is room for.
    pub open spec fn wf(&self) -> bool {
        self.seq().len() <= SEEN_CAPACITY
    }

    pub fn new() -> (r: SeenMessages)
        ensures
            r.wf(),
            r.seq() == Seq::<u128>::empty(),
    {
        SeenMessages { list: Vec::new() }
    }

    /// Whether a message is new. It is then remembered, unless its number is 0: such
    /// messages are always new.
    pub fn note(&mut self, id: u128) -> (fresh: bool)
        requires
            old(self).wf(),
        ensures
            final(self).wf(),
            fresh == (id == 0 || !old(self).seq().contains(id)),
            final(self).seq() == (if id != 0 && fresh {
                remembered(old(self).seq(), id)
            } else {
                old(self).seq()
            }),
            id == 0 || !fresh ==> *final(self) == *old(self),
    {
        if id == 0 {
            return true;
        }
        let mut i: usize = 0;
        while i < self.list.len()
            invariant
                self.list@ == old(self).list@,
                old(self).wf(),
                id != 0,
                i <= self.list@.len(),
                forall|k: int| 0 <= k < i ==> self.list@[k] != id,
            decreases self.list@.len() - i,
        {
            if self.list[i] == id {
                proof {
                    assert(old(self).seq()[i as int] == id);
                }
                return false;
            }
            i = i + 1;
        }
        self.list.push(id);
        if self.list.len() > SEEN_CAPACITY {
            let gone: u128 = self.list.remove(0);
            proof {
                assert(self.list@ =~= old(self).list@.push(id).drop_first());
            }
        }
        true
    }
}

/// A message that is remembered is not new again until as many others have come as there
/// is room for.
pub proof fn seen_once(s: Seq<u128>, id: u128, later: Seq<u128>)
    requires
        s.len() <= SEEN_CAPACITY,
        !s.contains(id),
        later.len() < SEEN_CAPACITY,
    ensures
        all_remembered(remembered(s, id), later).contains(id),
{
    let r = remembered(s, id);
    assert(r[r.len() - 1] == id);
    still_there(r, later, r.len() - 1);
}

/// The remembered numbers after messages that were not among them.
pub open spec fn all_remembered(s: Seq<u128>, later: Seq<u128>) -> Seq<u128>
    decreases later.len(),
{
    if later.len() == 0 {
        s
    } else {
        remembered(all_remembered(s, later.drop_last()), later.last())
    }
}

/// A remembered number moves by one place with each message at most.
proof fn still_there(s: Seq<u128>, later: Seq<u128>, at: int)
    requires
        0 <= at < s.len() <= SEEN_CAPACITY,
        at + SEEN_CAPACITY - s.len() >= later.len(),
    ensures
        all_remembered(s, later).len() <= SEEN_CAPACITY,
        all_remembered(s, later).contains(s[at]),
        exists|k: int|
            0 <= k < all_remembered(s, later).len() && #[trigger] all_remembered(s, later)[k] == s[at] && k
                + SEEN_CAPACITY - all_remembered(s, later).len() >= at + SEEN_CAPACITY - s.len() - later.len(),
    decreases later.len(),
{
    if later.len() == 0 {
        assert(all_remembered(s, later)[at] == s[at]);
    } else {
        still_there(s, later.drop_last(), at);
        let t = all_remembered(s, later.drop_last());
        let k = choose|k: int|
            0 <= k < t.len() && #[trigger] t[k] == s[at] && k + SEEN_CAPACITY - t.len() >= at + SEEN_CAPACITY - s.len() - (
            later.len() - 1);
        let u = all_remembered(s, later);
        if t.len() + 1 > SEEN_CAPACITY {
            assert(k >= 1);
            assert(u[k - 1] == t[k]);
        } else {
            assert(u[k] == t[k]);
        }
    }
}

} // verus!

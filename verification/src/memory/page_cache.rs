//! A cache of blocks, bounded by the bytes that it holds.
use std::sync::Arc;
use vstd::prelude::*;

verus! {

/// What a block is known by: a segment, and an offset in it.
#[derive(Debug, Clone, Copy, Hash, PartialEq, Eq, Structural)]
pub struct BlockKey {
    pub segment_id: u64,
    pub offset: u64,
}

/// A block as it is held.
#[derive(Debug)]
pub struct ProcessedBlock {
    pub data: Arc<Vec<u8>>,
}

/// `std::sync::Arc::clone`: another handle of the same value.
#[verifier::external_body]
fn share(data: &Arc<Vec<u8>>) -> (r: Arc<Vec<u8>>)
    ensures
        r@ == data@,
{
    Arc::clone(data)
}

/// A cache of blocks. The blocks stand in the order in which they leave: the oldest in
/// front; one that is asked for moves to the back.
#[derive(Debug)]
pub struct PageCache {
    max_bytes: usize,
    current_bytes: usize,
    order: Vec<BlockKey>,
    blocks: Vec<ProcessedBlock>,
}

/// A block with its key.
pub type Held = (BlockKey, Seq<u8>);

/// The bytes of blocks.
pub open spec fn total_bytes(s: Seq<Held>) -> nat
    decreases s.len(),
{
    if s.len() == 0 {
        0
    } else {
        total_bytes(s.drop_last()) + s.last().1.len()
    }
}

/// Whether a block with a key is among `s`.
pub open spec fn holds(s: Seq<Held>, k: BlockKey) -> bool {
    exists|i: int| 0 <= i < s.len() && #[trigger] s[i].0 == k
}

/// No key stands twice.
pub open spec fn distinct(s: Seq<Held>) -> bool {
    forall|i: int, j: int| 0 <= i < j < s.len() ==> #[trigger] s[i].0 != #[trigger] s[j].0
}

/// The blocks without the one with a key.
pub open spec fn without_key(s: Seq<Held>, k: BlockKey) -> Seq<Held>
    decreases s.len(),
{
    if s.len() == 0 {
        s
    } else if s[0].0 == k {
        s.drop_first()
    } else {
        seq![s[0]] + without_key(s.drop_first(), k)
    }
}

/// The blocks that stay where no more than `room` bytes may: the oldest leave first.
pub open spec fn kept(s: Seq<Held>, room: int) -> Seq<Held>
    decreases s.len(),
{
    if s.len() == 0 || total_bytes(s) <= room {
        s
    } else {
        kept(s.drop_first(), room)
    }
}

/// The blocks after one was put in: one that is greater than the cache is dropped.
pub open spec fn after_put(s: Seq<Held>, max: nat, k: BlockKey, data: Seq<u8>) -> Seq<Held> {
    if data.len() > max {
        s
    } else {
        kept(without_key(s, k), max - data.len()).push((k, data))
    }
}

proof fn total_front(s: Seq<Held>)
    requires
        s.len() > 0,
    ensures
        total_bytes(s) == s[0].1.len() + total_bytes(s.drop_first()),
    decreases s.len(),
{
    if s.len() > 1 {
        total_front(s.drop_last());
        assert(s.drop_last().drop_first() =~= s.drop_first().drop_last());
        assert(s.drop_first().last() == s.last());
    } else {
        assert(s.drop_last() =~= Seq::empty());
        assert(s.drop_first() =~= Seq::empty());
    }
}

proof fn without_key_at(s: Seq<Held>, k: BlockKey, i: int)
    requires
        distinct(s),
        0 <= i < s.len(),
        s[i].0 == k,
    ensures
        without_key(s, k) == s.remove(i),
        total_bytes(s) == total_bytes(s.remove(i)) + s[i].1.len(),
    decreases s.len(),
{
    total_front(s);
    if i == 0 {
        assert(s.remove(0) =~= s.drop_first());
    } else {
        assert(s[0].0 != s[i].0);
        let t = s.drop_first();
        assert forall|a: int, b: int| 0 <= a < b < t.len() implies #[trigger] t[a].0 != #[trigger] t[b].0 by {
            assert(s[a + 1].0 != s[b + 1].0);
        }
        assert(t[i - 1] == s[i]);
        without_key_at(t, k, i - 1);
        assert(seq![s[0]] + t.remove(i - 1) =~= s.remove(i));
        total_front(s.remove(i));
        assert(s.remove(i).drop_first() =~= t.remove(i - 1));
    }
}

proof fn without_key_absent(s: Seq<Held>, k: BlockKey)
    requires
        !holds(s, k),
    ensures
        without_key(s, k) == s,
    decreases s.len(),
{
    if s.len() > 0 {
        assert(s[0].0 != k);
        let t = s.drop_first();
        assert forall|i: int| 0 <= i < t.len() implies #[trigger] t[i].0 != k by {
            assert(s[i + 1].0 != k);
        }
        without_key_absent(t, k);
        assert(seq![s[0]] + t =~= s);
    }
}

proof fn distinct_removed(s: Seq<Held>, i: int)
    requires
        distinct(s),
        0 <= i < s.len(),
    ensures
        distinct(s.remove(i)),
        !holds(s.remove(i), s[i].0),
{
    let t = s.remove(i);
    assert forall|a: int, b: int| 0 <= a < b < t.len() implies #[trigger] t[a].0 != #[trigger] t[b].0 by {
        let x = if a < i {
            a
        } else {
            a + 1
        };
        let y = if b < i {
            b
        } else {
            b + 1
        };
        assert(s[x].0 != s[y].0);
    }
    assert forall|a: int| 0 <= a < t.len() implies #[trigger] t[a].0 != s[i].0 by {
        if a < i {
            assert(s[a].0 != s[i].0);
        } else {
            assert(s[i].0 != s[a + 1].0);
        }
    }
}

impl PageCache {
    /// The blocks in the order in which they leave.
    pub closed spec fn held(&self) -> Seq<Held> {
        Seq::new(self.order@.len(), |i: int| (self.order@[i], self.blocks@[i].data@))
    }

    /// The bytes that the cache may hold.
    pub closed spec fn max(&self) -> nat {
        self.max_bytes as nat
    }

    /// No key stands twice, the bytes are counted, and there are no more than allowed.
    pub closed spec fn wf(&self) -> bool {
        &&& self.order@.len() == self.blocks@.len()
        &&& distinct(self.held())
        &&& self.current_bytes as nat == total_bytes(self.held())
        &&& self.current_bytes <= self.max_bytes
    }

    /// A cache never holds more bytes than it may, and no block twice.
    pub proof fn bounded(&self)
        requires
            self.wf(),
        ensures
            total_bytes(self.held()) <= self.max(),
            distinct(self.held()),
    {
    }

    /// A cache of at most `max_bytes` bytes, which holds none yet.
    pub fn new(max_bytes: usize) -> (c: PageCache)
        ensures
            c.wf(),
            c.max() == max_bytes,
            c.held() == Seq::<Held>::empty(),
    {
        let c = PageCache { max_bytes, current_bytes: 0, order: Vec::new(), blocks: Vec::new() };
        proof {
            assert(c.held() =~= Seq::<Held>::empty());
        }
        c
    }

    /// The keys in the order in which their blocks leave.
    pub fn order(&self) -> (r: &Vec<BlockKey>)
        requires
            self.wf(),
        ensures
            r@.len() == self.held().len(),
            forall|i: int| 0 <= i < r@.len() ==> #[trigger] r@[i] == self.held()[i].0,
    {
        &self.order
    }

    /// Where the block with a key stands.
    pub fn position(&self, key: &BlockKey) -> (r: Option<usize>)
        requires
            self.wf(),
        ensures
            match r {
                Some(i) => i < self.held().len() && self.held()[i as int].0 == *key,
                None => !holds(self.held(), *key),
            },
    {
        let mut i: usize = 0;
        while i < self.order.len()
            invariant
                i <= self.order@.len(),
                forall|k: int| 0 <= k < i ==> (#[trigger] self.held()[k]).0 != *key,
            decreases self.order@.len() - i,
        {
            if self.order[i] == *key {
                return Some(i);
            }
            i = i + 1;
        }
        None
    }

    /// The number of blocks.
    pub fn len(&self) -> (n: usize)
        requires
            self.wf(),
        ensures
            n == self.held().len(),
    {
        self.blocks.len()
    }

    /// The block with a key. It moves to the back: of all blocks it leaves last.
    pub fn get(&mut self, key: &BlockKey) -> (r: Option<Arc<Vec<u8>>>)
        requires
            old(self).wf(),
        ensures
            final(self).wf(),
            final(self).max() == old(self).max(),
            match r {
                Some(data) => exists|i: int|
                    0 <= i < old(self).held().len() && #[trigger] old(self).held()[i] == (*key, data@) && final(self).held() == old(self).held().remove(i).push((*key, data@)),
                None => !holds(old(self).held(), *key) && final(self).held() == old(self).held(),
            },
    {
        match self.position(key) {
            None => None,
            Some(i) => {
                let ghost before = self.held();
                let data = share(&self.blocks[i].data);
                let ghost d = data@;
                let k = self.order.remove(i);
                let block = self.blocks.remove(i);
                self.order.push(k);
                self.blocks.push(block);
                proof {
                    assert(before[i as int] == (*key, d));
                    assert(self.held() =~= before.remove(i as int).push((*key, d)));
                    distinct_removed(before, i as int);
                    without_key_at(before, *key, i as int);
                    let t = before.remove(i as int);
                    let u = t.push((*key, d));
                    assert(u.drop_last() =~= t);
                    assert forall|a: int, b: int| 0 <= a < b < u.len() implies #[trigger] u[a].0 != #[trigger] u[b].0 by {
                        assert(u[a] == t[a]);
                        if b < t.len() {
                            assert(u[b] == t[b]);
                            assert(t[a].0 != t[b].0);
                        } else {
                            assert(t[a].0 != *key);
                        }
                    }
                }
                Some(data)
            },
        }
    }

    /// Puts a block in, at the back, in place of one with the same key. The oldest blocks
    /// leave until there is room for it; one that is greater than the cache is dropped.
    pub fn put(&mut self, key: BlockKey, data: Vec<u8>)
        requires
            old(self).wf(),
        ensures
            final(self).wf(),
            final(self).max() == old(self).max(),
            final(self).held() == after_put(old(self).held(), old(self).max(), key, data@),
    {
        let size: usize = data.len();
        if size > self.max_bytes {
            return;
        }
        let ghost start = self.held();
        match self.position(&key) {
            Some(i) => {
                let k = self.order.remove(i);
                let block = self.blocks.remove(i);
                proof {
                    assert(start[i as int].0 == key);
                    without_key_at(start, key, i as int);
                    distinct_removed(start, i as int);
                    assert(self.held() =~= start.remove(i as int));
                    assert(start[i as int].1 == block.data@);
                }
                self.current_bytes = self.current_bytes - block.data.len();
            },
            None => {
                proof {
                    without_key_absent(start, key);
                }
            },
        }
        let ghost fresh = without_key(start, key);
        proof {
            assert(self.held() =~= fresh);
        }
        while self.current_bytes > self.max_bytes - size
            invariant
                self.wf(),
                size <= self.max_bytes,
                self.max_bytes == old(self).max_bytes,
                !holds(self.held(), key),
                kept(fresh, self.max_bytes - size) == kept(self.held(), self.max_bytes - size),
            decreases self.order@.len(),
        {
            let ghost before = self.held();
            proof {
                if before.len() == 0 {
                    assert(total_bytes(before) == 0);
                }
                total_front(before);
            }
            let k = self.order.remove(0);
            let block = self.blocks.remove(0);
            proof {
                assert(self.held() =~= before.remove(0));
                assert(before.remove(0) =~= before.drop_first());
                distinct_removed(before, 0);
                assert(before[0].1 == block.data@);
                assert forall|i: int| 0 <= i < self.held().len() implies #[trigger] self.held()[i].0 != key by {
                    assert(before[i + 1].0 != key);
                }
            }
            self.current_bytes = self.current_bytes - block.data.len();
        }
        let ghost t = self.held();
        let ghost d = data@;
        self.current_bytes = self.current_bytes + size;
        self.order.push(key);
        self.blocks.push(ProcessedBlock { data: Arc::new(data) });
        proof {
            let u = t.push((key, d));
            assert(self.held() =~= u);
            assert(u.drop_last() =~= t);
            assert forall|a: int, b: int| 0 <= a < b < u.len() implies #[trigger] u[a].0 != #[trigger] u[b].0 by {
                assert(u[a] == t[a]);
                if b < t.len() {
                    assert(u[b] == t[b]);
                    assert(t[a].0 != t[b].0);
                } else {
                    assert(t[a].0 != key);
                }
            }
        }
    }
}

/// A block that was put in, and is not greater than the cache, is found.
pub proof fn put_is_found(s: Seq<Held>, max: nat, k: BlockKey, data: Seq<u8>)
    requires
        data.len() <= max,
    ensures
        holds(after_put(s, max, k, data), k),
        after_put(s, max, k, data).last() == (k, data),
{
    let t = after_put(s, max, k, data);
    assert(t[t.len() - 1].0 == k);
}

/// A block that is put in leaves the others where there is room for all, in their order, and only
/// an older one with the same key goes; where there is no room the oldest leave, and no more than
/// must. One that is greater than the cache changes nothing.
pub proof fn others_are_kept(s: Seq<Held>, max: nat, k: BlockKey, data: Seq<u8>)
    requires
        distinct(s),
    ensures
        data.len() > max ==> after_put(s, max, k, data) == s,
        data.len() <= max && !holds(s, k) && total_bytes(s) + data.len() <= max ==> after_put(s, max, k, data) == s.push(
            (k, data),
        ),
        data.len() <= max && !holds(s, k) ==> exists|n: int|
            0 <= n <= s.len() && after_put(s, max, k, data) == (#[trigger] s.skip(n)).push((k, data)) && total_bytes(s.skip(n))
                + data.len() <= max && (n > 0 ==> total_bytes(s.skip(n - 1)) + data.len() > max),
{
    if data.len() <= max && !holds(s, k) {
        without_stays(s, k);
        let n = oldest_leave(s, max - data.len());
        assert(s.skip(0) =~= s);
    }
}

proof fn without_stays(s: Seq<Held>, k: BlockKey)
    requires
        !holds(s, k),
    ensures
        without_key(s, k) == s,
    decreases s.len(),
{
    if s.len() > 0 {
        let t = s.drop_first();
        assert(s[0].0 != k);
        assert(!holds(t, k)) by {
            if holds(t, k) {
                let i = choose|i: int| 0 <= i < t.len() && #[trigger] t[i].0 == k;
                assert(s[i + 1].0 == k);
            }
        }
        without_stays(t, k);
        assert(seq![s[0]] + t =~= s);
    }
}

proof fn oldest_leave(s: Seq<Held>, room: int) -> (n: int)
    requires
        room >= 0,
    ensures
        0 <= n <= s.len(),
        kept(s, room) == s.skip(n),
        total_bytes(s.skip(n)) <= room,
        n > 0 ==> total_bytes(s.skip(n - 1)) > room,
        total_bytes(s) <= room ==> n == 0,
    decreases s.len(),
{
    assert(s.skip(0) =~= s);
    if s.len() == 0 || total_bytes(s) <= room {
        0
    } else {
        let t = s.drop_first();
        let n = oldest_leave(t, room);
        assert(t.skip(n) =~= s.skip(n + 1));
        if n > 0 {
            assert(t.skip(n - 1) =~= s.skip(n));
        }
        n + 1
    }
}

} // verus!

//! The state snapshot store: a bounded buffer of serialized simulation-state
//! copies keyed by frame number, evicted oldest-first, used to restore the
//! simulation before a rollback replay and never mutated after creation.

use vstd::prelude::*;

verus! {

/// One stored snapshot: a frame number and the serialized state at it.
pub struct Snapshot {
    pub frame: u32,
    pub data: Vec<u8>,
}

/// Mathematical content of a [`SnapshotStore`]: the kept snapshots in frame
/// order, and the bound on how many are retained.
#[verifier::ext_equal]
pub struct StoreModel {
    pub snaps: Seq<(u32, Seq<u8>)>,
    pub capacity: int,
}

impl StoreModel {
    pub open spec fn wf(self) -> bool {
        &&& self.capacity >= 1
        &&& self.snaps.len() <= self.capacity
        &&& forall|i: int, j: int|
            0 <= i < j < self.snaps.len() ==> (#[trigger] self.snaps[i]).0 < (
            #[trigger] self.snaps[j]).0
    }

    pub open spec fn contains_frame(self, frame: int) -> bool {
        exists|i: int| 0 <= i < self.snaps.len() && (#[trigger] self.snaps[i]).0 == frame
    }

    pub open spec fn index_of(self, frame: int) -> int {
        choose|i: int| 0 <= i < self.snaps.len() && (#[trigger] self.snaps[i]).0 == frame
    }

    /// The stored bytes for a frame the store holds.
    pub open spec fn data_for(self, frame: int) -> Seq<u8>
        recommends
            self.contains_frame(frame),
    {
        self.snaps[self.index_of(frame)].1
    }

    /// The store after appending a snapshot, evicting the oldest if full.
    pub open spec fn saved(self, frame: u32, data: Seq<u8>) -> StoreModel {
        let kept = if self.snaps.len() >= self.capacity {
            self.snaps.drop_first()
        } else {
            self.snaps
        };
        StoreModel { snaps: kept.push((frame, data)), capacity: self.capacity }
    }
}

/// Frames in a well-formed store are unique, so a frame pins its slot.
pub proof fn lemma_index_of_unique(m: StoreModel, i: int)
    requires
        m.wf(),
        0 <= i < m.snaps.len(),
    ensures
        m.contains_frame(m.snaps[i].0 as int),
        m.index_of(m.snaps[i].0 as int) == i,
{
    let f = m.snaps[i].0 as int;
    assert(m.contains_frame(f));
    let j = m.index_of(f);
    if i < j {
        assert(m.snaps[i].0 < m.snaps[j].0);
    } else if j < i {
        assert(m.snaps[j].0 < m.snaps[i].0);
    }
}

/// Ring buffer of serialized simulation states keyed by frame number,
/// bounded by the prediction window's worth of retained snapshots.
pub struct SnapshotStore {
    snaps: Vec<Snapshot>,
    capacity: usize,
}

impl View for SnapshotStore {
    type V = StoreModel;

    closed spec fn view(&self) -> StoreModel {
        StoreModel {
            snaps: Seq::new(self.snaps@.len(), |i: int| (self.snaps@[i].frame, self.snaps@[i].data@)),
            capacity: self.capacity as int,
        }
    }
}

impl SnapshotStore {
    /// An empty store that will retain at most `capacity` snapshots.
    pub fn new(capacity: usize) -> (s: SnapshotStore)
        requires
            capacity >= 1,
        ensures
            s@.snaps == Seq::<(u32, Seq<u8>)>::empty(),
            s@.capacity == capacity,
            s@.wf(),
    {
        let s = SnapshotStore { snaps: Vec::new(), capacity };
        proof {
            assert(s@.snaps =~= Seq::<(u32, Seq<u8>)>::empty());
        }
        s
    }

    /// Stores the snapshot for a new, strictly later frame; the oldest
    /// snapshot is evicted once the store is at capacity.
    pub fn save(&mut self, frame: u32, data: Vec<u8>)
        requires
            old(self)@.wf(),
            old(self)@.snaps.len() > 0 ==> old(self)@.snaps.last().0 < frame,
        ensures
            final(self)@ == old(self)@.saved(frame, data@),
            final(self)@.wf(),
    {
        let ghost m0 = self@;
        if self.snaps.len() >= self.capacity {
            self.snaps.remove(0);
            proof {
                assert(self@.snaps =~= m0.snaps.drop_first());
            }
        }
        let ghost kept = self@.snaps;
        self.snaps.push(Snapshot { frame, data });
        proof {
            assert(self@.snaps =~= kept.push((frame, data@)));
        }
    }

    /// The stored bytes for `frame`, present exactly when a snapshot at that
    /// frame is retained.
    pub fn get(&self, frame: u32) -> (r: Option<&Vec<u8>>)
        requires
            self@.wf(),
        ensures
            r is Some <==> self@.contains_frame(frame as int),
            r matches Some(d) ==> d@ == self@.data_for(frame as int),
    {
        let len = self.snaps.len();
        let mut i: usize = 0;
        while i < len
            invariant
                0 <= i <= len,
                len == self.snaps@.len(),
                self@.wf(),
                forall|j: int| 0 <= j < i ==> (#[trigger] self@.snaps[j]).0 != frame,
            decreases len - i,
        {
            if self.snaps[i].frame == frame {
                proof {
                    lemma_index_of_unique(self@, i as int);
                }
                return Some(&self.snaps[i].data);
            }
            proof {
                assert(self@.snaps[i as int].0 != frame);
            }
            i = i + 1;
        }
        proof {
            assert(!self@.contains_frame(frame as int));
        }
        None
    }

    /// Drops every snapshot newer than `frame`, leaving the prefix of
    /// snapshots at or before it: a rollback discards the stale predicted
    /// future before replaying it.
    pub fn discard_after(&mut self, frame: u32)
        requires
            old(self)@.wf(),
        ensures
            final(self)@.capacity == old(self)@.capacity,
            final(self)@.snaps.len() <= old(self)@.snaps.len(),
            final(self)@.snaps == old(self)@.snaps.take(final(self)@.snaps.len() as int),
            forall|i: int|
                0 <= i < final(self)@.snaps.len() ==> (#[trigger] final(self)@.snaps[i]).0
                    <= frame,
            forall|i: int|
                0 <= i < old(self)@.snaps.len() && (#[trigger] old(self)@.snaps[i]).0 <= frame
                    ==> i < final(self)@.snaps.len(),
            final(self)@.wf(),
    {
        let ghost m0 = self@;
        while self.snaps.len() > 0 && self.snaps[self.snaps.len() - 1].frame > frame
            invariant
                m0.wf(),
                self@.capacity == m0.capacity,
                self@.snaps.len() <= m0.snaps.len(),
                self@.snaps == m0.snaps.take(self@.snaps.len() as int),
                forall|i: int|
                    self@.snaps.len() <= i < m0.snaps.len() ==> (#[trigger] m0.snaps[i]).0
                        > frame,
            decreases self.snaps@.len(),
        {
            let ghost before = self@.snaps;
            proof {
                let last = before.len() - 1;
                assert(before[last] == m0.snaps[last]);
                assert(m0.snaps[last].0 > frame);
            }
            self.snaps.pop();
            proof {
                assert(self@.snaps =~= before.take(before.len() - 1));
                assert(self@.snaps =~= m0.snaps.take(self@.snaps.len() as int));
            }
        }
        proof {
            if self@.snaps.len() > 0 {
                let last = self@.snaps.len() - 1;
                assert(self@.snaps[last].0 <= frame);
                assert forall|i: int| 0 <= i < self@.snaps.len() implies (
                #[trigger] self@.snaps[i]).0 <= frame by {
                    if i < last {
                        assert(m0.snaps[i].0 < m0.snaps[last].0);
                    }
                }
            }
        }
    }

    /// How many snapshots are currently retained.
    pub fn len(&self) -> (n: usize)
        ensures
            n == self@.snaps.len(),
    {
        self.snaps.len()
    }

    /// Releases every retained snapshot.
    pub fn clear(&mut self)
        requires
            old(self)@.wf(),
        ensures
            final(self)@.capacity == old(self)@.capacity,
            final(self)@.snaps == Seq::<(u32, Seq<u8>)>::empty(),
            final(self)@.wf(),
    {
        self.snaps = Vec::new();
        proof {
            assert(self@.snaps =~= Seq::<(u32, Seq<u8>)>::empty());
        }
    }
}

} // verus!

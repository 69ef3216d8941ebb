//! The kernel: the authority that owns the current [`Version`], serializes
//! update application, and fans sequenced deltas out to subscribers.
//!
//! The kernel keeps the applied updates in an ordered log; a subscription
//! is a cursor into that log. A subscriber that stays within the retention
//! window (the last `capacity` updates, as a bounded broadcast buffer
//! would hold) receives every update in sequence order with no gaps; one
//! that falls behind is told explicitly how many updates it missed.

use vstd::prelude::*;

use crate::version::{
    fold_update, update_conflicted, KernelUpdate, Sequence, Version, VersionUpdate,
    VersionUpdateView, VersionView,
};

verus! {

/// Why the kernel refused an update.
///
/// Failures of surrounding I/O layers (an unreachable store, a closed
/// transport) are reported by those layers, not by this crate.
#[derive(Debug, PartialEq, Eq, Clone, Copy)]
pub enum Error {
    /// The submitted delta both writes and deletes one metadata key, or
    /// both adds and deletes one object identifier.
    InvalidArgument,
}

/// The view of the empty version a kernel starts from.
pub open spec fn empty_version() -> VersionView {
    VersionView { sequence: 0, meta: Map::empty(), objects: Seq::empty() }
}

/// `u` with its sequence number replaced by `s`.
pub open spec fn stamped(u: VersionUpdateView, s: Sequence) -> VersionUpdateView {
    VersionUpdateView { sequence: s, ..u }
}

/// The version reached by folding every update of `log`, in order, into
/// the empty version.
pub open spec fn replay(log: Seq<VersionUpdate>) -> VersionView
    decreases log.len(),
{
    if log.len() == 0 {
        empty_version()
    } else {
        fold_update(replay(log.drop_last()), log.last()@)
    }
}

/// The authority owning one store instance's version lineage, generic over
/// an abstract log-stream capability `S` and an abstract object-bucket
/// capability `B` that it hands out to the storage engine above it.
pub struct Kernel<S, B> {
    pub stream: S,
    pub bucket: B,
    pub current: Version,
    pub last_sequence: Sequence,
    pub log: Vec<VersionUpdate>,
    pub capacity: usize,
}

/// A live cursor over a kernel's update log: the sequence number of the
/// next update to deliver.
pub struct Subscription {
    pub next: Sequence,
}

/// One step of consuming a subscription.
pub enum Delivery {
    /// The next update, in sequence order.
    Update(VersionUpdate),
    /// The subscriber fell behind the retention window and missed this
    /// many updates; the cursor has skipped to the oldest retained one.
    Lagged(u64),
    /// No update with the cursor's sequence number has been applied yet.
    Pending,
}

impl<S, B> Kernel<S, B> {
    /// The kernel's internal invariant: the log holds exactly the applied
    /// updates, stamped `1, 2, ...` in order, and the current version is
    /// their fold.
    pub open spec fn wf(&self) -> bool {
        &&& self.current.wf()
        &&& self.current@.sequence == self.last_sequence
        &&& self.log@.len() == self.last_sequence as int
        &&& forall|i: int| 0 <= i < self.log@.len()
            ==> (#[trigger] self.log@[i])@.sequence == i + 1
        &&& forall|i: int| 0 <= i < self.log@.len() ==> (#[trigger] self.log@[i]).wf()
        &&& self.current@ == replay(self.log@)
        &&& self.capacity >= 1
    }

    /// A fresh kernel owning the two capability handles, at the empty
    /// version, with no update applied and a retention window of 1024
    /// updates.
    pub fn new(stream: S, bucket: B) -> (k: Kernel<S, B>)
        ensures
            k.wf(),
            k.stream == stream,
            k.bucket == bucket,
            k.last_sequence == 0,
            k.log@.len() == 0,
            k.current@ == empty_version(),
            k.capacity == 1024,
    {
        let k = Kernel {
            stream,
            bucket,
            current: Version::new(),
            last_sequence: 0,
            log: Vec::new(),
            capacity: 1024,
        };
        proof {
            assert(k.current@ =~= empty_version());
        }
        k
    }

    /// The write-ahead log capability associated with this kernel.
    pub fn stream(&self) -> (s: &S)
        ensures
            s == self.stream,
    {
        &self.stream
    }

    /// The object-storage capability associated with this kernel.
    pub fn bucket(&self) -> (b: &B)
        ensures
            b == self.bucket,
    {
        &self.bucket
    }

    /// Atomically assigns the next sequence number, folds the delta into
    /// the authoritative version, and appends it to the broadcast log.
    ///
    /// A conflicting delta (one that writes and deletes the same key, or
    /// adds and deletes the same object) is refused whole.
    pub fn apply_update(&mut self, update: KernelUpdate) -> (r: Result<(), Error>)
        requires
            old(self).wf(),
            old(self).last_sequence < u64::MAX,
            update.wf(),
        ensures
            final(self).wf(),
            final(self).stream == old(self).stream,
            final(self).bucket == old(self).bucket,
            final(self).capacity == old(self).capacity,
            update_conflicted(update.update@) ==> {
                &&& r == Result::<(), Error>::Err(Error::InvalidArgument)
                &&& *final(self) == *old(self)
            },
            !update_conflicted(update.update@) ==> {
                &&& r == Result::<(), Error>::Ok(())
                &&& final(self).last_sequence == old(self).last_sequence + 1
                &&& final(self).log@.len() == old(self).log@.len() + 1
                &&& forall|i: int| 0 <= i < old(self).log@.len()
                    ==> final(self).log@[i] == old(self).log@[i]
                &&& final(self).log@.last()@
                    == stamped(update.update@, (old(self).last_sequence + 1) as u64)
                &&& final(self).current@ == fold_update(
                    old(self).current@,
                    stamped(update.update@, (old(self).last_sequence + 1) as u64),
                )
            },
    {
        if update.update.is_conflicted() {
            return Err(Error::InvalidArgument);
        }
        let next = self.last_sequence + 1;
        let mut vu = update.update;
        vu.sequence = next;
        proof {
            assert(vu@ =~= stamped(update.update@, next));
        }
        let folded = self.current.apply(&vu);
        self.current = folded;
        self.last_sequence = next;
        let ghost log0 = self.log@;
        self.log.push(vu);
        proof {
            assert(self.log@.drop_last() =~= log0);
            assert(self.log@.last() == vu);
            assert(self.current@ == replay(self.log@));
        }
        Ok(())
    }

    /// The latest folded snapshot. Never observes a partially folded
    /// state: the returned version is exactly the fold of every applied
    /// update.
    pub fn current_version(&self) -> (v: Version)
        requires
            self.wf(),
        ensures
            v.wf(),
            v@ == self.current@,
            v@ == replay(self.log@),
    {
        self.current.clone()
    }

    /// A live, ordered subscription to version updates.
    ///
    /// Passing `0` subscribes from the beginning; passing a non-zero
    /// sequence resumes from that historical point. Either way the cursor
    /// replays retained history before reaching live delivery; a cursor
    /// older than the retention window is told it lagged on its first
    /// poll.
    pub fn version_updates(&self, from: Sequence) -> (s: Subscription)
        requires
            self.wf(),
        ensures
            s.next == if from == 0 { 1u64 } else { from },
    {
        Subscription { next: if from == 0 { 1 } else { from } }
    }

    /// Consumes one step of a subscription: the next update in sequence
    /// order, or an explicit lag signal naming the number of missed
    /// updates, or nothing when the subscriber has seen every applied
    /// update.
    pub fn poll_update(&self, sub: &mut Subscription) -> (d: Delivery)
        requires
            self.wf(),
            old(sub).next >= 1,
            self.last_sequence < u64::MAX,
        ensures
            final(sub).next >= 1,
            old(sub).next > self.last_sequence ==> {
                &&& d is Pending
                &&& final(sub).next == old(sub).next
            },
            old(sub).next <= self.last_sequence
                && self.last_sequence - old(sub).next >= self.capacity ==> {
                &&& d == Delivery::Lagged(
                    (self.last_sequence - self.capacity as u64 + 1 - old(sub).next) as u64,
                )
                &&& final(sub).next == self.last_sequence - self.capacity as u64 + 1
            },
            old(sub).next <= self.last_sequence
                && self.last_sequence - old(sub).next < self.capacity ==> {
                &&& (d matches Delivery::Update(u) && u@ == self.log@[old(sub).next - 1]@)
                &&& final(sub).next == old(sub).next + 1
            },
    {
        if sub.next > self.last_sequence {
            return Delivery::Pending;
        }
        if self.last_sequence - sub.next >= self.capacity as u64 {
            let oldest = self.last_sequence - self.capacity as u64 + 1;
            let missed = oldest - sub.next;
            sub.next = oldest;
            return Delivery::Lagged(missed);
        }
        let n = self.log.len();
        proof {
            assert(n as int == self.last_sequence as int);
            assert(sub.next - 1 < n as int);
        }
        let idx = (sub.next - 1) as usize;
        let u = self.log[idx].clone();
        proof {
            assert(idx as int == sub.next - 1);
            assert(u@ == self.log@[sub.next - 1]@);
        }
        sub.next = sub.next + 1;
        Delivery::Update(u)
    }
}

/// Sequence numbers are assigned strictly increasing by exactly one per
/// accepted update, starting at one: the update at log position `i`
/// carries sequence `i + 1`.
pub proof fn lemma_sequences_dense<S, B>(k: Kernel<S, B>)
    requires
        k.wf(),
    ensures
        forall|i: int| 0 <= i < k.log@.len() ==> (#[trigger] k.log@[i])@.sequence == i + 1,
        k.log@.len() > 0 ==> k.log@[0]@.sequence == 1,
        forall|i: int, j: int| 0 <= i < j < k.log@.len()
            ==> k.log@[i]@.sequence < k.log@[j]@.sequence,
{
    assert forall|i: int, j: int| 0 <= i < j < k.log@.len()
        implies k.log@[i]@.sequence < k.log@[j]@.sequence by {
        assert(k.log@[i]@.sequence == i + 1);
        assert(k.log@[j]@.sequence == j + 1);
    }
}

/// A subscriber that consumes from the beginning receives the updates in
/// ascending sequence order with no gaps: its `n`-th delivery is the log
/// entry at position `n - 1`, which carries sequence `n`.
pub proof fn lemma_gap_free_delivery<S, B>(k: Kernel<S, B>, n: Sequence)
    requires
        k.wf(),
        1 <= n <= k.log@.len(),
    ensures
        k.log@[n - 1]@.sequence == n,
{
}

/// The current version always carries the sequence number of the most
/// recently applied update, and is exactly the fold of the whole update
/// log: no partially applied state is ever observable.
pub proof fn lemma_current_is_replay<S, B>(k: Kernel<S, B>)
    requires
        k.wf(),
    ensures
        k.current@.sequence == k.last_sequence,
        k.current@ == replay(k.log@),
{
}

} // verus!

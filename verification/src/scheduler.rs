//! The bundle loader's scheduler: which bundle reads run, which wait, and
//! who waits for which.
//!
//! At most `max_threads` bundles are read at a time.  A request for a chunk
//! of a bundle that is being read joins that read.  A request for another
//! bundle starts a read if a slot is free, and otherwise waits in a queue of
//! bundles that is served first come, first served, one bundle each time a
//! read ends.
//!
//! The scheduler only decides.  The caller reads the bundles, and tells the
//! scheduler when a read has ended.

use crate::backup::ChunkStore;
use crate::data::{BundleId, ChunkId};
use crate::error::{Error, ErrorKind};
use crate::hex::hex_string;
use crate::records::copy_bytes;
use vstd::prelude::*;

verus! {

/// A bundle with those who wait for chunks of it: each waiter is a ticket
/// of the caller's, with the chunk it wants.
#[derive(Clone, Debug, PartialEq, Eq)]
pub struct Waiting {
    pub bundle_id: BundleId,
    pub waiters: Vec<(ChunkId, u64)>,
}

/// What a `Waiting` stands for.
pub struct WaitingSpec {
    pub bundle_id: BundleId,
    pub waiters: Seq<(ChunkId, u64)>,
}

impl View for Waiting {
    type V = WaitingSpec;

    open spec fn view(&self) -> WaitingSpec {
        WaitingSpec { bundle_id: self.bundle_id, waiters: self.waiters@ }
    }
}

/// What the entries of a vector of `Waiting` stand for.
pub open spec fn waiting_views(list: Seq<Waiting>) -> Seq<WaitingSpec> {
    list.map_values(|w: Waiting| w@)
}

/// What the scheduler tells the one who asks for a chunk.
#[derive(Clone, Copy, Debug, PartialEq, Eq, Structural)]
pub enum Decision {
    /// The bundle is being read already: the slot is there, the bytes come
    /// when that read ends.
    Join,
    /// A slot was free: the caller is to start reading this bundle now.
    Start(BundleId),
    /// No slot is free: the request waits until the scheduler starts the
    /// bundle.
    Queued,
}

/// The position of the bundle in the list, if it is there.
pub open spec fn index_of(list: Seq<WaitingSpec>, bundle_id: BundleId) -> Option<int>
    decreases list.len(),
{
    if list.len() == 0 {
        None
    } else if list.last().bundle_id == bundle_id {
        Some(list.len() - 1)
    } else {
        index_of(list.drop_last(), bundle_id)
    }
}

/// The list with one more waiter on its `i`-th bundle.
pub open spec fn add_waiter(list: Seq<WaitingSpec>, i: int, chunk_id: ChunkId, waiter: u64) -> Seq<
    WaitingSpec,
> {
    list.update(
        i,
        WaitingSpec {
            bundle_id: list[i].bundle_id,
            waiters: list[i].waiters.push((chunk_id, waiter)),
        },
    )
}

/// A bundle with its first waiter.
pub open spec fn first_waiter(bundle_id: BundleId, chunk_id: ChunkId, waiter: u64) -> WaitingSpec {
    WaitingSpec { bundle_id, waiters: seq![(chunk_id, waiter)] }
}

/// What the end of a read sets going.
pub struct CompletionSpec {
    /// Those who waited for the bundle whose read ended.
    pub waiters: Seq<(ChunkId, u64)>,
    /// The bundle whose read the caller is to start now, with those who
    /// wait for it.
    pub promoted: Option<WaitingSpec>,
}

/// The state of the scheduler.
pub struct SchedulerSpec {
    pub max_threads: nat,
    /// The bundles being read.
    pub loading: Seq<WaitingSpec>,
    /// The bundles waiting to be read, the one that has waited longest
    /// first.
    pub queue: Seq<WaitingSpec>,
}

impl SchedulerSpec {
    /// The name of the `k`-th bundle, counting those being read and then
    /// those waiting.
    pub open spec fn bundle_at(self, k: int) -> BundleId {
        if k < self.loading.len() {
            self.loading[k].bundle_id
        } else {
            self.queue[k - self.loading.len()].bundle_id
        }
    }

    /// How many bundles are being read or waiting.
    pub open spec fn count(self) -> int {
        (self.loading.len() + self.queue.len()) as int
    }

    /// What holds of every state that the scheduler reaches: no more reads
    /// run than there are slots; no bundle is there twice; a bundle waits
    /// only while all slots are taken; and every waiting bundle has someone
    /// who waits for it.
    pub open spec fn wf(self) -> bool {
        &&& self.loading.len() <= self.max_threads
        &&& forall|j: int, k: int|
            0 <= j < k < self.count() ==> self.bundle_at(j) != self.bundle_at(k)
        &&& self.queue.len() > 0 ==> self.loading.len() == self.max_threads
        &&& forall|k: int| 0 <= k < self.queue.len() ==> (#[trigger] self.queue[k]).waiters.len() > 0
    }

    /// Whether the bundle is being read or waits to be.
    pub open spec fn pending(self, bundle_id: BundleId) -> bool {
        index_of(self.loading, bundle_id) is Some || index_of(self.queue, bundle_id) is Some
    }

    /// A request for a chunk of the bundle `bundle_id`.
    pub open spec fn request(self, chunk_id: ChunkId, bundle_id: BundleId, waiter: u64) -> (
        SchedulerSpec,
        Decision,
    ) {
        match index_of(self.loading, bundle_id) {
            Some(i) => (
                SchedulerSpec { loading: add_waiter(self.loading, i, chunk_id, waiter), ..self },
                Decision::Join,
            ),
            None => if self.loading.len() < self.max_threads {
                (
                    SchedulerSpec {
                        loading: self.loading.push(first_waiter(bundle_id, chunk_id, waiter)),
                        ..self
                    },
                    Decision::Start(bundle_id),
                )
            } else {
                match index_of(self.queue, bundle_id) {
                    Some(i) => (
                        SchedulerSpec {
                            queue: add_waiter(self.queue, i, chunk_id, waiter),
                            ..self
                        },
                        Decision::Queued,
                    ),
                    None => (
                        SchedulerSpec {
                            queue: self.queue.push(first_waiter(bundle_id, chunk_id, waiter)),
                            ..self
                        },
                        Decision::Queued,
                    ),
                }
            },
        }
    }

    /// The end of the read of the bundle `bundle_id`, with or without
    /// success.  `None` where no such read runs.
    pub open spec fn complete(self, bundle_id: BundleId) -> (SchedulerSpec, Option<CompletionSpec>) {
        match index_of(self.loading, bundle_id) {
            None => (self, None),
            Some(i) => {
                let rest = self.loading.remove(i);
                let waiters = self.loading[i].waiters;
                if self.queue.len() > 0 {
                    (
                        SchedulerSpec {
                            loading: rest.push(self.queue[0]),
                            queue: self.queue.skip(1),
                            ..self
                        },
                        Some(CompletionSpec { waiters, promoted: Some(self.queue[0]) }),
                    )
                } else {
                    (
                        SchedulerSpec { loading: rest, ..self },
                        Some(CompletionSpec { waiters, promoted: None }),
                    )
                }
            },
        }
    }
}

/// Where a bundle is found it is; where it is not found it is not there.
pub proof fn lemma_index_of(list: Seq<WaitingSpec>, bundle_id: BundleId)
    ensures
        match index_of(list, bundle_id) {
            Some(i) => 0 <= i < list.len() && list[i].bundle_id == bundle_id,
            None => forall|k: int| 0 <= k < list.len() ==> (#[trigger] list[k]).bundle_id != bundle_id,
        },
    decreases list.len(),
{
    if list.len() > 0 && list.last().bundle_id != bundle_id {
        lemma_index_of(list.drop_last(), bundle_id);
        if index_of(list, bundle_id).is_none() {
            assert forall|k: int| 0 <= k < list.len() implies (#[trigger] list[k]).bundle_id
                != bundle_id by {
                if k < list.len() - 1 {
                    assert(list.drop_last()[k] == list[k]);
                }
            }
        }
    }
}

/// A request leaves the scheduler in a state that it may be in.
pub proof fn lemma_request_preserves_wf(
    s: SchedulerSpec,
    chunk_id: ChunkId,
    bundle_id: BundleId,
    waiter: u64,
)
    requires
        s.wf(),
    ensures
        s.request(chunk_id, bundle_id, waiter).0.wf(),
        s.request(chunk_id, bundle_id, waiter).0.pending(bundle_id),
        s.request(chunk_id, bundle_id, waiter).0.max_threads == s.max_threads,
{
    let after = s.request(chunk_id, bundle_id, waiter).0;
    lemma_index_of(s.loading, bundle_id);
    lemma_index_of(s.queue, bundle_id);
    assert forall|k: int| 0 <= k < after.count() implies after.bundle_at(k) == if k < s.count() {
        s.bundle_at(k)
    } else {
        bundle_id
    } by {}
    assert forall|j: int, k: int| 0 <= j < k < after.count() implies after.bundle_at(j)
        != after.bundle_at(k) by {
        if k < s.count() {
            assert(s.bundle_at(j) != s.bundle_at(k));
        } else {
            if j < s.loading.len() {
                assert(s.loading[j].bundle_id != bundle_id);
            } else {
                assert(s.queue[j - s.loading.len()].bundle_id != bundle_id);
            }
        }
    }
    assert forall|k: int| 0 <= k < after.queue.len() implies (#[trigger] after.queue[k]).waiters.len()
        > 0 by {
        if k < s.queue.len() {
            assert(s.queue[k].waiters.len() > 0);
        }
    }
    lemma_pending_at(after, bundle_id);
    match index_of(s.loading, bundle_id) {
        Some(i) => {
            assert(after.bundle_at(i) == bundle_id);
        },
        None => {
            if s.loading.len() < s.max_threads {
                assert(after.bundle_at(s.loading.len() as int) == bundle_id);
            } else {
                match index_of(s.queue, bundle_id) {
                    Some(i) => {
                        assert(after.bundle_at(s.loading.len() + i) == bundle_id);
                    },
                    None => {
                        assert(after.bundle_at(s.count()) == bundle_id);
                    },
                }
            }
        },
    }
}

/// Whether the bundle is in the list with `waiter` as the last of those who
/// wait for it.
pub open spec fn waits_last(
    list: Seq<WaitingSpec>,
    bundle_id: BundleId,
    chunk_id: ChunkId,
    waiter: u64,
) -> bool {
    index_of(list, bundle_id) matches Some(i) && list[i].waiters.len() > 0
        && list[i].waiters.last() == (chunk_id, waiter)
}

/// A request is never lost: afterwards the one who asked waits for the
/// bundle, among those being read or among those waiting, behind all who
/// asked for it before; and nobody else's waiting has changed.
pub proof fn lemma_request_registers(
    s: SchedulerSpec,
    chunk_id: ChunkId,
    bundle_id: BundleId,
    waiter: u64,
)
    requires
        s.wf(),
    ensures
        ({
            let after = s.request(chunk_id, bundle_id, waiter).0;
            &&& waits_last(after.loading, bundle_id, chunk_id, waiter) || waits_last(
                after.queue,
                bundle_id,
                chunk_id,
                waiter,
            )
            &&& forall|k: int|
                0 <= k < s.loading.len() && s.loading[k].bundle_id != bundle_id
                    ==> after.loading[k] == s.loading[k]
            &&& forall|k: int|
                0 <= k < s.queue.len() && s.queue[k].bundle_id != bundle_id ==> after.queue[k]
                    == s.queue[k]
            &&& forall|k: int|
                0 <= k < s.loading.len() && s.loading[k].bundle_id == bundle_id
                    ==> after.loading[k].waiters == s.loading[k].waiters.push((chunk_id, waiter))
            &&& forall|k: int|
                0 <= k < s.queue.len() && s.queue[k].bundle_id == bundle_id ==> after.queue[k].waiters
                    == s.queue[k].waiters.push((chunk_id, waiter))
        }),
{
    let after = s.request(chunk_id, bundle_id, waiter).0;
    lemma_index_of(s.loading, bundle_id);
    lemma_index_of(s.queue, bundle_id);
    lemma_request_preserves_wf(s, chunk_id, bundle_id, waiter);
    lemma_index_of(after.loading, bundle_id);
    lemma_index_of(after.queue, bundle_id);
    lemma_pending_at(s, bundle_id);
    // under the invariant a bundle is in the lists at most once
    assert forall|j: int, k: int|
        0 <= j < after.count() && 0 <= k < after.count() && j != k implies after.bundle_at(j)
        != after.bundle_at(k) by {
        if j < k {
            assert(after.bundle_at(j) != after.bundle_at(k));
        } else {
            assert(after.bundle_at(k) != after.bundle_at(j));
        }
    }
    assert forall|j: int, k: int|
        0 <= j < s.count() && 0 <= k < s.count() && j != k implies s.bundle_at(j) != s.bundle_at(
        k,
    ) by {
        if j < k {
            assert(s.bundle_at(j) != s.bundle_at(k));
        } else {
            assert(s.bundle_at(k) != s.bundle_at(j));
        }
    }
    match index_of(s.loading, bundle_id) {
        Some(i) => {
            assert(after.loading[i].bundle_id == bundle_id);
            let found = index_of(after.loading, bundle_id)->0;
            assert(after.bundle_at(found) == bundle_id);
            assert(after.bundle_at(i) == bundle_id);
            assert forall|k: int|
                0 <= k < s.loading.len() && s.loading[k].bundle_id == bundle_id implies k == i by {
                assert(s.bundle_at(k) == bundle_id);
                assert(s.bundle_at(i) == bundle_id);
            }
            assert forall|k: int|
                0 <= k < s.queue.len() implies s.queue[k].bundle_id != bundle_id by {
                assert(s.bundle_at(k + s.loading.len()) == s.queue[k].bundle_id);
                assert(s.bundle_at(i) == bundle_id);
            }
        },
        None => {
            if s.loading.len() < s.max_threads {
                let at = s.loading.len() as int;
                assert(after.loading[at].bundle_id == bundle_id);
                let found = index_of(after.loading, bundle_id)->0;
                assert(after.bundle_at(found) == bundle_id);
                assert(after.bundle_at(at) == bundle_id);
                assert forall|k: int|
                    0 <= k < s.queue.len() implies s.queue[k].bundle_id != bundle_id by {
                    assert(s.queue.len() == 0);
                }
            } else {
                match index_of(s.queue, bundle_id) {
                    Some(i) => {
                        assert(after.queue[i].bundle_id == bundle_id);
                        let found = index_of(after.queue, bundle_id)->0;
                        assert(after.bundle_at(found + after.loading.len()) == bundle_id);
                        assert(after.bundle_at(i + after.loading.len()) == bundle_id);
                        assert forall|k: int|
                            0 <= k < s.queue.len() && s.queue[k].bundle_id
                                == bundle_id implies k == i by {
                            assert(s.bundle_at(k + s.loading.len()) == bundle_id);
                            assert(s.bundle_at(i + s.loading.len()) == bundle_id);
                        }
                    },
                    None => {
                        let at = s.queue.len() as int;
                        assert(after.queue[at].bundle_id == bundle_id);
                        let found = index_of(after.queue, bundle_id)->0;
                        assert(after.bundle_at(found + after.loading.len()) == bundle_id);
                        assert(after.bundle_at(at + after.loading.len()) == bundle_id);
                    },
                }
            }
        },
    }
}

/// A bundle that is somewhere in the lists is pending.
pub proof fn lemma_pending_at(s: SchedulerSpec, bundle_id: BundleId)
    ensures
        s.pending(bundle_id) <==> exists|k: int| 0 <= k < s.count() && s.bundle_at(k) == bundle_id,
{
    lemma_index_of(s.loading, bundle_id);
    lemma_index_of(s.queue, bundle_id);
    if s.pending(bundle_id) {
        if let Some(i) = index_of(s.loading, bundle_id) {
            assert(s.bundle_at(i) == bundle_id);
        } else {
            let i = index_of(s.queue, bundle_id)->0;
            assert(s.bundle_at(i + s.loading.len()) == bundle_id);
        }
    }
    if exists|k: int| 0 <= k < s.count() && s.bundle_at(k) == bundle_id {
        let k = choose|k: int| 0 <= k < s.count() && s.bundle_at(k) == bundle_id;
        if k < s.loading.len() {
            assert(s.loading[k].bundle_id == bundle_id);
        } else {
            assert(s.queue[k - s.loading.len()].bundle_id == bundle_id);
        }
    }
}

/// The end of a read leaves the scheduler in a state that it may be in, the
/// bundle whose read ended is no longer there, and the bundle that is
/// started in its place is the one that has waited longest.
pub proof fn lemma_complete_preserves_wf(s: SchedulerSpec, bundle_id: BundleId)
    requires
        s.wf(),
    ensures
        s.complete(bundle_id).0.wf(),
        s.complete(bundle_id).1 is Some ==> !s.complete(bundle_id).0.pending(bundle_id),
        s.complete(bundle_id).1 matches Some(done) ==> (done.promoted is Some <==> s.queue.len() > 0)
            && (done.promoted matches Some(next) ==> next == s.queue[0]),
        s.complete(bundle_id).1 is Some <==> index_of(s.loading, bundle_id) is Some,
{
    let after = s.complete(bundle_id).0;
    lemma_index_of(s.loading, bundle_id);
    lemma_index_of(s.queue, bundle_id);
    lemma_pending_at(s, bundle_id);
    match index_of(s.loading, bundle_id) {
        None => {},
        Some(i) => {
            let rest = s.loading.remove(i);
            // every bundle after the change was there before, at another place
            assert forall|k: int| 0 <= k < after.count() implies after.bundle_at(k) == s.bundle_at(
                if k < i {
                    k
                } else {
                    k + 1
                },
            ) by {
                if k < rest.len() {
                    assert(after.loading[k] == rest[k]);
                } else if s.queue.len() > 0 {
                    if k == rest.len() {
                        assert(after.loading[k] == s.queue[0]);
                    } else {
                        assert(after.queue[k - after.loading.len()] == s.queue[k
                            - after.loading.len() + 1]);
                    }
                }
            }
            assert forall|j: int, k: int| 0 <= j < k < after.count() implies after.bundle_at(j)
                != after.bundle_at(k) by {
                let j2 = if j < i {
                    j
                } else {
                    j + 1
                };
                let k2 = if k < i {
                    k
                } else {
                    k + 1
                };
                assert(s.bundle_at(j2) != s.bundle_at(k2));
            }
            assert forall|k: int| 0 <= k < after.queue.len() implies (
            #[trigger] after.queue[k]).waiters.len() > 0 by {
                assert(after.queue[k] == s.queue[k + 1]);
            }
            lemma_pending_at(after, bundle_id);
            if after.pending(bundle_id) {
                let k = choose|k: int| 0 <= k < after.count() && after.bundle_at(k) == bundle_id;
                let k2 = if k < i {
                    k
                } else {
                    k + 1
                };
                assert(s.bundle_at(k2) == bundle_id);
                assert(s.bundle_at(i) == bundle_id);
            }
        },
    }
}

/// The state after a run of requests that are all for chunks of one bundle,
/// and how many reads the caller was told to start.
pub open spec fn run_requests(s: SchedulerSpec, bundle_id: BundleId, requests: Seq<(ChunkId, u64)>)
    -> (SchedulerSpec, nat)
    decreases requests.len(),
{
    if requests.len() == 0 {
        (s, 0)
    } else {
        let (mid, starts) = run_requests(s, bundle_id, requests.drop_last());
        let (after, decision) = mid.request(requests.last().0, bundle_id, requests.last().1);
        (
            after,
            starts + if decision is Start {
                1nat
            } else {
                0nat
            },
        )
    }
}

/// Requests for chunks of one bundle are served by one read.
///
/// However many requests come in for chunks of the same bundle while none
/// of its reads ends, the caller is told to start a read at most once; it
/// is told so exactly if the bundle was neither being read nor waiting and
/// a slot was free.  Afterwards the bundle is there once, being read or
/// waiting to be, so that where no read was started yet exactly one will
/// be.
pub proof fn lemma_requests_coalesce(
    s: SchedulerSpec,
    bundle_id: BundleId,
    requests: Seq<(ChunkId, u64)>,
)
    requires
        s.wf(),
    ensures
        run_requests(s, bundle_id, requests).0.wf(),
        requests.len() > 0 ==> run_requests(s, bundle_id, requests).0.pending(bundle_id),
        run_requests(s, bundle_id, requests).1 <= 1,
        run_requests(s, bundle_id, requests).1 == 1 <==> requests.len() > 0 && !s.pending(bundle_id)
            && s.loading.len() < s.max_threads,
        run_requests(s, bundle_id, requests).0.max_threads == s.max_threads,
        s.pending(bundle_id) ==> run_requests(s, bundle_id, requests).0.pending(bundle_id),
        run_requests(s, bundle_id, requests).0.loading.len() >= s.loading.len(),
    decreases requests.len(),
{
    if requests.len() > 0 {
        let front = requests.drop_last();
        lemma_requests_coalesce(s, bundle_id, front);
        let (mid, starts) = run_requests(s, bundle_id, front);
        lemma_request_preserves_wf(mid, requests.last().0, bundle_id, requests.last().1);
        lemma_index_of(mid.loading, bundle_id);
        lemma_index_of(mid.queue, bundle_id);
        lemma_index_of(s.queue, bundle_id);
        lemma_index_of(s.loading, bundle_id);
        if front.len() == 0 {
            assert(mid == s);
        } else {
            // the bundle is pending in `mid`: if it waits, all slots are taken
            if index_of(mid.loading, bundle_id).is_none() {
                assert(mid.queue.len() > 0);
            }
        }
        if s.pending(bundle_id) && index_of(mid.loading, bundle_id).is_none() {
            assert(mid.queue.len() > 0);
        }
    }
}

/// The scheduler.
pub struct Scheduler {
    max_threads: usize,
    bundles_loading: Vec<Waiting>,
    bundles_to_load: Vec<Waiting>,
}

impl View for Scheduler {
    type V = SchedulerSpec;

    closed spec fn view(&self) -> SchedulerSpec {
        SchedulerSpec {
            max_threads: self.max_threads as nat,
            loading: waiting_views(self.bundles_loading@),
            queue: waiting_views(self.bundles_to_load@),
        }
    }
}

/// What the end of a read sets going.
#[derive(Clone, Debug, PartialEq, Eq)]
pub struct Completion {
    /// Those who waited for the bundle whose read ended: each is to be given
    /// its chunk, or the error of the read.
    pub waiters: Vec<(ChunkId, u64)>,
    /// The bundle whose read the caller is to start now, with those who
    /// wait for it.
    pub promoted: Option<Waiting>,
}

impl View for Completion {
    type V = CompletionSpec;

    open spec fn view(&self) -> CompletionSpec {
        CompletionSpec {
            waiters: self.waiters@,
            promoted: match self.promoted {
                Some(w) => Some(w@),
                None => None,
            },
        }
    }
}

/// The bundles that are being read and those that wait, for the operator.
#[derive(Clone, Debug, PartialEq, Eq)]
pub struct JobStatus {
    pub bundles_loading: Vec<BundleId>,
    pub bundles_to_load: Vec<BundleId>,
}

fn find_bundle(list: &Vec<Waiting>, bundle_id: BundleId) -> (found: Option<usize>)
    ensures
        match found {
            Some(i) => index_of(waiting_views(list@), bundle_id) == Some(i as int) && i
                < list@.len(),
            None => index_of(waiting_views(list@), bundle_id).is_none(),
        },
{
    let ghost all = waiting_views(list@);
    let mut i: usize = list.len();
    proof {
        assert(all.take(i as int) =~= all);
    }
    while i > 0
        invariant
            i <= list@.len(),
            all == waiting_views(list@),
            index_of(all, bundle_id) == index_of(all.take(i as int), bundle_id),
        decreases i,
    {
        proof {
            assert(all.take(i as int).last() == list@[i - 1]@);
            assert(all.take(i as int).drop_last() =~= all.take(i - 1));
        }
        if list[i - 1].bundle_id == bundle_id {
            return Some(i - 1);
        }
        i = i - 1;
    }
    None
}

fn bundle_ids(list: &Vec<Waiting>) -> (ids: Vec<BundleId>)
    ensures
        ids@ == waiting_views(list@).map_values(|w: WaitingSpec| w.bundle_id),
{
    let mut ids: Vec<BundleId> = Vec::new();
    let mut i: usize = 0;
    while i < list.len()
        invariant
            i <= list@.len(),
            ids@ == waiting_views(list@).take(i as int).map_values(|w: WaitingSpec| w.bundle_id),
        decreases list@.len() - i,
    {
        ids.push(list[i].bundle_id);
        proof {
            assert(ids@ =~= waiting_views(list@).take(i + 1).map_values(
                |w: WaitingSpec| w.bundle_id,
            ));
        }
        i = i + 1;
    }
    proof {
        assert(waiting_views(list@).take(i as int) =~= waiting_views(list@));
    }
    ids
}

fn push_waiter(list: &mut Vec<Waiting>, i: usize, chunk_id: ChunkId, waiter: u64)
    requires
        i < old(list)@.len(),
    ensures
        waiting_views(final(list)@) == add_waiter(
            waiting_views(old(list)@),
            i as int,
            chunk_id,
            waiter,
        ),
{
    let mut entry = list.remove(i);
    entry.waiters.push((chunk_id, waiter));
    list.insert(i, entry);
    proof {
        assert(waiting_views(list@) =~= add_waiter(
            waiting_views(old(list)@),
            i as int,
            chunk_id,
            waiter,
        ));
    }
}

fn push_bundle(list: &mut Vec<Waiting>, bundle_id: BundleId, chunk_id: ChunkId, waiter: u64)
    ensures
        waiting_views(final(list)@) == waiting_views(old(list)@).push(
            first_waiter(bundle_id, chunk_id, waiter),
        ),
{
    let mut waiters: Vec<(ChunkId, u64)> = Vec::new();
    waiters.push((chunk_id, waiter));
    proof {
        assert(waiters@ =~= seq![(chunk_id, waiter)]);
    }
    list.push(Waiting { bundle_id, waiters });
    proof {
        assert(waiting_views(list@) =~= waiting_views(old(list)@).push(
            first_waiter(bundle_id, chunk_id, waiter),
        ));
    }
}

impl Scheduler {
    /// A scheduler with `max_threads` slots and nothing to do.
    pub fn new(max_threads: usize) -> (scheduler: Scheduler)
        ensures
            scheduler@ == (SchedulerSpec {
                max_threads: max_threads as nat,
                loading: Seq::empty(),
                queue: Seq::empty(),
            }),
            scheduler@.wf(),
    {
        let scheduler = Scheduler {
            max_threads,
            bundles_loading: Vec::new(),
            bundles_to_load: Vec::new(),
        };
        proof {
            assert(scheduler@.loading =~= Seq::<WaitingSpec>::empty());
            assert(scheduler@.queue =~= Seq::<WaitingSpec>::empty());
        }
        scheduler
    }

    /// Takes a request for a chunk of the bundle `bundle_id` from the one
    /// who holds the ticket `waiter`.
    pub fn request(&mut self, chunk_id: ChunkId, bundle_id: BundleId, waiter: u64) -> (decision:
        Decision)
        ensures
            (final(self)@, decision) == old(self)@.request(chunk_id, bundle_id, waiter),
    {
        match find_bundle(&self.bundles_loading, bundle_id) {
            Some(i) => {
                push_waiter(&mut self.bundles_loading, i, chunk_id, waiter);
                Decision::Join
            },
            None => {
                if self.bundles_loading.len() < self.max_threads {
                    push_bundle(&mut self.bundles_loading, bundle_id, chunk_id, waiter);
                    Decision::Start(bundle_id)
                } else {
                    match find_bundle(&self.bundles_to_load, bundle_id) {
                        Some(i) => {
                            push_waiter(&mut self.bundles_to_load, i, chunk_id, waiter);
                        },
                        None => {
                            push_bundle(&mut self.bundles_to_load, bundle_id, chunk_id, waiter);
                        },
                    }
                    Decision::Queued
                }
            },
        }
    }

    /// Takes note that the read of the bundle `bundle_id` has ended, with
    /// or without success; gives those who waited for it and, where a bundle
    /// has been waiting, the one to read next.  `None`, and nothing changes,
    /// where no such read runs.
    pub fn complete(&mut self, bundle_id: BundleId) -> (done: Option<Completion>)
        ensures
            final(self)@ == old(self)@.complete(bundle_id).0,
            match done {
                Some(c) => old(self)@.complete(bundle_id).1 == Some(c@),
                None => old(self)@.complete(bundle_id).1.is_none(),
            },
    {
        let i = match find_bundle(&self.bundles_loading, bundle_id) {
            Some(i) => i,
            None => {
                return None;
            },
        };
        let ghost before = waiting_views(self.bundles_loading@);
        let ghost queue = waiting_views(self.bundles_to_load@);
        let ended = self.bundles_loading.remove(i);
        proof {
            assert(waiting_views(self.bundles_loading@) =~= before.remove(i as int));
            assert(ended@ == before[i as int]);
        }
        if self.bundles_to_load.len() > 0 {
            let next = self.bundles_to_load.remove(0);
            let mut waiters: Vec<(ChunkId, u64)> = Vec::new();
            let mut k: usize = 0;
            while k < next.waiters.len()
                invariant
                    k <= next.waiters@.len(),
                    waiters@ == next.waiters@.take(k as int),
                decreases next.waiters@.len() - k,
            {
                waiters.push(next.waiters[k]);
                proof {
                    assert(waiters@ =~= next.waiters@.take(k + 1));
                }
                k = k + 1;
            }
            proof {
                assert(next.waiters@.take(k as int) =~= next.waiters@);
            }
            let promoted = Waiting { bundle_id: next.bundle_id, waiters };
            proof {
                assert(promoted@ == next@);
                assert(next@ == queue[0]);
                assert(waiting_views(self.bundles_to_load@) =~= queue.skip(1));
            }
            self.bundles_loading.push(next);
            proof {
                assert(waiting_views(self.bundles_loading@) =~= before.remove(i as int).push(
                    queue[0],
                ));
            }
            Some(Completion { waiters: ended.waiters, promoted: Some(promoted) })
        } else {
            Some(Completion { waiters: ended.waiters, promoted: None })
        }
    }

    /// The bundles that are being read and those that wait.
    pub fn job_status(&self) -> (status: JobStatus)
        ensures
            status.bundles_loading@ == self@.loading.map_values(|w: WaitingSpec| w.bundle_id),
            status.bundles_to_load@ == self@.queue.map_values(|w: WaitingSpec| w.bundle_id),
    {
        JobStatus {
            bundles_loading: bundle_ids(&self.bundles_loading),
            bundles_to_load: bundle_ids(&self.bundles_to_load),
        }
    }

    /// How many reads may run at a time.
    pub fn max_threads(&self) -> (slots: usize)
        ensures
            slots == self@.max_threads,
    {
        self.max_threads
    }
}

/// What a waiter is given when the read of its bundle has ended.
#[derive(Debug, PartialEq, Eq)]
pub struct Delivery {
    /// The waiter's ticket.
    pub waiter: u64,
    /// The bytes of the chunk it waited for, or why there are none.
    pub outcome: Result<Vec<u8>, Error>,
}

/// The message for a bundle that could not be read.
pub open spec fn bundle_error_text(bundle_id: BundleId, detail: Seq<char>) -> Seq<char> {
    "Error reading bundle "@ + hex_string(bundle_id@) + ": "@ + detail
}

/// The message for a chunk that its bundle turns out not to hold.
pub open spec fn chunk_not_in_bundle_text(chunk_id: ChunkId, bundle_id: BundleId) -> Seq<char> {
    "Expected to find chunk "@ + hex_string(chunk_id@) + " in bundle "@ + hex_string(bundle_id@)
}

/// Whether `delivery` is what the waiter with the ticket `waiter` is owed
/// for the chunk `chunk_id` of the bundle `bundle_id`: the chunk's bytes
/// where the bundle was read and holds the chunk; `NotFound` where it was
/// read and does not; and where it could not be read, the failure of the
/// read, of the same kind, with the bundle named.
pub open spec fn delivers(
    delivery: Delivery,
    chunk_id: ChunkId,
    waiter: u64,
    bundle_id: BundleId,
    loaded: Result<Map<ChunkId, Seq<u8>>, (ErrorKind, Seq<char>)>,
) -> bool {
    &&& delivery.waiter == waiter
    &&& match loaded {
        Ok(chunks) => if chunks.contains_key(chunk_id) {
            delivery.outcome matches Ok(data) && data@ == chunks[chunk_id]
        } else {
            delivery.outcome matches Err(e) && e.kind == ErrorKind::NotFound && e.message@
                == chunk_not_in_bundle_text(chunk_id, bundle_id)
        },
        Err((kind, detail)) => delivery.outcome matches Err(e) && e.kind == kind && e.message@
            == bundle_error_text(bundle_id, detail),
    }
}

/// What the outcome of a bundle read stands for.
pub open spec fn loaded_view(loaded: Result<ChunkStore, Error>) -> Result<
    Map<ChunkId, Seq<u8>>,
    (ErrorKind, Seq<char>),
> {
    match loaded {
        Ok(store) => Ok(store@),
        Err(e) => Err((e.kind, e.message@)),
    }
}

fn deliver_one(chunk_id: ChunkId, waiter: u64, bundle_id: BundleId, loaded: &Result<
    ChunkStore,
    Error,
>) -> (delivery: Delivery)
    ensures
        delivers(delivery, chunk_id, waiter, bundle_id, loaded_view(*loaded)),
{
    let outcome = match loaded {
        Ok(store) => match store.get(&chunk_id) {
            Some(data) => Ok(copy_bytes(data)),
            None => {
                let mut message = String::from_str("Expected to find chunk ");
                let chunk_name = chunk_id.to_hex();
                message.append(chunk_name.as_str());
                message.append(" in bundle ");
                let bundle_name = bundle_id.to_hex();
                message.append(bundle_name.as_str());
                Err(Error { kind: ErrorKind::NotFound, message })
            },
        },
        Err(e) => {
            let mut message = String::from_str("Error reading bundle ");
            let bundle_name = bundle_id.to_hex();
            message.append(bundle_name.as_str());
            message.append(": ");
            message.append(e.message.as_str());
            Err(Error { kind: e.kind, message })
        },
    };
    Delivery { waiter, outcome }
}

/// Makes out what each of those who waited for a bundle is given, now that
/// its read has ended: every waiter gets the chunk it waited for, or the
/// failure; where the read failed, every waiter gets the same failure.
pub fn deliver(waiters: &Vec<(ChunkId, u64)>, bundle_id: BundleId, loaded: &Result<
    ChunkStore,
    Error,
>) -> (deliveries: Vec<Delivery>)
    ensures
        deliveries@.len() == waiters@.len(),
        forall|k: int|
            0 <= k < waiters@.len() ==> delivers(
                #[trigger] deliveries@[k],
                waiters@[k].0,
                waiters@[k].1,
                bundle_id,
                loaded_view(*loaded),
            ),
{
    let mut deliveries: Vec<Delivery> = Vec::new();
    let mut k: usize = 0;
    while k < waiters.len()
        invariant
            k <= waiters@.len(),
            deliveries@.len() == k,
            forall|j: int|
                0 <= j < k ==> delivers(
                    #[trigger] deliveries@[j],
                    waiters@[j].0,
                    waiters@[j].1,
                    bundle_id,
                    loaded_view(*loaded),
                ),
        decreases waiters@.len() - k,
    {
        let (chunk_id, waiter) = waiters[k];
        deliveries.push(deliver_one(chunk_id, waiter, bundle_id, loaded));
        k = k + 1;
    }
    deliveries
}

} // verus!

//! The metadata fetch scheduler.
//!
//! Each registered cluster is polled on its own fixed interval, independently
//! of every other cluster. The scheduler here is the decision core of that
//! loop: it keeps the registrations, says which cluster is due, and turns a
//! fetch outcome into the log record that replicates the snapshot — or into
//! nothing, when the fetch failed, so the previous snapshot stays in place.
//! The surrounding binary drives it: it probes connections, performs the
//! fetches on its worker pool with their timeouts, and appends the returned
//! records to the log topic.

use vstd::prelude::*;

verus! {

use crate::cache::{produce_result, CacheHandle, WireRecord};
use crate::error::{ProduceError, RegistrationError};
use crate::metadata::{bytes_eq, clone_bytes, ClusterMetadata, Value, ValueView};

/// Where one cluster's polling task stands.
#[derive(Clone, Copy, Debug, PartialEq, Eq, Structural)]
pub enum FetchState {
    /// Waiting for its next scheduled fetch.
    Idle,
    /// A fetch is in flight.
    Fetching,
}

/// One registered cluster: its name, its broker connection string, where its
/// polling task stands, and when it is next due.
pub struct ClusterTask {
    pub name: Vec<u8>,
    pub connection: Vec<u8>,
    pub state: FetchState,
    pub next_due: u64,
}

/// Ghost image of a [`ClusterTask`].
pub struct ClusterTaskView {
    pub name: Seq<u8>,
    pub connection: Seq<u8>,
    pub state: FetchState,
    pub next_due: u64,
}

impl View for ClusterTask {
    type V = ClusterTaskView;

    open spec fn view(&self) -> ClusterTaskView {
        ClusterTaskView {
            name: self.name@,
            connection: self.connection@,
            state: self.state,
            next_due: self.next_due,
        }
    }
}

/// Ghost image of the registration list.
pub open spec fn tasks_view(s: Seq<ClusterTask>) -> Seq<ClusterTaskView> {
    Seq::new(s.len(), |i: int| s[i]@)
}

/// Whether some registration carries `name`.
pub open spec fn has_cluster(tasks: Seq<ClusterTaskView>, name: Seq<u8>) -> bool {
    exists|j: int| 0 <= j < tasks.len() && (#[trigger] tasks[j]).name == name
}

/// Whether a task is due for a fetch at `now`.
pub open spec fn task_due(t: ClusterTaskView, now: u64) -> bool {
    t.state == FetchState::Idle && t.next_due <= now
}

/// The name of the store that holds cluster-metadata snapshots
/// (`metadata` in utf-8).
pub open spec fn metadata_store() -> Seq<u8> {
    seq![109u8, 101u8, 116u8, 97u8, 100u8, 97u8, 116u8, 97u8]
}

/// The store name under which metadata snapshots are written.
pub fn metadata_store_name() -> (r: Vec<u8>)
    ensures
        r@ == metadata_store(),
{
    let mut r: Vec<u8> = Vec::new();
    r.push(109);
    r.push(101);
    r.push(116);
    r.push(97);
    r.push(100);
    r.push(97);
    r.push(116);
    r.push(97);
    assert(r@ =~= metadata_store());
    r
}

/// The per-cluster polling scheduler. Time is a tick counter supplied by the
/// caller (seconds, in the surrounding binary).
pub struct MetadataFetcher {
    clusters: Vec<ClusterTask>,
    interval: u64,
}

impl View for MetadataFetcher {
    type V = Seq<ClusterTaskView>;

    closed spec fn view(&self) -> Seq<ClusterTaskView> {
        tasks_view(self.clusters@)
    }
}

impl MetadataFetcher {
    /// Ticks between one cluster's consecutive fetches.
    pub closed spec fn spec_interval(&self) -> u64 {
        self.interval
    }

    /// Ticks between one cluster's consecutive fetches.
    pub fn interval(&self) -> (r: u64)
        ensures
            r == self.spec_interval(),
    {
        self.interval
    }

    /// Internal invariant: registered names are distinct, the interval is a
    /// whole tick.
    pub closed spec fn wf(&self) -> bool {
        &&& self.interval >= 1
        &&& forall|j: int, l: int|
            0 <= j < l < self.clusters@.len() ==> (#[trigger] self.clusters@[j])@.name != (
            #[trigger] self.clusters@[l])@.name
    }

    /// A scheduler with no registrations, polling every `poll_interval` ticks.
    pub fn new(poll_interval: u64) -> (r: MetadataFetcher)
        requires
            poll_interval >= 1,
        ensures
            r@ == Seq::<ClusterTaskView>::empty(),
            r.spec_interval() == poll_interval,
            r.wf(),
    {
        let r = MetadataFetcher { clusters: Vec::new(), interval: poll_interval };
        proof {
            assert(r@ =~= Seq::<ClusterTaskView>::empty());
        }
        r
    }

    /// The index of the registration named `name`, if any.
    fn find(&self, name: &Vec<u8>) -> (r: Option<usize>)
        ensures
            match r {
                Some(i) => i < self@.len() && self@[i as int].name == name@,
                None => !has_cluster(self@, name@),
            },
    {
        let mut i: usize = 0;
        while i < self.clusters.len()
            invariant
                i <= self.clusters@.len(),
                forall|j: int| 0 <= j < i ==> (#[trigger] tasks_view(self.clusters@)[j]).name
                    != name@,
            decreases self.clusters@.len() - i,
        {
            if bytes_eq(&self.clusters[i].name, name) {
                assert(tasks_view(self.clusters@)[i as int].name == name@);
                return Some(i);
            }
            i = i + 1;
        }
        None
    }

    /// Registers a cluster and schedules its first fetch at `now`. Succeeds
    /// exactly when the registration-time probe of the connection succeeded
    /// (`reachable`) and the name is new. Registrations already present are
    /// never touched, so neither a failed probe nor an earlier cluster's
    /// fetch failures can disturb them.
    pub fn add_cluster(
        &mut self,
        name: Vec<u8>,
        connection: Vec<u8>,
        reachable: bool,
        now: u64,
    ) -> (r: Result<(), RegistrationError>)
        requires
            old(self).wf(),
        ensures
            final(self).wf(),
            final(self).spec_interval() == old(self).spec_interval(),
            match r {
                Ok(()) => !has_cluster(old(self)@, name@) && reachable && final(self)@ == old(
                    self,
                )@.push(
                    ClusterTaskView {
                        name: name@,
                        connection: connection@,
                        state: FetchState::Idle,
                        next_due: now,
                    },
                ),
                Err(e) => final(self)@ == old(self)@ && if has_cluster(old(self)@, name@) {
                    e == RegistrationError::DuplicateName
                } else {
                    !reachable && e == RegistrationError::ClusterUnreachable
                },
            },
    {
        match self.find(&name) {
            Some(_) => Err(RegistrationError::DuplicateName),
            None => {
                if !reachable {
                    return Err(RegistrationError::ClusterUnreachable);
                }
                let ghost before = self.clusters@;
                self.clusters.push(
                    ClusterTask { name, connection, state: FetchState::Idle, next_due: now },
                );
                proof {
                    assert forall|j: int| 0 <= j < before.len() implies tasks_view(
                        self.clusters@,
                    )[j] == tasks_view(before)[j] by {
                        assert(self.clusters@[j] == before[j]);
                    }
                    assert(tasks_view(self.clusters@) =~= tasks_view(before).push(
                        tasks_view(self.clusters@).last(),
                    ));
                    let cur = self.clusters@;
                    assert forall|j: int, l: int| 0 <= j < l < cur.len() implies (
                    #[trigger] cur[j])@.name != (#[trigger] cur[l])@.name by {
                        if l < before.len() {
                            assert(cur[j] == before[j]);
                            assert(cur[l] == before[l]);
                        } else {
                            assert(cur[j] == before[j]);
                            if before[j]@.name == cur[l]@.name {
                                assert(tasks_view(before)[j].name == cur[l]@.name);
                                assert(has_cluster(tasks_view(before), cur[l]@.name));
                            }
                        }
                    }
                }
                Ok(())
            },
        }
    }

    /// How many clusters are registered.
    pub fn len(&self) -> (r: usize)
        ensures
            r == self@.len(),
    {
        self.clusters.len()
    }

    /// Some cluster whose fetch is due at `now`, if any is.
    pub fn due_task(&self, now: u64) -> (r: Option<usize>)
        ensures
            match r {
                Some(i) => i < self@.len() && task_due(self@[i as int], now),
                None => forall|j: int| 0 <= j < self@.len() ==> !task_due(self@[j], now),
            },
    {
        let mut i: usize = 0;
        while i < self.clusters.len()
            invariant
                i <= self.clusters@.len(),
                forall|j: int| 0 <= j < i ==> !task_due(tasks_view(self.clusters@)[j], now),
            decreases self.clusters@.len() - i,
        {
            let due = match self.clusters[i].state {
                FetchState::Idle => self.clusters[i].next_due <= now,
                FetchState::Fetching => false,
            };
            if due {
                assert(task_due(tasks_view(self.clusters@)[i as int], now));
                return Some(i);
            }
            assert(!task_due(tasks_view(self.clusters@)[i as int], now));
            i = i + 1;
        }
        None
    }

    /// Starts the fetch of the cluster at `i`: marks it in flight and books
    /// its next slot one interval from `now`, whatever this fetch will bring.
    /// Returns the cluster's name and connection string for the fetch task.
    /// No other registration changes.
    pub fn begin_fetch(&mut self, i: usize, now: u64) -> (r: (Vec<u8>, Vec<u8>))
        requires
            old(self).wf(),
            i < old(self)@.len(),
            now + old(self).spec_interval() <= u64::MAX,
        ensures
            final(self).wf(),
            final(self).spec_interval() == old(self).spec_interval(),
            final(self)@ == old(self)@.update(
                i as int,
                ClusterTaskView {
                    name: old(self)@[i as int].name,
                    connection: old(self)@[i as int].connection,
                    state: FetchState::Fetching,
                    next_due: (now + old(self).spec_interval()) as u64,
                },
            ),
            r.0@ == old(self)@[i as int].name,
            r.1@ == old(self)@[i as int].connection,
    {
        let ghost before = self.clusters@;
        let task = self.clusters.remove(i);
        let name_copy = clone_bytes(&task.name);
        let connection_copy = clone_bytes(&task.connection);
        let next_due = now + self.interval;
        let updated = ClusterTask {
            name: task.name,
            connection: task.connection,
            state: FetchState::Fetching,
            next_due,
        };
        self.clusters.insert(i, updated);
        proof {
            assert(self.clusters@ =~= before.update(
                i as int,
                ClusterTask {
                    name: before[i as int].name,
                    connection: before[i as int].connection,
                    state: FetchState::Fetching,
                    next_due,
                },
            ));
            assert(tasks_view(self.clusters@) =~= tasks_view(before).update(
                i as int,
                ClusterTaskView {
                    name: before[i as int]@.name,
                    connection: before[i as int]@.connection,
                    state: FetchState::Fetching,
                    next_due,
                },
            ));
        }
        (name_copy, connection_copy)
    }

    /// Finishes the fetch of the cluster at `i` with its outcome. A
    /// successful fetch becomes a wire record that writes the snapshot under
    /// the `metadata` store through the shared cache handle, replicating it to every
    /// instance via the log. A failed fetch (`None`) produces no record: the
    /// cache, and with it the cluster's last replicated snapshot, is left
    /// untouched, and the task — already booked for its next slot — simply
    /// returns to idle, as does every fetch regardless of outcome. No other
    /// registration changes either way.
    pub fn complete_fetch(
        &mut self,
        i: usize,
        fetched: Option<ClusterMetadata>,
        cache: &CacheHandle,
    ) -> (r: Result<Option<WireRecord>, ProduceError>)
        requires
            old(self).wf(),
            i < old(self)@.len(),
        ensures
            final(self).wf(),
            final(self).spec_interval() == old(self).spec_interval(),
            final(self)@ == old(self)@.update(
                i as int,
                ClusterTaskView {
                    name: old(self)@[i as int].name,
                    connection: old(self)@[i as int].connection,
                    state: FetchState::Idle,
                    next_due: old(self)@[i as int].next_due,
                },
            ),
            match fetched {
                None => r == Ok::<Option<WireRecord>, ProduceError>(None),
                Some(md) => match r {
                    Ok(Some(w)) => produce_result(
                        metadata_store(),
                        old(self)@[i as int].name,
                        ValueView::Metadata(md@),
                    ) == Ok::<_, ProduceError>((w.key_bytes@, w.payload@)),
                    Ok(None) => false,
                    Err(e) => produce_result(
                        metadata_store(),
                        old(self)@[i as int].name,
                        ValueView::Metadata(md@),
                    ) == Err::<(Seq<u8>, Seq<u8>), _>(e),
                },
            },
    {
        let ghost before = self.clusters@;
        let task = self.clusters.remove(i);
        let name_copy = clone_bytes(&task.name);
        let updated = ClusterTask {
            name: task.name,
            connection: task.connection,
            state: FetchState::Idle,
            next_due: task.next_due,
        };
        self.clusters.insert(i, updated);
        proof {
            assert(self.clusters@ =~= before.update(
                i as int,
                ClusterTask {
                    name: before[i as int].name,
                    connection: before[i as int].connection,
                    state: FetchState::Idle,
                    next_due: before[i as int].next_due,
                },
            ));
            assert(tasks_view(self.clusters@) =~= tasks_view(before).update(
                i as int,
                ClusterTaskView {
                    name: before[i as int]@.name,
                    connection: before[i as int]@.connection,
                    state: FetchState::Idle,
                    next_due: before[i as int]@.next_due,
                },
            ));
        }
        match fetched {
            None => Ok(None),
            Some(md) => {
                let store = metadata_store_name();
                let value = Value::Metadata(md);
                match cache.write(&store, &name_copy, &value) {
                    Ok(w) => Ok(Some(w)),
                    Err(e) => Err(e),
                }
            },
        }
    }
}

} // verus!

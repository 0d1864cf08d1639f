//! The bounded fetch-and-hash pipeline.
//!
//! `plan_fetches` resolves an ordered name list into fetch tasks (or
//! immediate failures for unresolvable URIs). `FetchPlan` is the scheduling
//! state machine the caller drives: it hands out at most `limit` tasks at a
//! time, takes one outcome per task — success with a hash accumulator, or a
//! failure cause — and finally yields the successes and failures in task
//! order. One task's failure only frees its slot; every other task's state
//! is untouched.

use vstd::prelude::*;
use sha2::Digest;
use crate::catalog::Catalog;
use crate::converter::HashedPackage;
use crate::converter::{upstream_ok, file_ok};
use crate::eopkg::index::Package;
use crate::uri::{resolved_url, url_last_segment, join_url, url_filename};
use vstd::pervasive::VecAdditionalExecFns;

verus! {

/// The 256-bit digest of a byte sequence, as the sha2 crate computes it;
/// it depends on the bytes alone.
pub uninterp spec fn sha256_of(bytes: Seq<u8>) -> Seq<u8>;

/// Relies on sha2::Sha256 through digest::Digest::digest: the 32-byte
/// digest of the input, a function of the bytes alone.
#[verifier::external_body]
fn sha256_digest(bytes: &[u8]) -> (r: [u8; 32])
    ensures
        r@ == sha256_of(bytes@),
{
    sha2::Sha256::digest(bytes).into()
}

/// A hash accumulator: bytes are streamed in chunk by chunk and the digest
/// of everything fed so far is produced at the end.
pub struct HashAccumulator {
    data: Vec<u8>,
}

impl HashAccumulator {
    /// The bytes fed so far.
    pub closed spec fn bytes(self) -> Seq<u8> {
        self.data@
    }

    /// An empty accumulator.
    pub fn new() -> (r: HashAccumulator)
        ensures
            r.bytes() == Seq::<u8>::empty(),
    {
        let r = HashAccumulator { data: Vec::new() };
        proof {
            assert(r.bytes() =~= Seq::<u8>::empty());
        }
        r
    }

    /// Feed one chunk.
    pub fn update(&mut self, chunk: &[u8])
        ensures
            final(self).bytes() == old(self).bytes() + chunk@,
    {
        let n = chunk.len();
        let ghost pre = self.data@;
        let mut i: usize = 0;
        while i < n
            invariant
                i <= n,
                n == chunk@.len(),
                self.data@ == pre + chunk@.take(i as int),
            decreases n - i,
        {
            self.data.push(chunk[i]);
            proof {
                assert(self.data@ =~= pre + chunk@.take(i as int + 1));
            }
            i = i + 1;
        }
        proof {
            assert(chunk@.take(n as int) =~= chunk@);
            assert(self.bytes() =~= old(self).bytes() + chunk@);
        }
    }

    /// The digest of everything fed so far.
    pub fn finalize(&self) -> (h: [u8; 32])
        ensures
            h@ == sha256_of(self.bytes()),
    {
        sha256_digest(self.data.as_slice())
    }
}

/// Why one artifact's fetch failed.
#[derive(Debug)]
pub enum FetchCause {
    /// Its URI did not resolve against the origin.
    Uri,
    /// Its resolved URL has no final path segment to name a file.
    InvalidUri,
    /// The transport reported this cause while fetching it.
    Transport(String),
}

/// One artifact's failure, tagged with its position in the input ordering.
pub struct FetchFailure {
    pub index: usize,
    pub name: String,
    pub cause: FetchCause,
}

/// One ready-to-run fetch: the input position, the package record, the
/// resolved absolute URL and the file name to store the bytes under.
pub struct FetchTask {
    pub index: usize,
    pub package: Package,
    pub url: String,
    pub filename: String,
}

/// Whether an input name resolves all the way to a fetch task.
pub open spec fn plan_ok(cat: Catalog, origin: Seq<char>, name: Seq<char>) -> bool {
    file_ok(origin, cat.record(name))
}

/// Whether a fetch task is the correct resolution of its input position.
pub open spec fn task_matches(
    cat: Catalog,
    origin: Seq<char>,
    names: Seq<Seq<char>>,
    t: FetchTask,
) -> bool {
    &&& t.index < names.len()
    &&& plan_ok(cat, origin, names[t.index as int])
    &&& t.package@ == cat.record(names[t.index as int])
    &&& t.url@ == resolved_url(origin, t.package@.package_uri).unwrap()
    &&& t.filename@ == url_last_segment(t.url@).unwrap()
}

/// Whether an immediate failure correctly describes its input position.
pub open spec fn failure_matches(
    cat: Catalog,
    origin: Seq<char>,
    names: Seq<Seq<char>>,
    f: FetchFailure,
) -> bool {
    &&& f.index < names.len()
    &&& !plan_ok(cat, origin, names[f.index as int])
    &&& f.name@ == names[f.index as int]
    &&& f.cause == (if !upstream_ok(origin, cat.record(names[f.index as int])) {
        FetchCause::Uri
    } else {
        FetchCause::InvalidUri
    })
}

/// Resolve an ordered name list against the catalog and origin into fetch
/// tasks; a name whose URI does not resolve, or whose resolved URL yields
/// no file name, becomes an immediate failure instead. Tasks and failures
/// keep the input order and every input position lands in exactly one of
/// the two lists.
#[verifier::rlimit(100)]
pub fn plan_fetches(names: &Vec<String>, catalog: &Catalog, origin: &str) -> (r: (
    Vec<FetchTask>,
    Vec<FetchFailure>,
))
    requires
        catalog.wf(),
        forall|i: int|
            0 <= i < names.deep_view().len() ==> catalog.contains_name(
                #[trigger] names.deep_view()[i],
            ),
    ensures
        forall|j: int|
            0 <= j < r.0@.len() ==> task_matches(
                *catalog,
                origin@,
                names.deep_view(),
                #[trigger] r.0@[j],
            ),
        forall|j1: int, j2: int| 0 <= j1 < j2 < r.0@.len() ==> r.0@[j1].index < r.0@[j2].index,
        forall|i: int|
            0 <= i < names.deep_view().len() && plan_ok(
                *catalog,
                origin@,
                #[trigger] names.deep_view()[i],
            ) ==> exists|j: int| 0 <= j < r.0@.len() && (#[trigger] r.0@[j]).index == i,
        forall|j: int|
            0 <= j < r.1@.len() ==> failure_matches(
                *catalog,
                origin@,
                names.deep_view(),
                #[trigger] r.1@[j],
            ),
        forall|j1: int, j2: int| 0 <= j1 < j2 < r.1@.len() ==> r.1@[j1].index < r.1@[j2].index,
        forall|i: int|
            0 <= i < names.deep_view().len() && !plan_ok(
                *catalog,
                origin@,
                #[trigger] names.deep_view()[i],
            ) ==> exists|j: int| 0 <= j < r.1@.len() && (#[trigger] r.1@[j]).index == i,
{
    let n = names.len();
    let mut tasks: Vec<FetchTask> = Vec::new();
    let mut failures: Vec<FetchFailure> = Vec::new();
    let mut i: usize = 0;
    while i < n
        invariant
            i <= n,
            n == names.deep_view().len(),
            catalog.wf(),
            forall|ii: int|
                0 <= ii < names.deep_view().len() ==> catalog.contains_name(
                    #[trigger] names.deep_view()[ii],
                ),
            forall|j: int|
                0 <= j < tasks@.len() ==> (#[trigger] tasks@[j]).index < i && task_matches(
                    *catalog,
                    origin@,
                    names.deep_view(),
                    tasks@[j],
                ),
            forall|j1: int, j2: int|
                0 <= j1 < j2 < tasks@.len() ==> tasks@[j1].index < tasks@[j2].index,
            forall|ii: int|
                0 <= ii < i && plan_ok(*catalog, origin@, #[trigger] names.deep_view()[ii])
                    ==> exists|j: int| 0 <= j < tasks@.len() && (#[trigger] tasks@[j]).index == ii,
            forall|j: int|
                0 <= j < failures@.len() ==> (#[trigger] failures@[j]).index < i
                    && failure_matches(*catalog, origin@, names.deep_view(), failures@[j]),
            forall|j1: int, j2: int|
                0 <= j1 < j2 < failures@.len() ==> failures@[j1].index < failures@[j2].index,
            forall|ii: int|
                0 <= ii < i && !plan_ok(*catalog, origin@, #[trigger] names.deep_view()[ii])
                    ==> exists|j: int|
                    0 <= j < failures@.len() && (#[trigger] failures@[j]).index == ii,
        decreases n - i,
    {
        let ghost tasks0 = tasks@;
        let ghost failures0 = failures@;
        let name = &names[i];
        proof {
            assert(names.deep_view()[i as int] == name@);
        }
        let pkg = match catalog.get(name) {
            Some(p) => p,
            None => {
                proof {
                    assert(false);
                }
                return (tasks, failures);
            },
        };
        let ghost rec = catalog.record(name@);
        match join_url(origin, pkg.package_uri.as_str()) {
            Some(url) => {
                match url_filename(url.as_str()) {
                    Some(filename) => {
                        let t = FetchTask { index: i, package: pkg.clone(), url, filename };
                        proof {
                            assert(plan_ok(*catalog, origin@, names.deep_view()[i as int]));
                            assert(task_matches(*catalog, origin@, names.deep_view(), t));
                        }
                        tasks.push(t);
                    },
                    None => {
                        let f = FetchFailure {
                            index: i,
                            name: name.clone(),
                            cause: FetchCause::InvalidUri,
                        };
                        proof {
                            assert(upstream_ok(origin@, rec));
                            assert(!plan_ok(*catalog, origin@, names.deep_view()[i as int]));
                            assert(failure_matches(*catalog, origin@, names.deep_view(), f));
                        }
                        failures.push(f);
                    },
                }
            },
            None => {
                let f = FetchFailure { index: i, name: name.clone(), cause: FetchCause::Uri };
                proof {
                    assert(!upstream_ok(origin@, rec));
                    assert(!plan_ok(*catalog, origin@, names.deep_view()[i as int]));
                    assert(failure_matches(*catalog, origin@, names.deep_view(), f));
                }
                failures.push(f);
            },
        }
        proof {
            assert forall|ii: int|
                0 <= ii < i + 1 && plan_ok(*catalog, origin@, #[trigger] names.deep_view()[ii])
                implies exists|j: int|
                0 <= j < tasks@.len() && (#[trigger] tasks@[j]).index == ii by {
                if ii < i {
                    let j = choose|j: int| 0 <= j < tasks0.len() && tasks0[j].index == ii;
                    assert(tasks@[j].index == ii);
                } else {
                    assert(tasks@[tasks@.len() - 1].index == ii);
                }
            }
            assert forall|ii: int|
                0 <= ii < i + 1 && !plan_ok(*catalog, origin@, #[trigger] names.deep_view()[ii])
                implies exists|j: int|
                0 <= j < failures@.len() && (#[trigger] failures@[j]).index == ii by {
                if ii < i {
                    let j = choose|j: int| 0 <= j < failures0.len() && failures0[j].index == ii;
                    assert(failures@[j].index == ii);
                } else {
                    assert(failures@[failures@.len() - 1].index == ii);
                }
            }
        }
        i = i + 1;
    }
    (tasks, failures)
}

/// One recorded outcome of a fetch task.
pub enum TaskOutcome {
    /// The artifact was fetched and hashed; here is its record and hash.
    Fetched(HashedPackage),
    /// The transport failed with this cause.
    Failed(String),
}

/// The successes among a prefix of recorded outcomes, in task order.
pub open spec fn successes_of(outs: Seq<Option<TaskOutcome>>) -> Seq<HashedPackage>
    decreases outs.len(),
{
    if outs.len() == 0 {
        Seq::empty()
    } else {
        let rest = successes_of(outs.drop_last());
        match outs.last() {
            Some(TaskOutcome::Fetched(hp)) => rest.push(hp),
            _ => rest,
        }
    }
}

/// The transport failures among a prefix of recorded outcomes, in task
/// order, each tagged with its task's input position and package name.
pub open spec fn failures_of(outs: Seq<Option<TaskOutcome>>, tasks: Seq<FetchTask>) -> Seq<
    FetchFailure,
>
    decreases outs.len(),
{
    if outs.len() == 0 {
        Seq::empty()
    } else {
        let rest = failures_of(outs.drop_last(), tasks);
        let i = outs.len() - 1;
        match outs.last() {
            Some(TaskOutcome::Failed(c)) => rest.push(
                FetchFailure {
                    index: tasks[i].index,
                    name: tasks[i].package.name,
                    cause: FetchCause::Transport(c),
                },
            ),
            _ => rest,
        }
    }
}

/// Law: when every task has a recorded outcome, the successes and the
/// failures together account for every task exactly once — one task's
/// failure never keeps another task's outcome out of the results.
pub proof fn lemma_outcomes_partition(outs: Seq<Option<TaskOutcome>>, tasks: Seq<FetchTask>)
    requires
        forall|i: int| 0 <= i < outs.len() ==> (#[trigger] outs[i]) is Some,
    ensures
        successes_of(outs).len() + failures_of(outs, tasks).len() == outs.len(),
    decreases outs.len(),
{
    if outs.len() > 0 {
        assert forall|i: int| 0 <= i < outs.drop_last().len() implies (#[trigger] outs.drop_last()[i]) is Some by {
            assert(outs[i] is Some);
        }
        lemma_outcomes_partition(outs.drop_last(), tasks);
    }
}

/// The scheduling state of the bounded fetch pipeline: which tasks have
/// been started, which are in flight, and each finished task's outcome.
/// At no instant are more than `limit` tasks in flight.
pub struct FetchPlan {
    tasks: Vec<FetchTask>,
    limit: usize,
    next: usize,
    inflight: Vec<usize>,
    outcomes: Vec<Option<TaskOutcome>>,
}

impl FetchPlan {
    /// The tasks, in input order.
    pub closed spec fn tasks_seq(self) -> Seq<FetchTask> {
        self.tasks@
    }

    /// The concurrency bound the plan was made with.
    pub closed spec fn limit_spec(self) -> int {
        self.limit as int
    }

    /// How many tasks have been started so far.
    pub closed spec fn started(self) -> int {
        self.next as int
    }

    /// The positions of the started-but-unfinished tasks.
    pub closed spec fn inflight_seq(self) -> Seq<usize> {
        self.inflight@
    }

    /// The recorded outcome of each task position, if any yet.
    pub closed spec fn outcomes_seq(self) -> Seq<Option<TaskOutcome>> {
        self.outcomes@
    }

    /// How many tasks are in flight right now.
    pub open spec fn in_flight_count(self) -> int {
        self.inflight_seq().len() as int
    }

    /// Whether task position `i` is in flight right now.
    pub open spec fn is_in_flight(self, i: int) -> bool {
        exists|k: int| 0 <= k < self.inflight_seq().len() && self.inflight_seq()[k] == i
    }

    /// Well-formedness: started tasks are a prefix, in-flight positions are
    /// distinct started positions without an outcome yet, exactly the
    /// finished started positions have outcomes, every recorded success
    /// carries its task's package — and never are more than `limit` tasks
    /// in flight.
    pub open spec fn wf(self) -> bool {
        &&& self.limit_spec() >= 1
        &&& self.started() <= self.tasks_seq().len()
        &&& self.outcomes_seq().len() == self.tasks_seq().len()
        &&& self.in_flight_count() <= self.limit_spec()
        &&& forall|k1: int, k2: int|
            0 <= k1 < k2 < self.inflight_seq().len() ==> self.inflight_seq()[k1]
                != self.inflight_seq()[k2]
        &&& forall|k: int|
            0 <= k < self.inflight_seq().len() ==> (#[trigger] self.inflight_seq()[k])
                < self.started()
        &&& forall|i: int|
            0 <= i < self.started() ==> ((#[trigger] self.outcomes_seq()[i]) is Some
                <==> !self.is_in_flight(i))
        &&& forall|i: int|
            self.started() <= i < self.outcomes_seq().len() ==> (#[trigger] self.outcomes_seq()[i])
                is None
        &&& forall|i: int|
            0 <= i < self.outcomes_seq().len()
                ==> match #[trigger] self.outcomes_seq()[i] {
                Some(TaskOutcome::Fetched(hp)) => hp.package@ == self.tasks_seq()[i].package@,
                _ => true,
            }
    }

    /// Law: at no instant does a well-formed plan have more started-but-
    /// unfinished fetches than the concurrency limit it was made with.
    pub proof fn lemma_bounded_in_flight(self)
        requires
            self.wf(),
        ensures
            self.in_flight_count() <= self.limit_spec(),
    {
    }

    /// A fresh plan over these tasks with this concurrency bound: nothing
    /// started, nothing in flight, no outcomes.
    pub fn new(tasks: Vec<FetchTask>, limit: usize) -> (r: FetchPlan)
        requires
            limit >= 1,
        ensures
            r.wf(),
            r.tasks_seq() == tasks@,
            r.limit_spec() == limit,
            r.started() == 0,
            r.in_flight_count() == 0,
            forall|i: int| 0 <= i < r.outcomes_seq().len() ==> (#[trigger] r.outcomes_seq()[i]) is None,
            r.outcomes_seq().len() == tasks@.len(),
    {
        let n = tasks.len();
        let mut outcomes: Vec<Option<TaskOutcome>> = Vec::new();
        let mut i: usize = 0;
        while i < n
            invariant
                i <= n,
                outcomes@.len() == i,
                forall|j: int| 0 <= j < i ==> (#[trigger] outcomes@[j]) is None,
            decreases n - i,
        {
            outcomes.push(None);
            i = i + 1;
        }
        FetchPlan { tasks, limit, next: 0, inflight: Vec::new(), outcomes }
    }

    /// How many tasks the plan holds.
    pub fn task_count(&self) -> (n: usize)
        ensures
            n == self.tasks_seq().len(),
    {
        self.tasks.len()
    }

    /// The task at a position.
    pub fn task(&self, i: usize) -> (t: &FetchTask)
        requires
            i < self.tasks_seq().len(),
        ensures
            *t == self.tasks_seq()[i as int],
    {
        &self.tasks[i]
    }

    /// How many tasks are in flight right now.
    pub fn in_flight(&self) -> (n: usize)
        ensures
            n == self.in_flight_count(),
    {
        self.inflight.len()
    }

    /// Start the next task if one is pending and a concurrency slot is
    /// free: its position is handed out and counted in flight. Yields
    /// nothing — and changes nothing — when the queue is drained or all
    /// slots are taken.
    pub fn start(&mut self) -> (r: Option<usize>)
        requires
            old(self).wf(),
        ensures
            final(self).wf(),
            final(self).tasks_seq() == old(self).tasks_seq(),
            final(self).limit_spec() == old(self).limit_spec(),
            match r {
                Some(i) => {
                    &&& i == old(self).started()
                    &&& old(self).started() < old(self).tasks_seq().len()
                    &&& old(self).in_flight_count() < old(self).limit_spec()
                    &&& final(self).started() == old(self).started() + 1
                    &&& final(self).inflight_seq() == old(self).inflight_seq().push(i)
                    &&& final(self).outcomes_seq() == old(self).outcomes_seq()
                    &&& final(self).is_in_flight(i as int)
                },
                None => {
                    &&& (old(self).started() == old(self).tasks_seq().len() || old(
                        self,
                    ).in_flight_count() == old(self).limit_spec())
                    &&& *final(self) == *old(self)
                },
            },
    {
        if self.next < self.tasks.len() && self.inflight.len() < self.limit {
            let i = self.next;
            self.next = self.next + 1;
            self.inflight.push(i);
            proof {
                let pre = old(self).inflight_seq();
                let post = self.inflight_seq();
                assert(post =~= pre.push(i));
                assert(post[post.len() - 1] == i);
                assert(self.is_in_flight(i as int));
                assert forall|x: int| self.is_in_flight(x) implies old(self).is_in_flight(x) || x
                    == i by {
                    let k = choose|k: int| 0 <= k < post.len() && post[k] == x;
                    if k < pre.len() {
                        assert(pre[k] == x);
                    }
                }
                assert forall|j: int|
                    0 <= j < self.started() implies ((#[trigger] self.outcomes_seq()[j]) is Some
                    <==> !self.is_in_flight(j)) by {
                    if j < old(self).started() {
                        if old(self).is_in_flight(j) {
                            let k = choose|k: int| 0 <= k < pre.len() && pre[k] == j;
                            assert(post[k] == j);
                        }
                    } else {
                        assert(j == i);
                        assert(old(self).outcomes_seq()[j] is None);
                    }
                }
            }
            Some(i)
        } else {
            None
        }
    }

    /// Drop position `i` from the in-flight list.
    #[verifier::loop_isolation(false)]
    fn release_slot(&mut self, i: usize)
        requires
            old(self).is_in_flight(i as int),
            forall|k1: int, k2: int|
                0 <= k1 < k2 < old(self).inflight_seq().len() ==> old(self).inflight_seq()[k1]
                    != old(self).inflight_seq()[k2],
        ensures
            final(self).tasks_seq() == old(self).tasks_seq(),
            final(self).limit_spec() == old(self).limit_spec(),
            final(self).started() == old(self).started(),
            final(self).outcomes_seq() == old(self).outcomes_seq(),
            final(self).in_flight_count() == old(self).in_flight_count() - 1,
            forall|x: int|
                final(self).is_in_flight(x) <==> old(self).is_in_flight(x) && x != i,
            forall|k1: int, k2: int|
                0 <= k1 < k2 < final(self).inflight_seq().len() ==> final(self).inflight_seq()[k1]
                    != final(self).inflight_seq()[k2],
            forall|k: int|
                0 <= k < final(self).inflight_seq().len() ==> final(self).inflight_seq()[k]
                    == old(self).inflight_seq()[k] || final(self).inflight_seq()[k] == old(
                    self,
                ).inflight_seq()[old(self).inflight_seq().len() - 1],
    {
        let n = self.inflight.len();
        let mut k: usize = 0;
        while k < n
            invariant
                k <= n,
                n == self.inflight@.len(),
                *self == *old(self),
                forall|j: int| 0 <= j < k ==> self.inflight@[j] != i,
            decreases n - k,
        {
            if self.inflight[k] == i {
                let ghost pre = self.inflight@;
                self.inflight.swap_remove(k);
                proof {
                    let post = self.inflight@;
                    assert(pre[k as int] == i);
                    assert forall|x: int| self.is_in_flight(x) implies old(self).is_in_flight(x)
                        && x != i by {
                        let kk = choose|kk: int| 0 <= kk < post.len() && post[kk] == x;
                        if kk == k {
                            assert(post[kk] == pre[pre.len() - 1]);
                            if k < pre.len() - 1 {
                                assert(pre[k as int] != pre[pre.len() - 1]);
                            }
                            assert(x != i);
                        } else {
                            assert(post[kk] == pre[kk]);
                            if kk < k {
                                assert(pre[kk] != pre[k as int]);
                            } else {
                                assert(pre[k as int] != pre[kk]);
                            }
                            assert(pre[kk] != i);
                        }
                    }
                    assert forall|x: int| old(self).is_in_flight(x) && x != i implies self.is_in_flight(
                        x,
                    ) by {
                        let kk = choose|kk: int| 0 <= kk < pre.len() && pre[kk] == x;
                        if kk == k {
                            assert(pre[kk] == i);
                        } else if kk == pre.len() - 1 {
                            if k < post.len() {
                                assert(post[k as int] == x);
                            }
                        } else {
                            assert(post[kk] == x);
                        }
                    }
                    assert forall|k1: int, k2: int|
                        0 <= k1 < k2 < post.len() implies post[k1] != post[k2] by {
                        let a: int = if k1 == k {
                            pre.len() - 1
                        } else {
                            k1
                        };
                        let b: int = if k2 == k {
                            pre.len() - 1
                        } else {
                            k2
                        };
                        assert(post[k1] == pre[a]);
                        assert(post[k2] == pre[b]);
                    }
                }
                return;
            }
            k = k + 1;
        }
        proof {
            let kk = choose|kk: int|
                0 <= kk < old(self).inflight_seq().len() && old(self).inflight_seq()[kk] == i;
            assert(self.inflight@[kk] != i);
            assert(false);
        }
    }

    /// Record a successful fetch of the in-flight task at position `i`:
    /// the bytes fed to `acc` hashed into a `HashedPackage` for that
    /// task's record. Frees the slot; no other task's state changes.
    pub fn complete_fetched(&mut self, i: usize, acc: &HashAccumulator)
        requires
            old(self).wf(),
            old(self).is_in_flight(i as int),
        ensures
            final(self).wf(),
            final(self).tasks_seq() == old(self).tasks_seq(),
            final(self).limit_spec() == old(self).limit_spec(),
            final(self).started() == old(self).started(),
            final(self).in_flight_count() == old(self).in_flight_count() - 1,
            forall|x: int|
                final(self).is_in_flight(x) <==> old(self).is_in_flight(x) && x != i,
            final(self).outcomes_seq().len() == old(self).outcomes_seq().len(),
            forall|j: int|
                0 <= j < old(self).outcomes_seq().len() && j != i
                    ==> final(self).outcomes_seq()[j] == #[trigger] old(self).outcomes_seq()[j],
            final(self).outcomes_seq()[i as int] matches Some(o) && o matches TaskOutcome::Fetched(
                hp,
            ) && hp.package@ == old(self).tasks_seq()[i as int].package@ && hp.hash@ == sha256_of(
                acc.bytes(),
            ),
    {
        proof {
            let k = choose|k: int|
                0 <= k < old(self).inflight_seq().len() && old(self).inflight_seq()[k] == i;
            assert(old(self).inflight_seq()[k] < old(self).started());
        }
        let hash = acc.finalize();
        let package = self.tasks[i].package.clone();
        let ghost mid = *self;
        self.outcomes.set(i, Some(TaskOutcome::Fetched(HashedPackage { hash, package })));
        self.release_slot(i);
        proof {
            assert(self.outcomes_seq() =~= mid.outcomes_seq().update(
                i as int,
                self.outcomes_seq()[i as int],
            ));
            assert forall|j: int|
                0 <= j < self.started() implies ((#[trigger] self.outcomes_seq()[j]) is Some
                <==> !self.is_in_flight(j)) by {
                if j != i {
                    assert(self.outcomes_seq()[j] == old(self).outcomes_seq()[j]);
                    assert(old(self).is_in_flight(j) <==> self.is_in_flight(j));
                }
            }
        }
    }

    /// Record a transport failure of the in-flight task at position `i`,
    /// with its cause. Frees the slot; no other task's state changes, so
    /// the remaining queued and in-flight fetches still run.
    pub fn complete_failed(&mut self, i: usize, cause: String)
        requires
            old(self).wf(),
            old(self).is_in_flight(i as int),
        ensures
            final(self).wf(),
            final(self).tasks_seq() == old(self).tasks_seq(),
            final(self).limit_spec() == old(self).limit_spec(),
            final(self).started() == old(self).started(),
            final(self).in_flight_count() == old(self).in_flight_count() - 1,
            forall|x: int|
                final(self).is_in_flight(x) <==> old(self).is_in_flight(x) && x != i,
            final(self).outcomes_seq().len() == old(self).outcomes_seq().len(),
            forall|j: int|
                0 <= j < old(self).outcomes_seq().len() && j != i
                    ==> final(self).outcomes_seq()[j] == #[trigger] old(self).outcomes_seq()[j],
            final(self).outcomes_seq()[i as int] matches Some(o) && o matches TaskOutcome::Failed(
                c,
            ) && c@ == cause@,
    {
        proof {
            let k = choose|k: int|
                0 <= k < old(self).inflight_seq().len() && old(self).inflight_seq()[k] == i;
            assert(old(self).inflight_seq()[k] < old(self).started());
        }
        let ghost mid0 = *self;
        self.outcomes.set(i, Some(TaskOutcome::Failed(cause)));
        self.release_slot(i);
        proof {
            assert(self.outcomes_seq() =~= mid0.outcomes_seq().update(
                i as int,
                self.outcomes_seq()[i as int],
            ));
            assert forall|j: int|
                0 <= j < self.started() implies ((#[trigger] self.outcomes_seq()[j]) is Some
                <==> !self.is_in_flight(j)) by {
                if j != i {
                    assert(self.outcomes_seq()[j] == old(self).outcomes_seq()[j]);
                    assert(old(self).is_in_flight(j) <==> self.is_in_flight(j));
                }
            }
        }
    }

    /// Whether every task has been started and finished.
    pub fn is_done(&self) -> (r: bool)
        requires
            self.wf(),
        ensures
            r <==> (self.started() == self.tasks_seq().len() && self.in_flight_count() == 0),
            r ==> forall|i: int|
                0 <= i < self.outcomes_seq().len() ==> (#[trigger] self.outcomes_seq()[i]) is Some,
    {
        let r = self.next == self.tasks.len() && self.inflight.len() == 0;
        proof {
            if r {
                assert forall|i: int| 0 <= i < self.outcomes_seq().len() implies (#[trigger] self.outcomes_seq()[i]) is Some by {
                    assert(!self.is_in_flight(i));
                }
            }
        }
        r
    }

    /// Hand the recorded outcomes out: the successes and the transport
    /// failures, each in task order, together covering every task.
    #[verifier::loop_isolation(false)]
    pub fn finish(self) -> (r: (Vec<HashedPackage>, Vec<FetchFailure>))
        requires
            self.wf(),
            self.started() == self.tasks_seq().len(),
            self.in_flight_count() == 0,
        ensures
            r.0@ == successes_of(self.outcomes_seq()),
            r.1@ == failures_of(self.outcomes_seq(), self.tasks_seq()),
            r.0@.len() + r.1@.len() == self.tasks_seq().len(),
    {
        proof {
            assert forall|i: int| 0 <= i < self.outcomes_seq().len() implies (#[trigger] self.outcomes_seq()[i]) is Some by {
                assert(!self.is_in_flight(i));
            }
            lemma_outcomes_partition(self.outcomes_seq(), self.tasks_seq());
        }
        let FetchPlan { tasks, mut outcomes, .. } = self;
        let ghost all = outcomes@;
        let n = tasks.len();
        let mut successes: Vec<HashedPackage> = Vec::new();
        let mut failures: Vec<FetchFailure> = Vec::new();
        let mut i: usize = 0;
        proof {
            assert(successes_of(all.take(0)) =~= Seq::<HashedPackage>::empty());
            assert(failures_of(all.take(0), tasks@) =~= Seq::<FetchFailure>::empty());
        }
        while i < n
            invariant
                i <= n,
                n == all.len(),
                n == tasks@.len(),
                outcomes@ == all.skip(i as int),
                successes@ == successes_of(all.take(i as int)),
                failures@ == failures_of(all.take(i as int), tasks@),
            decreases n - i,
        {
            let o = outcomes.remove(0);
            proof {
                assert(o == all[i as int]);
                assert(outcomes@ =~= all.skip(i as int + 1));
                let t = all.take(i as int + 1);
                assert(t.drop_last() =~= all.take(i as int));
                assert(t.last() == all[i as int]);
                assert(t.len() - 1 == i as int);
            }
            match o {
                Some(TaskOutcome::Fetched(hp)) => {
                    successes.push(hp);
                },
                Some(TaskOutcome::Failed(c)) => {
                    let t = &tasks[i];
                    failures.push(
                        FetchFailure {
                            index: t.index,
                            name: t.package.name.clone(),
                            cause: FetchCause::Transport(c),
                        },
                    );
                },
                None => {
                    proof {
                        assert(false);
                    }
                },
            }
            i = i + 1;
        }
        proof {
            assert(all.take(n as int) =~= all);
        }
        (successes, failures)
    }
}

} // verus!

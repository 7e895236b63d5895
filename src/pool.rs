//! The pool's bookkeeping: one FIFO job queue shared by a fixed set of
//! workers, each waiting for a task, running one, or terminated.
use vstd::prelude::*;

verus! {

/// Raised when a pool is asked for zero workers.
#[derive(Clone, Copy, Debug, PartialEq, Eq, Structural)]
pub struct PoolCreationError;

/// What one worker is doing.
#[derive(Clone, Copy, Debug, PartialEq, Eq, Structural)]
pub enum WorkerState {
    /// Blocked on the job queue.
    Waiting,
    /// Executing the task with this id.
    Running(u64),
    /// Saw the queue closed and empty; its thread has exited.
    Terminated,
}

/// Raised when a task is submitted after teardown has closed the queue.
#[derive(Clone, Copy, Debug, PartialEq, Eq, Structural)]
pub enum ExecuteError {
    ShuttingDown,
}

/// What a waiting worker gets from the job queue.
#[derive(Clone, Copy, Debug, PartialEq, Eq, Structural)]
pub enum Delivery {
    /// The task with this id, to run now.
    Task(u64),
    /// Nothing yet: the worker keeps waiting.
    Empty,
    /// The queue is closed and drained: the worker exits.
    Closed,
}

/// The ids `0, 1, ..., n - 1`, in order.
pub open spec fn ids_below(n: nat) -> Seq<u64> {
    Seq::new(n, |i: int| i as u64)
}

proof fn lemma_ids_below(n: nat)
    requires
        n <= u64::MAX,
    ensures
        ids_below(n).no_duplicates(),
        forall|t: u64| #[trigger] ids_below(n).contains(t) <==> t < n,
{
    assert forall|t: u64| t < n implies #[trigger] ids_below(n).contains(t) by {
        assert(ids_below(n)[t as int] == t);
    }
}

/// The abstract state of a pool.
pub struct PoolView {
    /// Tasks sent and not yet received, oldest first.
    pub queue: Seq<u64>,
    /// One state per worker, by ordinal.
    pub workers: Seq<WorkerState>,
    /// Whether the sending end is still held.
    pub open: bool,
    /// How many tasks were ever submitted; task ids are `0..submitted`.
    pub submitted: nat,
    /// Tasks in the order workers received them.
    pub started: Seq<u64>,
    /// Tasks in the order workers finished them.
    pub completed: Seq<u64>,
}

/// Worker `w` is executing task `t`.
pub open spec fn runs(workers: Seq<WorkerState>, w: int, t: u64) -> bool {
    0 <= w < workers.len() && workers[w] == WorkerState::Running(t)
}

/// Some worker is executing task `t`.
pub open spec fn is_running(workers: Seq<WorkerState>, t: u64) -> bool {
    exists|w: int| #[trigger] runs(workers, w, t)
}

/// Some worker has terminated.
pub open spec fn any_terminated(workers: Seq<WorkerState>) -> bool {
    exists|w: int| 0 <= w < workers.len() && #[trigger] workers[w] == WorkerState::Terminated
}

impl PoolView {
    /// Every worker has terminated.
    pub open spec fn finished(self) -> bool {
        forall|w: int| 0 <= w < self.workers.len() ==> #[trigger] self.workers[w] == WorkerState::Terminated
    }

    /// The pool's invariant: at least one worker; what was received and what
    /// is queued together are exactly the submitted ids, in order; each
    /// received task is either finished (once) or run by exactly one worker;
    /// and a worker terminates only once the queue is closed and empty.
    pub open spec fn wf(self) -> bool {
        &&& self.workers.len() >= 1
        &&& self.submitted <= u64::MAX
        &&& self.started + self.queue == ids_below(self.submitted)
        &&& self.completed.no_duplicates()
        &&& forall|t: u64| #[trigger] self.started.contains(t)
            <==> (self.completed.contains(t) || is_running(self.workers, t))
        &&& forall|t: u64| #[trigger] self.completed.contains(t) ==> !is_running(self.workers, t)
        &&& forall|w1: int, w2: int, t: u64|
            #[trigger] runs(self.workers, w1, t) && #[trigger] runs(self.workers, w2, t) ==> w1 == w2
        &&& any_terminated(self.workers) ==> !self.open && self.queue.len() == 0
    }
}

/// A pool of workers around one job queue.
pub struct Pool {
    queue: std::collections::VecDeque<u64>,
    workers: Vec<WorkerState>,
    open: bool,
    next_id: u64,
    started: Ghost<Seq<u64>>,
    completed: Ghost<Seq<u64>>,
}

impl View for Pool {
    type V = PoolView;

    closed spec fn view(&self) -> PoolView {
        PoolView {
            queue: self.queue@,
            workers: self.workers@,
            open: self.open,
            submitted: self.next_id as nat,
            started: self.started@,
            completed: self.completed@,
        }
    }
}

impl Pool {
    /// The pool's invariant, on its abstract state.
    pub open spec fn wf(&self) -> bool {
        self@.wf()
    }

    /// A pool of `size` waiting workers around an empty, open queue.
    pub fn build(size: usize) -> (r: Result<Pool, PoolCreationError>)
        ensures
            size == 0 <==> r is Err,
            r matches Ok(p) ==> {
                &&& p.wf()
                &&& p@.workers == Seq::new(size as nat, |w: int| WorkerState::Waiting)
                &&& p@.queue.len() == 0
                &&& p@.open
                &&& p@.submitted == 0
                &&& p@.started.len() == 0
                &&& p@.completed.len() == 0
            },
    {
        if size == 0 {
            return Err(PoolCreationError);
        }
        let mut workers: Vec<WorkerState> = Vec::new();
        let mut i: usize = 0;
        while i < size
            invariant
                i <= size,
                workers@ == Seq::new(i as nat, |w: int| WorkerState::Waiting),
            decreases size - i,
        {
            workers.push(WorkerState::Waiting);
            i = i + 1;
        }
        let p = Pool {
            queue: std::collections::VecDeque::new(),
            workers,
            open: true,
            next_id: 0,
            started: Ghost(Seq::empty()),
            completed: Ghost(Seq::empty()),
        };
        assert(p@.started + p@.queue =~= ids_below(0));
        Ok(p)
    }

    /// Sends a new task onto the queue, without blocking, and returns its id;
    /// ids are handed out in submission order.
    pub fn execute(&mut self) -> (r: Result<u64, ExecuteError>)
        requires
            old(self).wf(),
            old(self)@.submitted < u64::MAX,
        ensures
            final(self).wf(),
            old(self)@.open <==> r is Ok,
            r matches Ok(id) ==> {
                &&& id == old(self)@.submitted
                &&& final(self)@.queue == old(self)@.queue.push(id)
                &&& final(self)@.submitted == old(self)@.submitted + 1
                &&& final(self)@.workers == old(self)@.workers
                &&& final(self)@.open == old(self)@.open
                &&& final(self)@.started == old(self)@.started
                &&& final(self)@.completed == old(self)@.completed
            },
            r is Err ==> final(self)@ == old(self)@,
    {
        if !self.open {
            return Err(ExecuteError::ShuttingDown);
        }
        let id = self.next_id;
        self.queue.push_back(id);
        self.next_id = id + 1;
        proof {
            assert(self@.started + self@.queue =~= (old(self)@.started + old(self)@.queue).push(id));
            assert(ids_below(id as nat).push(id) =~= ids_below(self@.submitted));
        }
        Ok(id)
    }

    /// Worker `w`, waiting, pulls from the queue: the oldest task if there is
    /// one; else, while the queue is open, nothing (it keeps waiting); else
    /// it terminates.
    pub fn receive(&mut self, w: usize) -> (r: Delivery)
        requires
            old(self).wf(),
            w < old(self)@.workers.len(),
            old(self)@.workers[w as int] == WorkerState::Waiting,
        ensures
            final(self).wf(),
            final(self)@.submitted == old(self)@.submitted,
            final(self)@.open == old(self)@.open,
            final(self)@.completed == old(self)@.completed,
            old(self)@.queue.len() > 0 ==> {
                let t = old(self)@.queue[0];
                &&& r == Delivery::Task(t)
                &&& final(self)@.queue == old(self)@.queue.drop_first()
                &&& final(self)@.started == old(self)@.started.push(t)
                &&& final(self)@.workers == old(self)@.workers.update(w as int, WorkerState::Running(t))
            },
            old(self)@.queue.len() == 0 ==> {
                &&& final(self)@.queue == old(self)@.queue
                &&& final(self)@.started == old(self)@.started
            },
            old(self)@.queue.len() == 0 && old(self)@.open ==> {
                &&& r == Delivery::Empty
                &&& final(self)@.workers == old(self)@.workers
            },
            old(self)@.queue.len() == 0 && !old(self)@.open ==> {
                &&& r == Delivery::Closed
                &&& final(self)@.workers == old(self)@.workers.update(w as int, WorkerState::Terminated)
            },
    {
        match self.queue.pop_front() {
            Some(t) => {
                self.workers.set(w, WorkerState::Running(t));
                self.started = Ghost(self.started@.push(t));
                proof {
                    let o = old(self)@;
                    let n = self@;
                    lemma_ids_below(o.submitted);
                    assert(n.started + n.queue =~= o.started + o.queue);
                    assert(o.queue =~= seq![t] + n.queue);
                    assert(ids_below(o.submitted)[o.started.len() as int] == t);
                    assert(!o.started.contains(t)) by {
                        if o.started.contains(t) {
                            let i = choose|i: int| 0 <= i < o.started.len() && o.started[i] == t;
                            assert((o.started + o.queue)[i] == t);
                        }
                    }
                    assert forall|u: u64| #[trigger] n.started.contains(u)
                        <==> (n.completed.contains(u) || is_running(n.workers, u)) by {
                        if u != t {
                            assert(n.started.contains(u) <==> o.started.contains(u)) by {
                                if o.started.contains(u) {
                                    let i = choose|i: int| 0 <= i < o.started.len() && o.started[i] == u;
                                    assert(n.started[i] == u);
                                }
                            }
                            assert(is_running(n.workers, u) <==> is_running(o.workers, u)) by {
                                if is_running(o.workers, u) {
                                    let v = choose|v: int| runs(o.workers, v, u);
                                    assert(runs(n.workers, v, u));
                                }
                                if is_running(n.workers, u) {
                                    let v = choose|v: int| runs(n.workers, v, u);
                                    assert(runs(o.workers, v, u));
                                }
                            }
                        } else {
                            assert(n.started[o.started.len() as int] == t);
                            assert(runs(n.workers, w as int, t));
                        }
                    }
                    assert forall|u: u64| #[trigger] n.completed.contains(u) implies !is_running(n.workers, u) by {
                        if is_running(n.workers, u) {
                            let v = choose|v: int| runs(n.workers, v, u);
                            if v != w {
                                assert(runs(o.workers, v, u));
                            }
                        }
                    }
                    assert forall|w1: int, w2: int, u: u64|
                        #[trigger] runs(n.workers, w1, u) && #[trigger] runs(n.workers, w2, u) implies w1 == w2 by {
                        if w1 != w as int && w2 != w as int {
                            assert(runs(o.workers, w1, u) && runs(o.workers, w2, u));
                        } else if w1 != w as int {
                            assert(runs(o.workers, w1, t));
                        } else if w2 != w as int {
                            assert(runs(o.workers, w2, t));
                        }
                    }
                    assert(!any_terminated(n.workers)) by {
                        if any_terminated(n.workers) {
                            let v = choose|v: int| 0 <= v < n.workers.len() && n.workers[v] == WorkerState::Terminated;
                            assert(o.workers[v] == WorkerState::Terminated);
                        }
                    }
                }
                Delivery::Task(t)
            },
            None => {
                if self.open {
                    Delivery::Empty
                } else {
                    self.workers.set(w, WorkerState::Terminated);
                    proof {
                        let o = old(self)@;
                        let n = self@;
                        assert forall|u: u64| is_running(n.workers, u) == is_running(o.workers, u) by {
                            if is_running(o.workers, u) {
                                let v = choose|v: int| runs(o.workers, v, u);
                                assert(runs(n.workers, v, u));
                            }
                            if is_running(n.workers, u) {
                                let v = choose|v: int| runs(n.workers, v, u);
                                assert(runs(o.workers, v, u));
                            }
                        }
                        assert forall|w1: int, w2: int, u: u64|
                            #[trigger] runs(n.workers, w1, u) && #[trigger] runs(n.workers, w2, u) implies w1 == w2 by {
                            assert(runs(o.workers, w1, u) && runs(o.workers, w2, u));
                        }
                    }
                    Delivery::Closed
                }
            },
        }
    }

    /// Worker `w` finishes the task it was running, returns its id, and goes
    /// back to waiting.
    pub fn complete(&mut self, w: usize) -> (t: u64)
        requires
            old(self).wf(),
            w < old(self)@.workers.len(),
            old(self)@.workers[w as int] is Running,
        ensures
            final(self).wf(),
            old(self)@.workers[w as int] == WorkerState::Running(t),
            final(self)@.workers == old(self)@.workers.update(w as int, WorkerState::Waiting),
            final(self)@.completed == old(self)@.completed.push(t),
            final(self)@.queue == old(self)@.queue,
            final(self)@.open == old(self)@.open,
            final(self)@.submitted == old(self)@.submitted,
            final(self)@.started == old(self)@.started,
    {
        let t = match self.workers[w] {
            WorkerState::Running(t) => t,
            _ => 0,
        };
        self.workers.set(w, WorkerState::Waiting);
        self.completed = Ghost(self.completed@.push(t));
        proof {
            let o = old(self)@;
            let n = self@;
            assert(runs(o.workers, w as int, t));
            assert(!o.completed.contains(t));
            assert forall|u: u64| u != t implies is_running(n.workers, u) == is_running(o.workers, u) by {
                if is_running(o.workers, u) {
                    let v = choose|v: int| runs(o.workers, v, u);
                    assert(runs(n.workers, v, u));
                }
                if is_running(n.workers, u) {
                    let v = choose|v: int| runs(n.workers, v, u);
                    assert(runs(o.workers, v, u));
                }
            }
            assert(!is_running(n.workers, t)) by {
                if is_running(n.workers, t) {
                    let v = choose|v: int| runs(n.workers, v, t);
                    assert(runs(o.workers, v, t));
                }
            }
            assert forall|u: u64| #[trigger] n.completed.contains(u) <==> (o.completed.contains(u) || u == t) by {
                if o.completed.contains(u) {
                    let i = choose|i: int| 0 <= i < o.completed.len() && o.completed[i] == u;
                    assert(n.completed[i] == u);
                }
                if u == t {
                    assert(n.completed[o.completed.len() as int] == t);
                }
            }
            assert(n.completed.no_duplicates()) by {
                assert forall|i: int, j: int| 0 <= i < n.completed.len() && 0 <= j < n.completed.len() && i != j
                    implies n.completed[i] != n.completed[j] by {
                    if i < o.completed.len() && j < o.completed.len() {
                    } else if i < o.completed.len() {
                        assert(o.completed.contains(n.completed[i]));
                    } else {
                        assert(o.completed.contains(n.completed[j]));
                    }
                }
            }
            assert forall|w1: int, w2: int, u: u64|
                #[trigger] runs(n.workers, w1, u) && #[trigger] runs(n.workers, w2, u) implies w1 == w2 by {
                assert(runs(o.workers, w1, u) && runs(o.workers, w2, u));
            }
            assert(any_terminated(n.workers) ==> any_terminated(o.workers)) by {
                if any_terminated(n.workers) {
                    let v = choose|v: int| 0 <= v < n.workers.len() && n.workers[v] == WorkerState::Terminated;
                    assert(o.workers[v] == WorkerState::Terminated);
                }
            }
        }
        t
    }

    /// Teardown's first step: drops the sending end, so that workers drain
    /// what is queued and then terminate instead of waiting forever.
    pub fn shutdown(&mut self)
        requires
            old(self).wf(),
        ensures
            final(self).wf(),
            !final(self)@.open,
            final(self)@.queue == old(self)@.queue,
            final(self)@.workers == old(self)@.workers,
            final(self)@.submitted == old(self)@.submitted,
            final(self)@.started == old(self)@.started,
            final(self)@.completed == old(self)@.completed,
    {
        self.open = false;
    }

    /// How many workers the pool was built with.
    pub fn size(&self) -> (r: usize)
        ensures
            r == self@.workers.len(),
    {
        self.workers.len()
    }

    /// How many tasks were ever submitted.
    pub fn submitted(&self) -> (r: u64)
        ensures
            r == self@.submitted,
    {
        self.next_id
    }

    /// How many tasks wait in the queue.
    pub fn queued(&self) -> (r: usize)
        ensures
            r == self@.queue.len(),
    {
        self.queue.len()
    }

    /// Whether the queue still accepts tasks.
    pub fn is_open(&self) -> (r: bool)
        ensures
            r == self@.open,
    {
        self.open
    }

    /// What worker `w` is doing.
    pub fn worker_state(&self, w: usize) -> (r: WorkerState)
        requires
            w < self@.workers.len(),
        ensures
            r == self@.workers[w as int],
    {
        self.workers[w]
    }

    /// Whether every worker has terminated.
    pub fn is_finished(&self) -> (r: bool)
        requires
            self.wf(),
        ensures
            r == self@.finished(),
    {
        let mut i: usize = 0;
        while i < self.workers.len()
            invariant
                i <= self@.workers.len(),
                forall|v: int| 0 <= v < i ==> #[trigger] self@.workers[v] == WorkerState::Terminated,
            decreases self.workers.len() - i,
        {
            if self.workers[i] != WorkerState::Terminated {
                return false;
            }
            i = i + 1;
        }
        true
    }
}

/// Tasks leave the queue in the order they were submitted: the tasks
/// received so far are the oldest ones, and the queue holds the rest, oldest
/// first. A queued task is thus received after exactly the tasks ahead of it.
pub proof fn lemma_delivery_in_submission_order(p: &Pool)
    requires
        p.wf(),
    ensures
        p@.started == ids_below(p@.started.len()),
        p@.queue == Seq::new(p@.queue.len(), |i: int| (p@.started.len() + i) as u64),
        p@.started.len() + p@.queue.len() == p@.submitted,
{
    let all = p@.started + p@.queue;
    assert(p@.started =~= all.subrange(0, p@.started.len() as int));
    assert(p@.queue =~= all.subrange(p@.started.len() as int, all.len() as int));
    assert(p@.started =~= ids_below(p@.started.len()));
    assert(p@.queue =~= Seq::new(p@.queue.len(), |i: int| (p@.started.len() + i) as u64));
}

/// Every submitted task is in exactly one place: still queued, being run
/// by exactly one worker, or finished, and finished at most once.
pub proof fn lemma_each_task_in_one_place(p: &Pool, t: u64)
    requires
        p.wf(),
        t < p@.submitted,
    ensures
        p@.queue.contains(t) || is_running(p@.workers, t) || p@.completed.contains(t),
        p@.queue.contains(t) ==> !is_running(p@.workers, t) && !p@.completed.contains(t),
        is_running(p@.workers, t) ==> !p@.completed.contains(t),
        forall|w1: int, w2: int| runs(p@.workers, w1, t) && runs(p@.workers, w2, t) ==> w1 == w2,
        p@.completed.no_duplicates(),
{
    let v = p@;
    lemma_ids_below(v.submitted);
    let all = v.started + v.queue;
    assert(all.contains(t));
    let i = choose|i: int| 0 <= i < all.len() && all[i] == t;
    if i < v.started.len() {
        assert(v.started[i] == t);
        assert(v.started.contains(t));
    } else {
        assert(v.queue[i - v.started.len()] == t);
        assert(v.queue.contains(t));
    }
    if v.queue.contains(t) {
        assert(!v.started.contains(t)) by {
            if v.started.contains(t) {
                let a = choose|a: int| 0 <= a < v.started.len() && v.started[a] == t;
                let b = choose|b: int| 0 <= b < v.queue.len() && v.queue[b] == t;
                assert(all[a] == all[v.started.len() + b]);
            }
        }
    }
    assert forall|w1: int, w2: int| runs(v.workers, w1, t) && runs(v.workers, w2, t) implies w1 == w2 by {
        assert(runs(v.workers, w1, t) && runs(v.workers, w2, t));
    }
}

/// Once teardown has let every worker terminate, nothing is left queued or
/// running, and every submitted task has been finished exactly once.
pub proof fn lemma_teardown_completes_every_task(p: &Pool)
    requires
        p.wf(),
        p@.finished(),
    ensures
        p@.queue.len() == 0,
        forall|t: u64| !is_running(p@.workers, t),
        forall|t: u64| #[trigger] p@.completed.contains(t) <==> t < p@.submitted,
        p@.completed.no_duplicates(),
        p@.completed.len() == p@.submitted,
{
    let v = p@;
    assert(v.workers[0] == WorkerState::Terminated);
    assert(any_terminated(v.workers));
    assert forall|t: u64| !is_running(v.workers, t) by {
        if is_running(v.workers, t) {
            let w = choose|w: int| runs(v.workers, w, t);
            assert(v.workers[w] == WorkerState::Terminated);
        }
    }
    lemma_ids_below(v.submitted);
    assert(v.started =~= ids_below(v.submitted));
    assert forall|t: u64| #[trigger] v.completed.contains(t) <==> t < v.submitted by {
        assert(v.started.contains(t) <==> v.completed.contains(t));
        assert(ids_below(v.submitted).contains(t) <==> t < v.submitted);
    }
    assert(v.completed.to_set() =~= ids_below(v.submitted).to_set());
    v.completed.unique_seq_to_set();
    ids_below(v.submitted).unique_seq_to_set();
}

} // verus!

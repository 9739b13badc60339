//! The master: splitting the input into map tasks, and the decisions of which
//! worker runs which task when.
use vstd::prelude::*;
use std::collections::VecDeque;
use crate::grouping::strings_view;
use crate::names::{get_map_split_file, map_split_name};
use crate::text::{lines, split_lines};

verus! {

/// A task for a worker.
#[derive(PartialEq, Eq, Structural, Debug, Clone, Copy)]
pub enum WorkerTask {
    /// Map task `num`, splitting its output into `n_reduce` partitions.
    MapTask(u32, u32),
    /// Reduce task `num`, reading the partitions of `n_map` map tasks.
    ReduceTask(u32, u32),
}

/// Where a run stands.
#[derive(PartialEq, Eq, Structural, Debug, Clone, Copy)]
pub enum Phase {
    /// Map tasks are being handed out or awaited.
    Mapping,
    /// All map tasks have finished; reduce tasks are being handed out or awaited.
    Reducing,
    /// Every task has finished.
    Finished,
    /// A task failed.
    Failed,
}

/// What the master does next.
#[derive(PartialEq, Eq, Structural, Debug, Clone, Copy)]
pub enum Action {
    /// Give `task` to worker `worker`.
    Run { worker: usize, task: WorkerTask },
    /// Wait until a running task finishes.
    Wait,
    /// The run is complete.
    Done,
    /// A task failed: the run ends with an error.
    Abort,
}

/// The master's workers, by number.
pub struct Master {
    pub n_workers: usize,
}

/// The scheduling state in mathematical terms.
pub struct SchedulerView {
    pub n_workers: nat,
    pub n_map: nat,
    pub n_reduce: nat,
    pub phase: Phase,
    /// The next task of the current phase to hand out.
    pub next: nat,
    /// Map tasks that finished.
    pub maps_done: nat,
    /// Reduce tasks that finished.
    pub reduces_done: nat,
    /// The task that each worker runs, if any.
    pub running: Seq<Option<WorkerTask>>,
    /// Idle workers, in the order in which they became idle.
    pub free: Seq<usize>,
    /// Every task handed out so far, in order.
    pub handed: Seq<WorkerTask>,
}

/// Map tasks `0..n`, each splitting into `n_reduce` partitions.
pub open spec fn map_tasks(n: nat, n_reduce: nat) -> Seq<WorkerTask> {
    Seq::new(n, |i: int| WorkerTask::MapTask(i as u32, n_reduce as u32))
}

/// Reduce tasks `0..n`, each reading `n_map` partitions.
pub open spec fn reduce_tasks(n: nat, n_map: nat) -> Seq<WorkerTask> {
    Seq::new(n, |i: int| WorkerTask::ReduceTask(i as u32, n_map as u32))
}

/// Every task of a run, in the order in which they are handed out.
pub open spec fn all_tasks(n_map: nat, n_reduce: nat) -> Seq<WorkerTask> {
    map_tasks(n_map, n_reduce) + reduce_tasks(n_reduce, n_map)
}

/// The number of tasks of the current phase.
pub open spec fn phase_limit(v: SchedulerView) -> nat {
    match v.phase {
        Phase::Mapping => v.n_map,
        Phase::Reducing => v.n_reduce,
        _ => 0,
    }
}

/// Task number `t` of the current phase.
pub open spec fn task_for(v: SchedulerView, t: nat) -> WorkerTask {
    match v.phase {
        Phase::Mapping => WorkerTask::MapTask(t as u32, v.n_reduce as u32),
        _ => WorkerTask::ReduceTask(t as u32, v.n_map as u32),
    }
}

/// The phase changes that need no event: to the reduce phase once every map
/// task has been handed out and has finished, and then to the end once
/// every reduce task has.
pub open spec fn settle(v: SchedulerView) -> SchedulerView {
    let v1 = if v.phase == Phase::Mapping && v.next == v.n_map && v.maps_done == v.n_map {
        SchedulerView { phase: Phase::Reducing, next: 0, ..v }
    } else {
        v
    };
    if v1.phase == Phase::Reducing && v1.next == v1.n_reduce && v1.reduces_done == v1.n_reduce {
        SchedulerView { phase: Phase::Finished, ..v1 }
    } else {
        v1
    }
}

/// The decision of the master in state `v`, and the state after it: the
/// next task of the phase goes to the worker that has been idle longest.
pub open spec fn next_step(v: SchedulerView) -> (SchedulerView, Action) {
    let s = settle(v);
    match s.phase {
        Phase::Failed => (s, Action::Abort),
        Phase::Finished => (s, Action::Done),
        _ => if s.next < phase_limit(s) && s.free.len() > 0 {
            let w = s.free[0];
            let t = task_for(s, s.next);
            (
                SchedulerView {
                    free: s.free.drop_first(),
                    running: s.running.update(w as int, Some(t)),
                    next: s.next + 1,
                    handed: s.handed.push(t),
                    ..s
                },
                Action::Run { worker: w, task: t },
            )
        } else {
            (s, Action::Wait)
        },
    }
}

/// The state after worker `w` reports the end of its task, successful or not.
pub open spec fn finish_step(v: SchedulerView, w: nat, ok: bool) -> SchedulerView {
    let t = v.running[w as int]->0;
    let v1 = SchedulerView {
        running: v.running.update(w as int, None),
        free: v.free.push(w as usize),
        ..v
    };
    if !ok || v.phase == Phase::Failed {
        SchedulerView { phase: Phase::Failed, ..v1 }
    } else {
        match t {
            WorkerTask::MapTask(..) => SchedulerView { maps_done: v.maps_done + 1, ..v1 },
            WorkerTask::ReduceTask(..) => SchedulerView { reduces_done: v.reduces_done + 1, ..v1 },
        }
    }
}

/// The number of workers that run a task.
pub open spec fn in_flight(running: Seq<Option<WorkerTask>>) -> nat
    decreases running.len(),
{
    if running.len() == 0 {
        0
    } else {
        in_flight(running.drop_last()) + if running.last() is Some {
            1nat
        } else {
            0nat
        }
    }
}

/// The invariant of the scheduling state.
pub open spec fn sched_wf(v: SchedulerView) -> bool {
    &&& v.n_map <= u32::MAX
    &&& v.n_reduce <= u32::MAX
    &&& v.n_workers <= usize::MAX
    &&& v.running.len() == v.n_workers
    &&& v.free.no_duplicates()
    &&& forall|i: int|
        0 <= i < v.free.len() ==> (#[trigger] v.free[i]) < v.n_workers && v.running[v.free[i] as int]
            is None
    &&& forall|w: int| 0 <= w < v.n_workers && (#[trigger] v.running[w]) is None ==> v.free.contains(w as usize)
    &&& v.handed.len() <= all_tasks(v.n_map, v.n_reduce).len()
    &&& v.handed == all_tasks(v.n_map, v.n_reduce).take(v.handed.len() as int)
    &&& match v.phase {
        Phase::Mapping => {
            &&& v.next <= v.n_map
            &&& v.handed.len() == v.next
            &&& v.maps_done + in_flight(v.running) == v.next
            &&& v.reduces_done == 0
            &&& forall|w: int| 0 <= w < v.n_workers && (#[trigger] v.running[w]) is Some ==> v.running[w]->0 is MapTask
        },
        Phase::Reducing => {
            &&& v.maps_done == v.n_map
            &&& v.next <= v.n_reduce
            &&& v.handed.len() == v.n_map + v.next
            &&& v.reduces_done + in_flight(v.running) == v.next
            &&& forall|w: int| 0 <= w < v.n_workers && (#[trigger] v.running[w]) is Some ==> v.running[w]->0 is ReduceTask
        },
        Phase::Finished => {
            &&& v.maps_done == v.n_map
            &&& v.reduces_done == v.n_reduce
            &&& v.handed.len() == v.n_map + v.n_reduce
            &&& in_flight(v.running) == 0
        },
        Phase::Failed => true,
    }
}

/// Hands out map tasks, then reduce tasks, to idle workers, one task per
/// worker at a time.
pub struct Scheduler {
    n_workers: usize,
    n_map: u32,
    n_reduce: u32,
    phase: Phase,
    next: u32,
    maps_done: u32,
    reduces_done: u32,
    running: Vec<Option<WorkerTask>>,
    free: VecDeque<usize>,
    handed: Ghost<Seq<WorkerTask>>,
}

impl View for Scheduler {
    type V = SchedulerView;

    closed spec fn view(&self) -> SchedulerView {
        SchedulerView {
            n_workers: self.n_workers as nat,
            n_map: self.n_map as nat,
            n_reduce: self.n_reduce as nat,
            phase: self.phase,
            next: self.next as nat,
            maps_done: self.maps_done as nat,
            reduces_done: self.reduces_done as nat,
            running: self.running@,
            free: self.free@,
            handed: self.handed@,
        }
    }
}


proof fn lemma_in_flight_update(r: Seq<Option<WorkerTask>>, w: int, x: Option<WorkerTask>)
    requires
        0 <= w < r.len(),
    ensures
        in_flight(r.update(w, x)) + (if r[w] is Some { 1int } else { 0int }) == in_flight(r) + (
        if x is Some {
            1int
        } else {
            0int
        }),
    decreases r.len(),
{
    let u = r.update(w, x);
    if w == r.len() - 1 {
        assert(u.drop_last() =~= r.drop_last());
    } else {
        lemma_in_flight_update(r.drop_last(), w, x);
        assert(u.drop_last() =~= r.drop_last().update(w, x));
    }
}

proof fn lemma_in_flight_zero(r: Seq<Option<WorkerTask>>)
    requires
        in_flight(r) == 0,
    ensures
        forall|w: int| 0 <= w < r.len() ==> (#[trigger] r[w]) is None,
    decreases r.len(),
{
    if r.len() > 0 {
        lemma_in_flight_zero(r.drop_last());
        assert forall|w: int| 0 <= w < r.len() implies (#[trigger] r[w]) is None by {
            if w < r.len() - 1 {
                assert(r[w] == r.drop_last()[w]);
            }
        }
    }
}

proof fn lemma_settle(v: SchedulerView)
    requires
        sched_wf(v),
    ensures
        sched_wf(settle(v)),
        settle(v).running == v.running,
        settle(v).free == v.free,
        settle(v).handed == v.handed,
        settle(v).maps_done == v.maps_done,
        settle(v).reduces_done == v.reduces_done,
        v.phase == Phase::Failed ==> settle(v).phase == Phase::Failed,
        settle(v).phase == Phase::Reducing ==> v.phase == Phase::Mapping || v.phase == Phase::Reducing,
{
    if v.phase == Phase::Mapping && v.next == v.n_map && v.maps_done == v.n_map {
        lemma_in_flight_zero(v.running);
    }
    let v1 = if v.phase == Phase::Mapping && v.next == v.n_map && v.maps_done == v.n_map {
        SchedulerView { phase: Phase::Reducing, next: 0, ..v }
    } else {
        v
    };
    if v1.phase == Phase::Reducing && v1.next == v1.n_reduce && v1.reduces_done == v1.n_reduce {
        lemma_in_flight_zero(v1.running);
    }
}

/// Every task of a run is a different task.
pub proof fn lemma_all_tasks_distinct(n_map: nat, n_reduce: nat)
    requires
        n_map <= u32::MAX,
        n_reduce <= u32::MAX,
    ensures
        all_tasks(n_map, n_reduce).no_duplicates(),
{
    let a = all_tasks(n_map, n_reduce);
    assert forall|i: int, j: int| 0 <= i < a.len() && 0 <= j < a.len() && i != j implies a[i] != a[j] by {
        if i < n_map && j < n_map {
            assert(a[i] == WorkerTask::MapTask(i as u32, n_reduce as u32));
            assert(a[j] == WorkerTask::MapTask(j as u32, n_reduce as u32));
        } else if i >= n_map && j >= n_map {
            assert(a[i] == WorkerTask::ReduceTask((i - n_map) as u32, n_map as u32));
            assert(a[j] == WorkerTask::ReduceTask((j - n_map) as u32, n_map as u32));
        } else if i < n_map {
            assert(a[i] is MapTask);
            assert(a[j] is ReduceTask);
        } else {
            assert(a[j] is MapTask);
            assert(a[i] is ReduceTask);
        }
    }
}

/// The master's decision keeps the scheduling invariant.
pub proof fn lemma_next_step_wf(v: SchedulerView)
    requires
        sched_wf(v),
    ensures
        sched_wf(next_step(v).0),
{
    lemma_settle(v);
    let s = settle(v);
    if (s.phase == Phase::Mapping || s.phase == Phase::Reducing) && s.next < phase_limit(s) && s.free.len() > 0 {
        let w = s.free[0];
        let t = task_for(s, s.next);
        let n = next_step(v).0;
        assert(s.free.contains(w));
        assert(s.running[w as int] is None);
        lemma_in_flight_update(s.running, w as int, Some(t));
        assert forall|i: int| 0 <= i < n.free.len() implies (#[trigger] n.free[i]) < n.n_workers
            && n.running[n.free[i] as int] is None by {
            assert(n.free[i] == s.free[i + 1]);
            assert(s.free[i + 1] != s.free[0]);
        }
        assert forall|x: int| 0 <= x < n.n_workers && (#[trigger] n.running[x]) is None implies n.free.contains(
            x as usize,
        ) by {
            assert(x != w);
            assert(s.running[x] is None);
            assert(s.free.contains(x as usize));
            let k = choose|k: int| 0 <= k < s.free.len() && s.free[k] == x as usize;
            assert(k != 0);
            assert(n.free[k - 1] == x as usize);
        }
        let all = all_tasks(s.n_map, s.n_reduce);
        if s.phase == Phase::Mapping {
            assert(all[s.handed.len() as int] == t);
        } else {
            assert(all[s.handed.len() as int] == t);
        }
        assert(n.handed =~= all.take(n.handed.len() as int));
        assert forall|x: int| 0 <= x < n.n_workers && (#[trigger] n.running[x]) is Some implies (
            s.phase == Phase::Mapping ==> n.running[x]->0 is MapTask) && (s.phase == Phase::Reducing
            ==> n.running[x]->0 is ReduceTask) by {
            if x != w {
                assert(n.running[x] == s.running[x]);
            }
        }
    }
}

/// Reporting the end of a running task keeps the scheduling invariant.
pub proof fn lemma_finish_step_wf(v: SchedulerView, w: nat, ok: bool)
    requires
        sched_wf(v),
        w < v.n_workers,
        v.running[w as int] is Some,
    ensures
        sched_wf(finish_step(v, w, ok)),
{
    let n = finish_step(v, w, ok);
    lemma_in_flight_update(v.running, w as int, None);
    if v.phase == Phase::Finished {
        lemma_in_flight_zero(v.running);
    }
    assert(!v.free.contains(w as usize)) by {
        if v.free.contains(w as usize) {
            let k = choose|k: int| 0 <= k < v.free.len() && v.free[k] == w as usize;
            assert(v.running[v.free[k] as int] is None);
        }
    }
    assert forall|i: int| 0 <= i < n.free.len() implies (#[trigger] n.free[i]) < n.n_workers
        && n.running[n.free[i] as int] is None by {
        if i < v.free.len() {
            assert(n.free[i] == v.free[i]);
            assert(v.free[i] != w as usize);
        }
    }
    assert forall|x: int| 0 <= x < n.n_workers && (#[trigger] n.running[x]) is None implies n.free.contains(
        x as usize,
    ) by {
        if x == w {
            assert(n.free[v.free.len() as int] == w as usize);
        } else {
            assert(v.running[x] is None);
            let k = choose|k: int| 0 <= k < v.free.len() && v.free[k] == x as usize;
            assert(n.free[k] == x as usize);
        }
    }
    assert forall|x: int| 0 <= x < n.n_workers && (#[trigger] n.running[x]) is Some implies (
        v.phase == Phase::Mapping ==> n.running[x]->0 is MapTask) && (v.phase == Phase::Reducing
        ==> n.running[x]->0 is ReduceTask) by {
        assert(x != w);
        assert(n.running[x] == v.running[x]);
    }
}

/// What the master's decisions guarantee: a task goes only to an idle
/// worker; tasks are handed out in the order of `all_tasks`, so none twice;
/// no reduce task is handed out before every map task has finished; and the
/// run is done only when every task has been handed out and has finished.
pub proof fn lemma_next_step_safety(v: SchedulerView)
    requires
        sched_wf(v),
    ensures
        v.handed.no_duplicates(),
        ({
            let (n, a) = next_step(v);
            &&& a matches Action::Run { worker, task } ==> {
                &&& worker < v.n_workers
                &&& v.running[worker as int] is None
                &&& n.running[worker as int] == Some(task)
                &&& v.handed.len() < all_tasks(v.n_map, v.n_reduce).len()
                &&& task == all_tasks(v.n_map, v.n_reduce)[v.handed.len() as int]
                &&& n.handed == v.handed.push(task)
                &&& task is ReduceTask ==> n.maps_done == v.n_map
            }
            &&& a == Action::Done ==> {
                &&& n.handed == all_tasks(v.n_map, v.n_reduce)
                &&& n.maps_done == v.n_map
                &&& n.reduces_done == v.n_reduce
            }
            &&& a == Action::Abort ==> n.phase == Phase::Failed
            &&& v.phase == Phase::Failed ==> a == Action::Abort
        }),
{
    lemma_all_tasks_distinct(v.n_map, v.n_reduce);
    let all = all_tasks(v.n_map, v.n_reduce);
    assert forall|i: int, j: int| 0 <= i < v.handed.len() && 0 <= j < v.handed.len() && i != j implies v.handed[i]
        != v.handed[j] by {
        assert(v.handed[i] == all[i]);
        assert(v.handed[j] == all[j]);
    }
    lemma_settle(v);
    let s = settle(v);
    if s.phase == Phase::Finished {
        assert(s.handed =~= all);
    }
    if (s.phase == Phase::Mapping || s.phase == Phase::Reducing) && s.next < phase_limit(s) && s.free.len() > 0 {
        let w = s.free[0];
        assert(s.free.contains(w));
    }
}



/// Progress: with at least one worker, the master waits only while some
/// task runs, so waiting always ends with a task's report.
pub proof fn lemma_wait_means_running(v: SchedulerView)
    requires
        sched_wf(v),
        v.n_workers >= 1,
    ensures
        next_step(v).1 == Action::Wait ==> in_flight(next_step(v).0.running) > 0,
{
    lemma_settle(v);
    let s = settle(v);
    if next_step(v).1 == Action::Wait {
        assert(next_step(v).0 == s);
        if in_flight(s.running) == 0 {
            lemma_in_flight_zero(s.running);
            assert(s.running[0] is None);
            assert(s.free.contains(0usize));
            assert(s.free.len() > 0);
            assert(s.next < phase_limit(s));
        }
    }
}

/// What is left of a run: each task still to be handed out counts once, and
/// each task still to finish counts once more.
pub open spec fn work_left(v: SchedulerView) -> int {
    2 * (v.n_map + v.n_reduce) - v.handed.len() - v.maps_done - v.reduces_done
}

/// Termination: until a task fails, what is left of a run is never negative,
/// every task handed out and every successful report lowers it by one, a
/// wait leaves it as it is, and with nothing left the master is done. So a
/// run with at least one worker, whose tasks all succeed, ends after at most
/// `2 * (n_map + n_reduce)` hand-outs and reports.
pub proof fn lemma_run_terminates(v: SchedulerView, w: nat, ok: bool)
    requires
        sched_wf(v),
    ensures
        v.phase != Phase::Failed ==> work_left(v) >= 0,
        next_step(v).1 is Run ==> work_left(next_step(v).0) == work_left(v) - 1,
        next_step(v).1 == Action::Wait ==> work_left(next_step(v).0) == work_left(v),
        w < v.n_workers && v.running[w as int] is Some && ok && v.phase != Phase::Failed ==> work_left(
            finish_step(v, w, ok),
        ) == work_left(v) - 1,
        w < v.n_workers && v.running[w as int] is Some && !ok ==> finish_step(v, w, ok).phase
            == Phase::Failed,
        v.phase != Phase::Failed && work_left(v) == 0 ==> next_step(v).1 == Action::Done,
{
    lemma_settle(v);
    let s = settle(v);
    if v.phase == Phase::Mapping {
        assert(v.maps_done <= v.next);
    }
    if v.phase == Phase::Reducing {
        assert(v.reduces_done <= v.next);
    }
    if w < v.n_workers && v.running[w as int] is Some && ok && v.phase != Phase::Failed {
        if v.phase == Phase::Finished {
            lemma_in_flight_zero(v.running);
        }
        lemma_in_flight_update(v.running, w as int, None);
    }
}

/// No needless wait: while a task of the current phase is still to be
/// handed out and some worker is idle, the master hands the next task out,
/// to the worker that has been idle longest; it waits
/// only when no worker is idle or every task of the phase has been handed
/// out.
pub proof fn lemma_no_needless_wait(v: SchedulerView)
    requires
        sched_wf(v),
    ensures
        ({
            let s = settle(v);
            ((s.phase == Phase::Mapping && s.next < v.n_map) || (s.phase == Phase::Reducing && s.next
                < v.n_reduce)) && s.free.len() > 0 ==> next_step(v).1 == (Action::Run {
                worker: s.free[0],
                task: all_tasks(v.n_map, v.n_reduce)[v.handed.len() as int],
            }) && next_step(v).0.free == s.free.drop_first()
        }),
        ({
            let (n, a) = next_step(v);
            a == Action::Wait ==> n.free.len() == 0 || (n.phase == Phase::Mapping && n.next == v.n_map) || (
            n.phase == Phase::Reducing && n.next == v.n_reduce)
        }),
{
    lemma_settle(v);
}

/// A run fails only through a failed report: the master aborts only a run
/// that has failed, and its decisions never make a run fail.
pub proof fn lemma_abort_only_after_failure(v: SchedulerView)
    ensures
        next_step(v).1 == Action::Abort ==> v.phase == Phase::Failed,
        v.phase != Phase::Failed ==> next_step(v).0.phase != Phase::Failed,
{
}

/// A report frees its worker; a successful one leaves the phase as it is
/// (never failing the run) and counts one more finished task of the kind
/// that ran; a failed one fails the run.
pub proof fn lemma_report_outcome(v: SchedulerView, w: nat)
    requires
        sched_wf(v),
        w < v.n_workers,
        v.running[w as int] is Some,
    ensures
        finish_step(v, w, true).running[w as int] is None,
        finish_step(v, w, true).free == v.free.push(w as usize),
        v.phase != Phase::Failed ==> finish_step(v, w, true).phase == v.phase,
        v.phase != Phase::Failed && v.running[w as int]->0 is MapTask ==> finish_step(v, w, true).maps_done
            == v.maps_done + 1 && finish_step(v, w, true).reduces_done == v.reduces_done,
        v.phase != Phase::Failed && v.running[w as int]->0 is ReduceTask ==> finish_step(v, w, true).reduces_done
            == v.reduces_done + 1 && finish_step(v, w, true).maps_done == v.maps_done,
        finish_step(v, w, false).phase == Phase::Failed,
{
}

impl Scheduler {
    /// A scheduler for `n_map` map tasks and `n_reduce` reduce tasks on
    /// workers `0..n_workers`, all idle, queued in order.
    pub fn new(n_workers: usize, n_map: u32, n_reduce: u32) -> (s: Scheduler)
        ensures
            sched_wf(s@),
            s@ == (SchedulerView {
                n_workers: n_workers as nat,
                n_map: n_map as nat,
                n_reduce: n_reduce as nat,
                phase: Phase::Mapping,
                next: 0,
                maps_done: 0,
                reduces_done: 0,
                running: Seq::new(n_workers as nat, |i: int| None::<WorkerTask>),
                free: Seq::new(n_workers as nat, |i: int| i as usize),
                handed: Seq::empty(),
            }),
    {
        let mut running: Vec<Option<WorkerTask>> = Vec::new();
        let mut free: VecDeque<usize> = VecDeque::new();
        for i in 0..n_workers
            invariant
                running@ == Seq::new(i as nat, |k: int| None::<WorkerTask>),
                free@ == Seq::new(i as nat, |k: int| k as usize),
        {
            running.push(None);
            free.push_back(i);
            assert(running@ =~= Seq::new((i + 1) as nat, |k: int| None::<WorkerTask>));
            assert(free@ =~= Seq::new((i + 1) as nat, |k: int| k as usize));
        }
        let s = Scheduler {
            n_workers,
            n_map,
            n_reduce,
            phase: Phase::Mapping,
            next: 0,
            maps_done: 0,
            reduces_done: 0,
            running,
            free,
            handed: Ghost(Seq::empty()),
        };
        proof {
            let v = s@;
            assert(v.handed =~= all_tasks(v.n_map, v.n_reduce).take(0));
            assert forall|w: int| 0 <= w < v.n_workers && (#[trigger] v.running[w]) is None implies v.free.contains(
                w as usize,
            ) by {
                assert(v.free[w] == w as usize);
            }
            assert(in_flight(v.running) == 0) by {
                lemma_in_flight_none(v.running);
            }
        }
        s
    }

    /// The current phase of the run.
    pub fn phase(&self) -> (p: Phase)
        ensures
            p == self@.phase,
    {
        self.phase
    }

    /// Whether worker `worker` runs a task.
    pub fn is_running(&self, worker: usize) -> (b: bool)
        requires
            sched_wf(self@),
        ensures
            b == (worker < self@.n_workers && self@.running[worker as int] is Some),
    {
        worker < self.n_workers && self.running[worker].is_some()
    }

    /// Decides what the master does next: hands the next task of the phase
    /// to the worker that has been idle longest, waits, or ends the run.
    pub fn next_action(&mut self) -> (a: Action)
        requires
            sched_wf(old(self)@),
        ensures
            (final(self)@, a) == next_step(old(self)@),
            sched_wf(final(self)@),
    {
        proof {
            lemma_settle(self@);
            lemma_next_step_wf(self@);
        }
        if self.phase == Phase::Mapping && self.next == self.n_map && self.maps_done == self.n_map {
            self.phase = Phase::Reducing;
            self.next = 0;
        }
        if self.phase == Phase::Reducing && self.next == self.n_reduce && self.reduces_done
            == self.n_reduce {
            self.phase = Phase::Finished;
        }
        match self.phase {
            Phase::Failed => Action::Abort,
            Phase::Finished => Action::Done,
            _ => {
                let limit = if self.phase == Phase::Mapping {
                    self.n_map
                } else {
                    self.n_reduce
                };
                if self.next < limit {
                    let ghost s = self@;
                    match self.free.pop_front() {
                        Some(w) => {
                            assert(s.free.contains(w));
                            let t = if self.phase == Phase::Mapping {
                                WorkerTask::MapTask(self.next, self.n_reduce)
                            } else {
                                WorkerTask::ReduceTask(self.next, self.n_map)
                            };
                            self.running.set(w, Some(t));
                            self.next = self.next + 1;
                            self.handed = Ghost(self.handed@.push(t));
                            Action::Run { worker: w, task: t }
                        },
                        None => Action::Wait,
                    }
                } else {
                    Action::Wait
                }
            },
        }
    }

    /// Records that worker `worker` finished its task, successfully or not:
    /// the worker goes to the back of the idle queue, and a failure ends the
    /// run.
    pub fn task_finished(&mut self, worker: usize, ok: bool)
        requires
            sched_wf(old(self)@),
            worker < old(self)@.n_workers,
            old(self)@.running[worker as int] is Some,
        ensures
            final(self)@ == finish_step(old(self)@, worker as nat, ok),
            sched_wf(final(self)@),
    {
        proof {
            lemma_finish_step_wf(self@, worker as nat, ok);
            if self.phase == Phase::Finished {
                lemma_in_flight_zero(self@.running);
            }
            lemma_in_flight_update(self@.running, worker as int, None);
        }
        let t = self.running[worker];
        self.running.set(worker, None);
        self.free.push_back(worker);
        if !ok || self.phase == Phase::Failed {
            self.phase = Phase::Failed;
        } else {
            match t {
                Some(WorkerTask::MapTask(..)) => {
                    self.maps_done = self.maps_done + 1;
                },
                _ => {
                    self.reduces_done = self.reduces_done + 1;
                },
            }
        }
    }
}

proof fn lemma_in_flight_none(r: Seq<Option<WorkerTask>>)
    requires
        forall|w: int| 0 <= w < r.len() ==> (#[trigger] r[w]) is None,
    ensures
        in_flight(r) == 0,
    decreases r.len(),
{
    if r.len() > 0 {
        lemma_in_flight_none(r.drop_last());
        assert(r[r.len() - 1] is None);
    }
}

impl Master {
    /// A master for workers `0..n_workers`.
    pub fn new(n_workers: usize) -> (m: Master)
        ensures
            m.n_workers == n_workers,
    {
        Master { n_workers }
    }

    /// The scheduler of a run of `n_map` map tasks and `n_reduce` reduce
    /// tasks on this master's workers.
    pub fn schedule(&self, n_map: u32, n_reduce: u32) -> (s: Scheduler)
        ensures
            sched_wf(s@),
            s@.n_workers == self.n_workers,
            s@.n_map == n_map,
            s@.n_reduce == n_reduce,
            s@.phase == Phase::Mapping,
            s@.next == 0,
            s@.maps_done == 0,
            s@.reduces_done == 0,
            s@.running == Seq::new(self.n_workers as nat, |i: int| None::<WorkerTask>),
            s@.free == Seq::new(self.n_workers as nat, |i: int| i as usize),
            s@.handed == Seq::<WorkerTask>::empty(),
    {
        Scheduler::new(self.n_workers, n_map, n_reduce)
    }
}

/// The map tasks of an input text: one per line, each named by the file that
/// is to hold the line.
pub fn split_input(input: &str) -> (splits: Vec<(String, String)>)
    requires
        lines(input@).len() <= u32::MAX,
    ensures
        splits@.len() == lines(input@).len(),
        forall|i: int|
            0 <= i < splits@.len() ==> (#[trigger] splits@[i]).0@ == map_split_name(i as nat)
                && splits@[i].1@ == lines(input@)[i],
{
    let ls = split_lines(input);
    let ghost lv = lines(input@);
    let mut splits: Vec<(String, String)> = Vec::new();
    for i in 0..ls.len()
        invariant
            strings_view(ls@) == lv,
            lv == lines(input@),
            lv.len() <= u32::MAX,
            splits@.len() == i,
            forall|k: int|
                0 <= k < i ==> (#[trigger] splits@[k]).0@ == map_split_name(k as nat)
                    && splits@[k].1@ == lv[k],
    {
        let name = get_map_split_file(i as u32);
        splits.push((name, ls[i].clone()));
    }
    splits
}

} // verus!

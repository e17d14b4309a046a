//! The round-robin scheduler: a ring of processes and a cursor.  `next`
//! picks the next runnable process, scanning from the cursor, and performs
//! the state transition; running the chosen process (CR3 load and IRET) is
//! the machine's part.

use vstd::prelude::*;
use crate::process::{Process, State};
use crate::small_vec::SmallVec;

verus! {

/// What the scheduler decided: switch to the ring slot of a newly chosen
/// process, resume the same process, or idle until an interrupt.
#[derive(Clone, Copy, PartialEq, Eq, Structural, Debug)]
pub enum TaskSwitch {
    NewTask(usize),
    SameTask,
    Idle,
}

pub struct Scheduler {
    pub processes: SmallVec<Process>,
}

/// The slot the round-robin scan starting at `view + k` settles on: the
/// first runnable process, wrapping at the ring's end.
pub open spec fn scan(procs: Seq<Process>, view: int, k: int) -> Option<int>
    decreases (if procs.len() >= k { procs.len() - k + 1 } else { 0 }),
{
    if k >= procs.len() || procs.len() == 0 {
        None
    } else {
        let idx = (view + k) % (procs.len() as int);
        if procs[idx].state is Runnable {
            Some(idx)
        } else {
            scan(procs, view, k + 1)
        }
    }
}

impl Scheduler {
    pub open spec fn wf(self) -> bool {
        self.processes.wf()
    }

    /// A scheduler whose ring can hold `cap` processes.
    pub fn new(cap: usize) -> (r: Self)
        ensures
            r.wf(),
            r.processes@ =~= Seq::<Process>::empty(),
            r.processes.cursor() == 0,
            r.processes.capacity() == cap,
    {
        Scheduler { processes: SmallVec::new(cap) }
    }

    /// The decision alone: the first runnable process in round-robin order
    /// from the cursor, else the current process if it still runs, else
    /// idle.
    pub fn get_next(&self) -> (r: TaskSwitch)
        requires
            self.wf(),
        ensures
            (match r {
                TaskSwitch::NewTask(idx) => scan(self.processes@, self.processes.cursor(), 0)
                    == Some(idx as int),
                TaskSwitch::SameTask => scan(self.processes@, self.processes.cursor(), 0) is None
                    && self.processes@.len() > 0 && 0 <= self.processes.cursor()
                    < self.processes@.len() && self.processes@[self.processes.cursor()].state
                    is Running,
                TaskSwitch::Idle => scan(self.processes@, self.processes.cursor(), 0) is None && (
                self.processes@.len() == 0 || !(self.processes@[self.processes.cursor()].state
                    is Running) || self.processes.cursor() >= self.processes@.len()),
            }),
    {
        let ghost procs = self.processes@;
        let ghost view = self.processes.cursor();
        let n_exec = self.processes.len();
        let mut it = self.processes.iter_round_robin();
        let ghost n = procs.len() as int;
        let mut steps: usize = 0;
        proof {
            if n > 0 {
                assert((view + 0) % n == view) by (nonlinear_arith)
                    requires 0 <= view < n;
            }
        }
        loop
            invariant
                self.wf(),
                it.wf(),
                it.vec == &self.processes,
                steps + it.remaining == procs.len(),
                it.remaining <= procs.len(),
                n_exec == procs.len(),
                view >= 0,
                procs.len() > 0 ==> it.idx == (view + steps) % n,
                n == procs.len(),
                view == self.processes.cursor(),
                procs == self.processes@,
                scan(procs, view, 0) == scan(procs, view, steps as int),
            ensures
                scan(procs, view, 0) is None,
            decreases it.remaining,
        {
            match it.next() {
                None => {
                    proof {
                        assert(scan(procs, view, steps as int) is None);
                    }
                    break ;
                },
                Some((idx, proc)) => {
                    let runnable = matches!(proc.state, State::Runnable);
                    proof {
                        assert(0 <= (view + steps) % n < n) by (nonlinear_arith)
                            requires n > 0;
                        assert(procs[(view + steps) % n].state == proc.state);
                    }
                    if runnable {
                        proof {
                            assert(scan(procs, view, steps as int) == Some((view + steps) % n));
                        }
                        return TaskSwitch::NewTask(idx);
                    }
                    proof {
                        assert(scan(procs, view, steps as int) == scan(
                            procs,
                            view,
                            steps as int + 1,
                        ));
                        assert(n > 0);
                        lemma_mod_step(view + steps, n);
                    }
                    steps += 1;
                },
            }
        }
        match self.processes.current() {
            Some(p) => {
                if matches!(p.state, State::Running) {
                    TaskSwitch::SameTask
                } else {
                    TaskSwitch::Idle
                }
            },
            None => TaskSwitch::Idle,
        }
    }

    /// Move the cursor to the chosen slot: the old current process (if any)
    /// becomes runnable, the new one running.
    pub fn set_current(&mut self, new_idx: usize)
        requires
            old(self).wf(),
            new_idx < old(self).processes@.len(),
        ensures
            final(self).wf(),
            final(self).processes@.len() == old(self).processes@.len(),
            final(self).processes.cursor() == new_idx,
            final(self).processes@[new_idx as int].state is Running,
            final(self).processes@[new_idx as int].root_dir == old(
                self,
            ).processes@[new_idx as int].root_dir,
            final(self).processes@[new_idx as int].registers == old(
                self,
            ).processes@[new_idx as int].registers,
            forall|i: int|
                0 <= i < old(self).processes@.len() && i != new_idx && i != old(
                    self,
                ).processes.cursor() ==> #[trigger] final(self).processes@[i] == old(
                    self,
                ).processes@[i],
            (old(self).processes.cursor() < old(self).processes@.len() && old(
                self,
            ).processes.cursor() != new_idx) ==> final(self).processes@[old(
                self,
            ).processes.cursor()].state is Runnable,
    {
        let cur = self.processes.cursor_index();
        let n = self.processes.len();
        if cur < n {
            let p = self.processes.get_mut(cur);
            p.state = State::Runnable;
        }
        self.processes.set_current(new_idx);
        let p = self.processes.get_mut(new_idx);
        p.state = State::Running;
    }

    /// One scheduling step: decide, apply the transition for a new task,
    /// and report what the machine must now do.
    pub fn next(&mut self) -> (r: TaskSwitch)
        requires
            old(self).wf(),
        ensures
            final(self).wf(),
            final(self).processes@.len() == old(self).processes@.len(),
            (match r {
                TaskSwitch::NewTask(idx) => {
                    &&& scan(old(self).processes@, old(self).processes.cursor(), 0) == Some(
                        idx as int,
                    )
                    &&& idx < final(self).processes@.len()
                    &&& final(self).processes.cursor() == idx
                    &&& final(self).processes@[idx as int].state is Running
                    &&& final(self).processes@[idx as int].root_dir == old(
                        self,
                    ).processes@[idx as int].root_dir
                    &&& final(self).processes@[idx as int].registers == old(
                        self,
                    ).processes@[idx as int].registers
                    &&& (old(self).processes.cursor() < old(self).processes@.len() && old(
                        self,
                    ).processes.cursor() != idx ==> final(self).processes@[old(
                        self,
                    ).processes.cursor()].state is Runnable)
                    &&& forall|i: int|
                        0 <= i < old(self).processes@.len() && i != idx && i != old(
                            self,
                        ).processes.cursor() ==> #[trigger] final(self).processes@[i] == old(
                            self,
                        ).processes@[i]
                },
                TaskSwitch::SameTask => {
                    &&& *final(self) == *old(self)
                    &&& scan(old(self).processes@, old(self).processes.cursor(), 0) is None
                    &&& old(self).processes@.len() > 0
                    &&& 0 <= old(self).processes.cursor() < old(self).processes@.len()
                    &&& old(self).processes@[old(self).processes.cursor()].state is Running
                },
                TaskSwitch::Idle => {
                    &&& *final(self) == *old(self)
                    &&& scan(old(self).processes@, old(self).processes.cursor(), 0) is None
                    &&& (old(self).processes@.len() == 0 || old(self).processes.cursor() >= old(
                        self,
                    ).processes@.len() || !(old(self).processes@[old(
                        self,
                    ).processes.cursor()].state is Running))
                },
            }),
    {
        let choice = self.get_next();
        match choice {
            TaskSwitch::NewTask(idx) => {
                proof {
                    lemma_scan_in_range(
                        self.processes@,
                        self.processes.cursor(),
                        0,
                        idx as int,
                    );
                }
                self.set_current(idx);
                TaskSwitch::NewTask(idx)
            },
            TaskSwitch::SameTask => TaskSwitch::SameTask,
            TaskSwitch::Idle => TaskSwitch::Idle,
        }
    }
}

impl Scheduler {
    /// Record a captured trap frame as the current process's authoritative
    /// checkpoint.  The dispatchers run this before any handler: after a
    /// syscall, timer tick or exception, the stored frame is what resumes
    /// the process.  With no current process nothing changes.
    pub fn checkpoint_current(&mut self, frame: &crate::arch::RegisterFrame)
        requires
            old(self).wf(),
        ensures
            final(self).wf(),
            final(self).processes@.len() == old(self).processes@.len(),
            final(self).processes.cursor() == old(self).processes.cursor(),
            final(self).processes.capacity() == old(self).processes.capacity(),
            old(self).processes@.len() > 0 ==> final(self).processes@[old(
                self,
            ).processes.cursor()] == (Process {
                registers: *frame,
                ..old(self).processes@[old(self).processes.cursor()]
            }),
            old(self).processes@.len() == 0 ==> *final(self) == *old(self),
            forall|i: int|
                0 <= i < old(self).processes@.len() && i != old(self).processes.cursor()
                    ==> #[trigger] final(self).processes@[i] == old(self).processes@[i],
    {
        let cur = self.processes.cursor_index();
        if cur < self.processes.len() {
            let p = self.processes.get_mut(cur);
            p.registers = *frame;
        } else {
            proof {
                assert(self.processes@.len() == 0 || self.processes.cursor()
                    < self.processes@.len());
            }
        }
    }
}

/// A successful scan lands inside the ring.
pub proof fn lemma_scan_in_range(procs: Seq<Process>, view: int, k: int, idx: int)
    requires
        scan(procs, view, k) == Some(idx),
        k >= 0,
    ensures
        0 <= idx < procs.len(),
        procs[idx].state is Runnable,
    decreases (if procs.len() >= k { procs.len() - k + 1 } else { 0 }),
{
    if k >= procs.len() || procs.len() == 0 {
    } else {
        let n = procs.len() as int;
        assert(0 <= (view + k) % n < n) by (nonlinear_arith)
            requires n > 0;
        if procs[(view + k) % n].state is Runnable {
        } else {
            lemma_scan_in_range(procs, view, k + 1, idx);
        }
    }
}

/// Law: under full load the ring rotates.  With every process runnable
/// except the running one under the cursor, the scan picks exactly the
/// slot after the cursor, wrapping at the end.
pub proof fn lemma_next_under_full_load(procs: Seq<Process>, view: int)
    requires
        procs.len() >= 2,
        0 <= view < procs.len(),
        procs[view].state is Running,
        forall|i: int|
            0 <= i < procs.len() && i != view ==> (#[trigger] procs[i]).state is Runnable,
    ensures
        scan(procs, view, 0) == Some((view + 1) % (procs.len() as int)),
{
    let n = procs.len() as int;
    assert((view + 0) % n == view) by (nonlinear_arith)
        requires 0 <= view < n;
    assert(0 <= (view + 1) % n < n && (view + 1) % n != view) by (nonlinear_arith)
        requires n >= 2 && 0 <= view < n;
    assert(scan(procs, view, 0) == scan(procs, view, 1));
    assert(scan(procs, view, 1) == Some((view + 1) % n));
}

/// Slot `j` is reached by some step of one full rotation lap.
pub open spec fn visited_in_lap(view: int, n: int, j: int) -> bool {
    exists|k: int| 1 <= k <= n && #[trigger] rotate(view, k, n) == j
}

/// Law: starting from any cursor, the next `n` rotation steps visit every
/// slot of an `n`-slot ring exactly once.
pub proof fn lemma_rotation_visits_all(view: int, n: int)
    requires
        n >= 1,
        0 <= view < n,
    ensures
        forall|j: int| 0 <= j < n ==> #[trigger] visited_in_lap(view, n, j),
        forall|k1: int, k2: int|
            1 <= k1 < k2 <= n ==> #[trigger] rotate(view, k1, n) != #[trigger] rotate(
                view,
                k2,
                n,
            ),
{
    assert forall|j: int| 0 <= j < n implies #[trigger] visited_in_lap(view, n, j) by {
        let k = if j > view {
            j - view
        } else {
            j - view + n
        };
        assert((view + k) % n == j) by (nonlinear_arith)
            requires
                n >= 1 && 0 <= view < n && 0 <= j < n && k == (if j > view {
                    j - view
                } else {
                    j - view + n
                });
        assert(rotate(view, k, n) == j);
    }
    assert forall|k1: int, k2: int| 1 <= k1 < k2 <= n implies rotate(view, k1, n) != rotate(
        view,
        k2,
        n,
    ) by {
        assert((view + k1) % n != (view + k2) % n) by (nonlinear_arith)
            requires n >= 1 && 0 <= view && 1 <= k1 < k2 <= n;
        assert(rotate(view, k1, n) == (view + k1) % n && rotate(view, k2, n) == (view + k2) % n);
    }
}

/// The cursor after `k` full-load scheduling steps.
pub open spec fn rotate(view: int, k: int, n: int) -> int {
    (view + k) % n
}

/// Stepping a value by one steps its remainder cyclically.
proof fn lemma_mod_step(a: int, n: int)
    requires
        n > 0,
        a >= 0,
    ensures
        (a + 1) % n == (if a % n + 1 < n {
            a % n + 1
        } else {
            0int
        }),
{
    let r = a % n;
    let q = a / n;
    assert(a == q * n + r && 0 <= r < n) by (nonlinear_arith)
        requires n > 0 && a >= 0 && r == a % n && q == a / n;
    if r + 1 < n {
        assert((a + 1) % n == r + 1) by (nonlinear_arith)
            requires a + 1 == q * n + (r + 1) && 0 <= r + 1 < n && n > 0 && q >= 0;
    } else {
        assert(a + 1 == (q + 1) * n) by (nonlinear_arith)
            requires a == q * n + r && r == n - 1;
        assert((a + 1) % n == 0) by (nonlinear_arith)
            requires a + 1 == (q + 1) * n && n > 0 && q >= 0;
    }
}

} // verus!

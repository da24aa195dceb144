//! The processes the agent has started, in the order of their ids.
use vstd::prelude::*;
use crate::error::{AgentException, error2};
use crate::text::{push_signed_decimal, signed_decimal};

verus! {

/// What the agent reports of a process.
#[derive(Debug)]
pub struct ProcessInfo {
    pub pid: i64,
    pub alive: bool,
    pub command: Option<String>,
}

/// What a poll of a process answers: output since the last poll, if any, and the exit
/// code once the process has ended.
#[derive(Debug)]
pub struct ProcessOutput {
    pub stdout_data: Option<Vec<u8>>,
    pub stderr_data: Option<Vec<u8>>,
    pub exit_code: Option<i32>,
}

/// A started process: its id, the command it runs, and the handle `P` that reaches it.
#[derive(Debug)]
pub struct ManagedProcess<P> {
    pub pid: i64,
    pub command: String,
    pub handle: P,
}

/// The processes keyed by id.
pub open spec fn pid_map<P>(e: Seq<ManagedProcess<P>>) -> Map<i64, ManagedProcess<P>>
    decreases e.len(),
{
    if e.len() == 0 {
        Map::empty()
    } else {
        pid_map(e.drop_last()).insert(e.last().pid, e.last())
    }
}

/// Ids in strictly increasing order.
pub open spec fn pids_ascending<P>(e: Seq<ManagedProcess<P>>) -> bool {
    forall|i: int, j: int| 0 <= i < j < e.len() ==> (#[trigger] e[i]).pid < (#[trigger] e[j]).pid
}

proof fn lemma_has_pid<P>(e: Seq<ManagedProcess<P>>, k: i64)
    ensures
        pid_map(e).dom().contains(k) <==> exists|i: int| 0 <= i < e.len() && (#[trigger] e[i]).pid == k,
    decreases e.len(),
{
    if e.len() > 0 {
        lemma_has_pid(e.drop_last(), k);
        if pid_map(e.drop_last()).dom().contains(k) {
            let i = choose|i: int| 0 <= i < e.drop_last().len() && (#[trigger] e.drop_last()[i]).pid == k;
            assert(e[i] == e.drop_last()[i]);
        }
        if exists|i: int| 0 <= i < e.len() && (#[trigger] e[i]).pid == k {
            let i = choose|i: int| 0 <= i < e.len() && (#[trigger] e[i]).pid == k;
            if i < e.len() - 1 {
                assert(e.drop_last()[i] == e[i]);
            }
        }
    }
}

proof fn lemma_pid_value<P>(e: Seq<ManagedProcess<P>>, i: int)
    requires
        pids_ascending(e),
        0 <= i < e.len(),
    ensures
        pid_map(e).dom().contains(e[i].pid),
        pid_map(e)[e[i].pid] == e[i],
    decreases e.len(),
{
    if i < e.len() - 1 {
        assert(e.drop_last()[i] == e[i]);
        assert(pids_ascending(e.drop_last()));
        lemma_pid_value(e.drop_last(), i);
        assert(e[i].pid < e[e.len() - 1].pid);
    }
}

/// Two lists in id order with the same entries by id are the same map.
proof fn lemma_same_map<P>(a: Seq<ManagedProcess<P>>, b: Seq<ManagedProcess<P>>, m: Map<i64, ManagedProcess<P>>)
    requires
        pids_ascending(a),
        forall|k: i64| #[trigger] m.dom().contains(k) <==> exists|i: int| 0 <= i < a.len() && (#[trigger] a[i]).pid == k,
        forall|i: int| 0 <= i < a.len() ==> #[trigger] m.dom().contains(a[i].pid) && m[a[i].pid] == a[i],
        b == a,
    ensures
        pid_map(b) == m,
{
    assert forall|k: i64| pid_map(a).dom().contains(k) <==> m.dom().contains(k) by {
        lemma_has_pid(a, k);
    }
    assert forall|k: i64| pid_map(a).dom().contains(k) implies pid_map(a)[k] == m[k] by {
        lemma_has_pid(a, k);
        let i = choose|i: int| 0 <= i < a.len() && (#[trigger] a[i]).pid == k;
        lemma_pid_value(a, i);
        assert(m.dom().contains(a[i].pid));
    }
    assert(pid_map(a) =~= m);
}

/// The processes started so far, in ascending order of id. `P` is the handle that
/// reaches a process and its output.
pub struct ProcessManager<P> {
    entries: Vec<ManagedProcess<P>>,
}

impl<P> ProcessManager<P> {
    /// The processes, in ascending order of id.
    pub closed spec fn listing(&self) -> Seq<ManagedProcess<P>> {
        self.entries@
    }

    /// The processes by id.
    pub open spec fn processes(&self) -> Map<i64, ManagedProcess<P>> {
        pid_map(self.listing())
    }

    pub open spec fn wf(&self) -> bool {
        pids_ascending(self.listing())
    }

    pub fn new() -> (m: Self)
        ensures
            m.wf(),
            m.listing() == Seq::<ManagedProcess<P>>::empty(),
    {
        ProcessManager { entries: Vec::new() }
    }

    /// Registers a started process (in place of any with the same id) and answers what
    /// the agent reports of it: alive, running `command`.
    pub fn start_process(&mut self, pid: i64, command: String, handle: P) -> (info: ProcessInfo)
        requires
            old(self).wf(),
        ensures
            final(self).wf(),
            final(self).processes() == old(self).processes().insert(
                pid,
                ManagedProcess { pid, command, handle },
            ),
            info == (ProcessInfo { pid, alive: true, command: Some(command) }),
    {
        let info = ProcessInfo { pid, alive: true, command: Some(command.clone()) };
        let entry = ManagedProcess { pid, command, handle };
        let ghost old_e = self.entries@;
        let ghost m = pid_map(old_e).insert(pid, entry);
        let mut i: usize = 0;
        while i < self.entries.len() && self.entries[i].pid < pid
            invariant
                self.entries@ == old_e,
                pids_ascending(old_e),
                0 <= i <= old_e.len(),
                forall|j: int| 0 <= j < i ==> (#[trigger] old_e[j]).pid < pid,
            decreases old_e.len() - i,
        {
            i = i + 1;
        }
        let replace = i < self.entries.len() && self.entries[i].pid == pid;
        if replace {
            let _ = self.entries.remove(i);
        }
        let ghost mid = self.entries@;
        self.entries.insert(i, entry);
        proof {
            let ne = self.entries@;
            assert(ne =~= mid.insert(i as int, entry));
            if replace {
                assert(mid =~= old_e.remove(i as int));
            } else {
                assert(mid == old_e);
            }
            let shift: int = if replace { 1 } else { 0 };
            assert forall|j: int| 0 <= j < ne.len() implies (#[trigger] ne[j]) == if j < i {
                old_e[j]
            } else if j == i {
                entry
            } else {
                old_e[j - 1 + shift]
            } by {}
            assert forall|a: int, b: int| 0 <= a < b < ne.len() implies (#[trigger] ne[a]).pid < (#[trigger] ne[b]).pid by {
                if b > i {
                    assert(old_e[b - 1 + shift].pid > pid) by {
                        if i < old_e.len() && !replace {
                            assert(old_e[i as int].pid >= pid);
                            assert(old_e[i as int].pid != pid);
                        }
                        if replace {
                            assert(old_e[i as int].pid == pid);
                        }
                    }
                }
            }
            assert forall|k: i64| #[trigger] m.dom().contains(k) <==> exists|j: int| 0 <= j < ne.len() && (#[trigger] ne[j]).pid == k by {
                lemma_has_pid(old_e, k);
                if m.dom().contains(k) && k != pid {
                    let w = choose|w: int| 0 <= w < old_e.len() && (#[trigger] old_e[w]).pid == k;
                    if w < i {
                        assert(ne[w] == old_e[w]);
                    } else {
                        assert(w != i || !replace);
                        assert(ne[w + 1 - shift] == old_e[w]);
                    }
                }
                if k == pid {
                    assert(ne[i as int].pid == k);
                }
                if exists|j: int| 0 <= j < ne.len() && (#[trigger] ne[j]).pid == k {
                    let j = choose|j: int| 0 <= j < ne.len() && (#[trigger] ne[j]).pid == k;
                    if j < i {
                        assert(old_e[j].pid == k);
                    } else if j > i {
                        assert(old_e[j - 1 + shift].pid == k);
                    }
                }
            }
            assert forall|j: int| 0 <= j < ne.len() implies #[trigger] m.dom().contains(ne[j].pid) && m[ne[j].pid] == ne[j] by {
                if j < i {
                    lemma_pid_value(old_e, j);
                } else if j > i {
                    lemma_pid_value(old_e, j - 1 + shift);
                }
            }
            lemma_same_map(ne, ne, m);
        }
        info
    }

    /// How many processes have been started.
    pub fn len(&self) -> (n: usize)
        ensures
            n == self.listing().len(),
    {
        self.entries.len()
    }

    /// The handle of the `i`-th process in order of id.
    pub fn handle_at(&self, i: usize) -> (h: &P)
        requires
            i < self.listing().len(),
        ensures
            *h == self.listing()[i as int].handle,
    {
        &self.entries[i].handle
    }

    /// The process with id `pid`, if there is one.
    pub fn find(&self, pid: i64) -> (r: Option<&ManagedProcess<P>>)
        requires
            self.wf(),
        ensures
            r is Some <==> self.processes().dom().contains(pid),
            r matches Some(p) ==> *p == self.processes()[pid],
    {
        let mut i: usize = 0;
        while i < self.entries.len()
            invariant
                self.wf(),
                0 <= i <= self.entries@.len(),
                forall|j: int| 0 <= j < i ==> (#[trigger] self.entries@[j]).pid != pid,
            decreases self.entries@.len() - i,
        {
            if self.entries[i].pid == pid {
                proof { lemma_pid_value(self.entries@, i as int); }
                return Some(&self.entries[i]);
            }
            i = i + 1;
        }
        proof { lemma_has_pid(self.entries@, pid); }
        None
    }

    /// The process to read output from, or the error for an unknown id.
    pub fn output_source(&self, pid: i64) -> (r: Result<&P, AgentException>)
        requires
            self.wf(),
        ensures
            r is Ok <==> self.processes().dom().contains(pid),
            r matches Ok(h) ==> *h == self.processes()[pid].handle,
            r matches Err(e) ==> e.message@ == "Process not found: "@ + signed_decimal(pid as int),
    {
        match self.find(pid) {
            Some(p) => Ok(&p.handle),
            None => {
                let mut num = String::new();
                push_signed_decimal(&mut num, pid);
                assert(num@ =~= signed_decimal(pid as int));
                Err(error2("Process not found: ", num.as_str()))
            },
        }
    }

    /// What the agent reports of every process, in ascending order of id; `alive[i]` tells
    /// whether the `i`-th is still running.
    pub fn list_processes(&self, alive: &Vec<bool>) -> (r: Vec<ProcessInfo>)
        requires
            alive@.len() == self.listing().len(),
        ensures
            r@.len() == self.listing().len(),
            forall|i: int| 0 <= i < r@.len() ==> #[trigger] r@[i] == (ProcessInfo {
                pid: self.listing()[i].pid,
                alive: alive@[i],
                command: Some(self.listing()[i].command),
            }),
    {
        let mut r: Vec<ProcessInfo> = Vec::new();
        let mut i: usize = 0;
        while i < self.entries.len()
            invariant
                alive@.len() == self.entries@.len(),
                0 <= i <= self.entries@.len(),
                r@.len() == i,
                forall|j: int| 0 <= j < i ==> #[trigger] r@[j] == (ProcessInfo {
                    pid: self.entries@[j].pid,
                    alive: alive@[j],
                    command: Some(self.entries@[j].command),
                }),
            decreases self.entries@.len() - i,
        {
            let e = &self.entries[i];
            r.push(ProcessInfo { pid: e.pid, alive: alive[i], command: Some(e.command.clone()) });
            i = i + 1;
        }
        r
    }
}

/// The answer to a poll of a process: each stream's new bytes when there are any, and
/// the exit code.
pub fn process_output(exit_code: Option<i32>, stdout_data: Vec<u8>, stderr_data: Vec<u8>) -> (r: ProcessOutput)
    ensures
        r.exit_code == exit_code,
        r.stdout_data == if stdout_data@.len() > 0 { Some(stdout_data) } else { None::<Vec<u8>> },
        r.stderr_data == if stderr_data@.len() > 0 { Some(stderr_data) } else { None::<Vec<u8>> },
{
    let out = if stdout_data.len() > 0 { Some(stdout_data) } else { None };
    let err = if stderr_data.len() > 0 { Some(stderr_data) } else { None };
    ProcessOutput { stdout_data: out, stderr_data: err, exit_code }
}

} // verus!

//! Which live processes belong to a test: those started from the
//! unpacked test programs, and everything they forked.
use vstd::prelude::*;
use crate::text::{chars_of, starts_with, starts_with_spec};

verus! {

/// One live process as the process table shows it.
#[derive(Debug, Clone, PartialEq)]
pub struct ProcessInfo {
    pub pid: u32,
    pub ppid: u32,
    /// The path of its executable, `None` where it cannot be read.
    pub exe: Option<String>,
}

/// The executable of `p` lies under `prefix`.
pub open spec fn runs_from(p: ProcessInfo, prefix: Seq<char>) -> bool {
    match p.exe {
        Some(e) => starts_with_spec(e@, prefix),
        None => false,
    }
}

/// The ids of `processes` whose executable lies under `process_path`, in
/// table order.
pub fn get_all_pids_for_command_path(processes: &Vec<ProcessInfo>, process_path: &str) -> (r: Vec<u32>)
    ensures
        r@ == processes@.filter(|p: ProcessInfo| runs_from(p, process_path@)).map_values(|p: ProcessInfo| p.pid),
{
    let prefix = chars_of(process_path);
    let mut pids: Vec<u32> = Vec::new();
    let n = processes.len();
    for i in 0..n
        invariant
            n == processes@.len(),
            prefix@ == process_path@,
            pids@ == processes@.take(i as int).filter(|p: ProcessInfo| runs_from(p, process_path@)).map_values(|p: ProcessInfo| p.pid),
    {
        let p = &processes[i];
        assert(processes@.take(i + 1) == processes@.take(i as int).push(*p));
        proof {
            processes@.take(i as int).lemma_filter_push(*p, |p: ProcessInfo| runs_from(p, process_path@));
        }
        let matches = match &p.exe {
            Some(e) => starts_with(&chars_of(e.as_str()), &prefix),
            None => false,
        };
        if matches {
            pids.push(p.pid);
            assert(pids@ =~= processes@.take(i + 1).filter(|p: ProcessInfo| runs_from(p, process_path@)).map_values(|p: ProcessInfo| p.pid));
        }
    }
    assert(processes@.take(n as int) == processes@);
    pids
}

/// The ids of the children of `parent_pid`, in table order.
pub fn get_all_child_pids(processes: &Vec<ProcessInfo>, parent_pid: u32) -> (r: Vec<u32>)
    ensures
        r@ == processes@.filter(|p: ProcessInfo| p.ppid == parent_pid).map_values(|p: ProcessInfo| p.pid),
{
    let mut pids: Vec<u32> = Vec::new();
    let n = processes.len();
    for i in 0..n
        invariant
            n == processes@.len(),
            pids@ == processes@.take(i as int).filter(|p: ProcessInfo| p.ppid == parent_pid).map_values(|p: ProcessInfo| p.pid),
    {
        let p = &processes[i];
        assert(processes@.take(i + 1) == processes@.take(i as int).push(*p));
        proof {
            processes@.take(i as int).lemma_filter_push(*p, |p: ProcessInfo| p.ppid == parent_pid);
        }
        if p.ppid == parent_pid {
            pids.push(p.pid);
            assert(pids@ =~= processes@.take(i + 1).filter(|p: ProcessInfo| p.ppid == parent_pid).map_values(|p: ProcessInfo| p.pid));
        }
    }
    assert(processes@.take(n as int) == processes@);
    pids
}

/// The index of the first process of `processes` with id `pid`.
pub open spec fn index_of_pid(processes: Seq<ProcessInfo>, pid: u32) -> Option<int>
    decreases processes.len(),
{
    if processes.len() == 0 {
        None
    } else {
        match index_of_pid(processes.drop_last(), pid) {
            Some(j) => Some(j),
            None => if processes.last().pid == pid {
                Some(processes.len() - 1)
            } else {
                None
            },
        }
    }
}

proof fn lemma_index_of_pid(processes: Seq<ProcessInfo>, pid: u32)
    ensures
        match index_of_pid(processes, pid) {
            Some(j) => 0 <= j < processes.len() && processes[j].pid == pid,
            None => forall|k: int| 0 <= k < processes.len() ==> #[trigger] processes[k].pid != pid,
        },
    decreases processes.len(),
{
    if processes.len() > 0 {
        lemma_index_of_pid(processes.drop_last(), pid);
        assert forall|k: int| 0 <= k < processes.len() - 1 implies #[trigger] processes[k] == processes.drop_last()[k] by {}
    }
}

/// Process `i` runs from under `prefix`, or one of its ancestors up to
/// `generations` back does.
pub open spec fn started_from(processes: Seq<ProcessInfo>, prefix: Seq<char>, i: int, generations: nat) -> bool
    decreases generations,
{
    runs_from(processes[i], prefix) || (generations > 0 && match index_of_pid(processes, processes[i].ppid) {
        Some(j) => started_from(processes, prefix, j, (generations - 1) as nat),
        None => false,
    })
}

/// The test's processes: `i` runs from under `prefix` or descends from a
/// process that does. No chain of parents is longer than the table.
pub open spec fn belongs_to_test(processes: Seq<ProcessInfo>, prefix: Seq<char>, i: int) -> bool {
    started_from(processes, prefix, i, processes.len())
}

fn find_pid(processes: &Vec<ProcessInfo>, pid: u32) -> (r: Option<usize>)
    ensures
        r == match index_of_pid(processes@, pid) {
            Some(j) => Some(j as usize),
            None => None::<usize>,
        },
{
    proof {
        lemma_index_of_pid(processes@, pid);
    }
    let n = processes.len();
    for k in 0..n
        invariant
            n == processes@.len(),
            forall|j: int| 0 <= j < k ==> #[trigger] processes@[j].pid != pid,
    {
        if processes[k].pid == pid {
            proof {
                let found = index_of_pid(processes@, pid);
                lemma_index_of_pid(processes@, pid);
                if found is Some {
                    let j = found->0;
                    if j != k {
                        assert(j > k);
                        lemma_first_index(processes@, pid, k as int);
                    }
                }
            }
            return Some(k);
        }
    }
    None
}

proof fn lemma_first_index(processes: Seq<ProcessInfo>, pid: u32, k: int)
    requires
        0 <= k < processes.len(),
        processes[k].pid == pid,
        forall|j: int| 0 <= j < k ==> #[trigger] processes[j].pid != pid,
    ensures
        index_of_pid(processes, pid) == Some(k),
    decreases processes.len(),
{
    if k < processes.len() - 1 {
        assert(processes.drop_last()[k] == processes[k]);
        lemma_first_index(processes.drop_last(), pid, k);
    } else {
        lemma_index_of_pid(processes.drop_last(), pid);
        assert forall|j: int| 0 <= j < processes.drop_last().len() implies #[trigger] processes.drop_last()[j].pid != pid by {
            assert(processes.drop_last()[j] == processes[j]);
        }
    }
}


fn runs_from_exec(p: &ProcessInfo, prefix: &Vec<char>) -> (r: bool)
    ensures
        r == runs_from(*p, prefix@),
{
    match &p.exe {
        Some(e) => starts_with(&chars_of(e.as_str()), prefix),
        None => false,
    }
}

fn belongs_to_test_exec(processes: &Vec<ProcessInfo>, prefix: &Vec<char>, i: usize) -> (r: bool)
    requires
        i < processes@.len(),
    ensures
        r == belongs_to_test(processes@, prefix@, i as int),
{
    let n = processes.len();
    let mut cur = i;
    let mut generations = n;
    loop
        invariant
            n == processes@.len(),
            cur < n,
            generations <= n,
            started_from(processes@, prefix@, cur as int, generations as nat) == belongs_to_test(processes@, prefix@, i as int),
        decreases generations,
    {
        if runs_from_exec(&processes[cur], prefix) {
            return true;
        }
        if generations == 0 {
            return false;
        }
        match find_pid(processes, processes[cur].ppid) {
            Some(j) => {
                proof {
                    lemma_index_of_pid(processes@, processes@[cur as int].ppid);
                }
                cur = j;
                generations = generations - 1;
            },
            None => {
                return false;
            },
        }
    }
}

/// The ids of the first `k` processes of the table that belong to the test.
pub open spec fn test_pids_upto(processes: Seq<ProcessInfo>, prefix: Seq<char>, k: int) -> Seq<u32>
    decreases k,
{
    if k <= 0 {
        Seq::empty()
    } else {
        let prev = test_pids_upto(processes, prefix, k - 1);
        if belongs_to_test(processes, prefix, k - 1) {
            prev.push(processes[k - 1].pid)
        } else {
            prev
        }
    }
}

/// The ids, in table order, of the processes that a test started from
/// under `process_path` consists of: those running from there and all
/// their descendants, since the test programs fork.
pub fn pids_to_kill(processes: &Vec<ProcessInfo>, process_path: &str) -> (r: Vec<u32>)
    ensures
        r@ == test_pids_upto(processes@, process_path@, processes@.len() as int),
{
    let prefix = chars_of(process_path);
    let mut pids: Vec<u32> = Vec::new();
    let n = processes.len();
    for i in 0..n
        invariant
            n == processes@.len(),
            prefix@ == process_path@,
            pids@ == test_pids_upto(processes@, process_path@, i as int),
    {
        if belongs_to_test_exec(processes, &prefix, i) {
            pids.push(processes[i].pid);
        }
    }
    pids
}

} // verus!

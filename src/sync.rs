use vstd::prelude::*;
use std::collections::HashMap;

verus! {

broadcast use vstd::std_specs::hash::group_hash_axioms;

/// Returned by a semaphore `down` that the deadlock check refuses.
pub const DEADLOCK: isize = -0xDEAD;

/// A lock that tasks of the process take by id. A task that finds it held waits
/// in line, and `unlock` hands the lock to the first in line.
pub struct Mutex {
    pub blocking: bool,
    pub locked: bool,
    pub wait_queue: Vec<usize>,
}

/// A counting semaphore; a negative count is the number of waiting tasks.
pub struct Semaphore {
    pub count: isize,
    pub wait_queue: Vec<usize>,
}

/// A condition variable; each waiter is kept with the mutex it must take back.
pub struct Condvar {
    pub wait_queue: Vec<(usize, usize)>,
}

/// Per-task state: whether it waits, and, per semaphore id, the units it holds
/// (`allocation`) and the units it waits for (`need`).
pub struct Task {
    pub blocked: bool,
    pub allocation: HashMap<usize, u64>,
    pub need: HashMap<usize, u64>,
}

/// A wake-up that `sleep` asked for.
pub struct Timer {
    pub expire_ms: usize,
    pub task: usize,
}

/// The synchronisation state of one process. A task's id is its index in `tasks`;
/// a sync object's id is its index in its list.
pub struct Process {
    pub tasks: Vec<Option<Task>>,
    pub mutex_list: Vec<Option<Mutex>>,
    pub semaphore_list: Vec<Option<Semaphore>>,
    pub condvar_list: Vec<Option<Condvar>>,
    pub timers: Vec<Timer>,
    pub need_dead_lock_detect: bool,
}

/// Units of resource `k` recorded in `m`.
pub open spec fn cnt(m: Map<usize, u64>, k: usize) -> nat {
    if m.contains_key(k) {
        m[k] as nat
    } else {
        0
    }
}

/// `m` with one more unit of `k`.
pub open spec fn inc_map(m: Map<usize, u64>, k: usize) -> Map<usize, u64> {
    m.insert(k, (cnt(m, k) + 1) as u64)
}

/// `m` with one unit of `k` fewer; an entry that would reach zero is dropped.
pub open spec fn dec_map(m: Map<usize, u64>, k: usize) -> Map<usize, u64> {
    if cnt(m, k) > 1 {
        m.insert(k, (cnt(m, k) - 1) as u64)
    } else {
        m.remove(k)
    }
}

/// `id` is the first free slot of `s`, or `s.len()` when there is none.
pub open spec fn is_first_hole<T>(s: Seq<Option<T>>, id: int) -> bool {
    &&& 0 <= id <= s.len()
    &&& id < s.len() ==> s[id] is None
    &&& forall|j: int| 0 <= j < id ==> s[j] is Some
}

/// `b` is `a` but for the slot at `i`.
pub open spec fn same_except<T>(a: Seq<T>, b: Seq<T>, i: int) -> bool {
    &&& a.len() == b.len()
    &&& forall|j: int| 0 <= j < a.len() && j != i ==> a[j] == b[j]
}

/// `b` is `a` with `x` stored in the slot at `id` (a free slot or one past the end).
pub open spec fn stored_at<T>(a: Seq<Option<T>>, b: Seq<Option<T>>, id: int, x: T) -> bool {
    &&& b.len() == if id < a.len() { a.len() } else { a.len() + 1 }
    &&& b[id] == Some(x)
    &&& forall|j: int| 0 <= j < a.len() && j != id ==> b[j] == a[j]
}

pub open spec fn is_task(p: Process, t: int) -> bool {
    0 <= t < p.tasks@.len() && p.tasks@[t] is Some
}

pub open spec fn task(p: Process, t: int) -> Task {
    p.tasks@[t]->Some_0
}

pub open spec fn is_sem(p: Process, s: int) -> bool {
    0 <= s < p.semaphore_list@.len() && p.semaphore_list@[s] is Some
}

pub open spec fn sem(p: Process, s: int) -> Semaphore {
    p.semaphore_list@[s]->Some_0
}

pub open spec fn is_mutex(p: Process, m: int) -> bool {
    0 <= m < p.mutex_list@.len() && p.mutex_list@[m] is Some
}

pub open spec fn mutex(p: Process, m: int) -> Mutex {
    p.mutex_list@[m]->Some_0
}

pub open spec fn is_condvar(p: Process, c: int) -> bool {
    0 <= c < p.condvar_list@.len() && p.condvar_list@[c] is Some
}

pub open spec fn condvar(p: Process, c: int) -> Condvar {
    p.condvar_list@[c]->Some_0
}

/// `b` is `a` with task `t` marked as waiting or not; nothing else changes.
pub open spec fn with_blocked(a: Seq<Option<Task>>, b: Seq<Option<Task>>, t: int, blocked: bool) -> bool {
    &&& same_except(a, b, t)
    &&& b[t] is Some
    &&& b[t]->Some_0.blocked == blocked
    &&& b[t]->Some_0.allocation@ == a[t]->Some_0.allocation@
    &&& b[t]->Some_0.need@ == a[t]->Some_0.need@
}

/// `b` is `a` with task `t` woken, where `t` names a task; else `b` is `a`.
pub open spec fn woken(a: Seq<Option<Task>>, b: Seq<Option<Task>>, t: int) -> bool {
    if 0 <= t < a.len() && a[t] is Some {
        with_blocked(a, b, t, false)
    } else {
        b == a
    }
}

/// Marks task `t` as waiting or not.
fn set_blocked(tasks: &mut Vec<Option<Task>>, t: usize, blocked: bool)
    requires
        t < old(tasks)@.len(),
        old(tasks)@[t as int] is Some,
    ensures
        with_blocked(old(tasks)@, final(tasks)@, t as int, blocked),
{
    match &mut tasks[t] {
        Some(task) => {
            task.blocked = blocked;
        },
        None => {},
    }
}

/// Wakes task `t` if it exists.
fn wake(tasks: &mut Vec<Option<Task>>, t: usize)
    ensures
        woken(old(tasks)@, final(tasks)@, t as int),
{
    if t < tasks.len() {
        if tasks[t].is_some() {
            set_blocked(tasks, t, false);
        }
    }
}

/// The first free slot of `v`, or `v.len()`.
fn find_hole<T>(v: &Vec<Option<T>>) -> (r: usize)
    ensures
        is_first_hole(v@, r as int),
{
    let mut i: usize = 0;
    while i < v.len()
        invariant
            i <= v@.len(),
            forall|j: int| 0 <= j < i ==> v@[j] is Some,
        decreases v@.len() - i,
    {
        if v[i].is_none() {
            return i;
        }
        i += 1;
    }
    i
}

/// Stores `x` in the first free slot of `v` and returns the slot.
fn store<T>(v: &mut Vec<Option<T>>, x: T) -> (r: usize)
    ensures
        is_first_hole(old(v)@, r as int),
        stored_at(old(v)@, final(v)@, r as int, x),
{
    let id = find_hole(v);
    if id < v.len() {
        v.set(id, Some(x));
    } else {
        v.push(Some(x));
    }
    id
}

impl Task {
    /// A running task that holds and waits for nothing.
    pub fn new() -> (r: Task)
        ensures
            !r.blocked,
            r.allocation@ == Map::<usize, u64>::empty(),
            r.need@ == Map::<usize, u64>::empty(),
    {
        Task { blocked: false, allocation: HashMap::new(), need: HashMap::new() }
    }
}

impl Process {
    /// A process with no tasks and no sync objects, with deadlock detection off.
    pub fn new() -> (r: Process)
        ensures
            r.tasks@.len() == 0,
            r.mutex_list@.len() == 0,
            r.semaphore_list@.len() == 0,
            r.condvar_list@.len() == 0,
            r.timers@.len() == 0,
            !r.need_dead_lock_detect,
    {
        Process {
            tasks: Vec::new(),
            mutex_list: Vec::new(),
            semaphore_list: Vec::new(),
            condvar_list: Vec::new(),
            timers: Vec::new(),
            need_dead_lock_detect: false,
        }
    }

    /// Adds a running task and returns its id.
    pub fn add_task(&mut self) -> (tid: usize)
        requires
            old(self).tasks@.len() < usize::MAX,
        ensures
            tid == old(self).tasks@.len(),
            final(self).tasks@.len() == tid + 1,
            forall|j: int| 0 <= j < tid ==> final(self).tasks@[j] == old(self).tasks@[j],
            is_task(*final(self), tid as int),
            !task(*final(self), tid as int).blocked,
            task(*final(self), tid as int).allocation@ == Map::<usize, u64>::empty(),
            task(*final(self), tid as int).need@ == Map::<usize, u64>::empty(),
            final(self).mutex_list == old(self).mutex_list,
            final(self).semaphore_list == old(self).semaphore_list,
            final(self).condvar_list == old(self).condvar_list,
            final(self).timers == old(self).timers,
            final(self).need_dead_lock_detect == old(self).need_dead_lock_detect,
    {
        self.tasks.push(Some(Task::new()));
        self.tasks.len() - 1
    }
}

/// Creates a mutex (blocking or spinning) in the first free slot and returns its id.
pub fn sys_mutex_create(process: &mut Process, blocking: bool) -> (r: isize)
    requires
        old(process).mutex_list@.len() < isize::MAX,
    ensures
        is_first_hole(old(process).mutex_list@, r as int),
        stored_at(
            old(process).mutex_list@,
            final(process).mutex_list@,
            r as int,
            Mutex { blocking, locked: false, wait_queue: final(process).mutex_list@[r as int]->Some_0.wait_queue },
        ),
        mutex(*final(process), r as int).wait_queue@.len() == 0,
        final(process).tasks == old(process).tasks,
        final(process).semaphore_list == old(process).semaphore_list,
        final(process).condvar_list == old(process).condvar_list,
        final(process).timers == old(process).timers,
        final(process).need_dead_lock_detect == old(process).need_dead_lock_detect,
{
    let m = Mutex { blocking, locked: false, wait_queue: Vec::new() };
    store(&mut process.mutex_list, m) as isize
}

/// Creates a semaphore with `res_count` units in the first free slot and returns its id.
pub fn sys_semaphore_create(process: &mut Process, res_count: usize) -> (r: isize)
    requires
        old(process).semaphore_list@.len() < isize::MAX,
        res_count <= isize::MAX,
    ensures
        is_first_hole(old(process).semaphore_list@, r as int),
        stored_at(
            old(process).semaphore_list@,
            final(process).semaphore_list@,
            r as int,
            Semaphore {
                count: res_count as isize,
                wait_queue: final(process).semaphore_list@[r as int]->Some_0.wait_queue,
            },
        ),
        sem(*final(process), r as int).wait_queue@.len() == 0,
        final(process).tasks == old(process).tasks,
        final(process).mutex_list == old(process).mutex_list,
        final(process).condvar_list == old(process).condvar_list,
        final(process).timers == old(process).timers,
        final(process).need_dead_lock_detect == old(process).need_dead_lock_detect,
{
    let s = Semaphore { count: res_count as isize, wait_queue: Vec::new() };
    store(&mut process.semaphore_list, s) as isize
}

/// Creates a condition variable in the first free slot and returns its id.
pub fn sys_condvar_create(process: &mut Process) -> (r: isize)
    requires
        old(process).condvar_list@.len() < isize::MAX,
    ensures
        is_first_hole(old(process).condvar_list@, r as int),
        stored_at(
            old(process).condvar_list@,
            final(process).condvar_list@,
            r as int,
            Condvar { wait_queue: final(process).condvar_list@[r as int]->Some_0.wait_queue },
        ),
        condvar(*final(process), r as int).wait_queue@.len() == 0,
        final(process).tasks == old(process).tasks,
        final(process).mutex_list == old(process).mutex_list,
        final(process).semaphore_list == old(process).semaphore_list,
        final(process).timers == old(process).timers,
        final(process).need_dead_lock_detect == old(process).need_dead_lock_detect,
{
    let c = Condvar { wait_queue: Vec::new() };
    store(&mut process.condvar_list, c) as isize
}

/// Turns deadlock detection on (1) or off (0); any other value is refused with -1.
pub fn sys_enable_deadlock_detect(process: &mut Process, enabled: usize) -> (r: isize)
    ensures
        r == if enabled <= 1 { 0isize } else { -1isize },
        final(process).need_dead_lock_detect == if enabled <= 1 {
            enabled == 1
        } else {
            old(process).need_dead_lock_detect
        },
        final(process).tasks == old(process).tasks,
        final(process).mutex_list == old(process).mutex_list,
        final(process).semaphore_list == old(process).semaphore_list,
        final(process).condvar_list == old(process).condvar_list,
        final(process).timers == old(process).timers,
{
    if enabled == 1 {
        process.need_dead_lock_detect = true;
    } else if enabled == 0 {
        process.need_dead_lock_detect = false;
    } else {
        return -1;
    }
    0
}

/// Units that each task holds, one row per task slot and one column per
/// semaphore slot; an empty task slot holds nothing.
pub open spec fn alloc_matrix(p: Process) -> Seq<Seq<u64>> {
    Seq::new(
        p.tasks@.len(),
        |t: int|
            Seq::new(
                p.semaphore_list@.len(),
                |r: int| if is_task(p, t) { cnt(task(p, t).allocation@, r as usize) as u64 } else { 0 },
            ),
    )
}

/// Units that each task waits for, with the request of task `cur` on `sem_id`
/// added; an empty task slot waits for nothing.
pub open spec fn need_matrix(p: Process, cur: int, sem_id: int) -> Seq<Seq<u64>> {
    Seq::new(
        p.tasks@.len(),
        |t: int|
            Seq::new(
                p.semaphore_list@.len(),
                |r: int|
                    if is_task(p, t) {
                        (cnt(task(p, t).need@, r as usize) + if t == cur && r == sem_id {
                            1int
                        } else {
                            0
                        }) as u64
                    } else {
                        0
                    },
            ),
    )
}

/// Free units of each semaphore slot; a negative count or an empty slot gives none.
pub open spec fn avail_vector(p: Process) -> Seq<u64> {
    Seq::new(
        p.semaphore_list@.len(),
        |r: int| if is_sem(p, r) && sem(p, r).count > 0 { sem(p, r).count as u64 } else { 0 },
    )
}

/// The state of `p` after task `cur` asks for a unit of `sem_id` is safe.
pub open spec fn down_is_safe(p: Process, cur: int, sem_id: int) -> bool {
    crate::banker::is_safe(alloc_matrix(p), need_matrix(p, cur, sem_id), avail_vector(p))
}

/// `f` is `o` after a granted `down` of task `cur` on `sem_id`: the count drops
/// by one; with no unit free the task waits and its need grows, else what it holds grows.
pub open spec fn down_done(o: Process, f: Process, cur: int, sem_id: int) -> bool {
    let c = sem(o, sem_id).count;
    let ot = task(o, cur);
    let ft = task(f, cur);
    &&& same_except(o.semaphore_list@, f.semaphore_list@, sem_id)
    &&& is_sem(f, sem_id)
    &&& sem(f, sem_id).count == c - 1
    &&& sem(f, sem_id).wait_queue@ == if c <= 0 {
        sem(o, sem_id).wait_queue@.push(cur as usize)
    } else {
        sem(o, sem_id).wait_queue@
    }
    &&& same_except(o.tasks@, f.tasks@, cur)
    &&& is_task(f, cur)
    &&& ft.blocked == (ot.blocked || c <= 0)
    &&& ft.need@ == if c <= 0 { inc_map(ot.need@, sem_id as usize) } else { ot.need@ }
    &&& ft.allocation@ == if c <= 0 { ot.allocation@ } else { inc_map(ot.allocation@, sem_id as usize) }
    &&& f.mutex_list == o.mutex_list
    &&& f.condvar_list == o.condvar_list
    &&& f.timers == o.timers
    &&& f.need_dead_lock_detect == o.need_dead_lock_detect
}

/// A `down` that the deadlock check lets through leaves the process in a state
/// where some order lets every task finish: no deadlock can follow from it.
pub proof fn lemma_granted_down_is_deadlock_free(p: Process, cur: int, sem_id: int)
    requires
        down_is_safe(p, cur, sem_id),
    ensures
        exists|order: Seq<int>|
            crate::banker::is_completion_schedule(
                alloc_matrix(p),
                need_matrix(p, cur, sem_id),
                avail_vector(p),
                order,
            ),
{
    let a = alloc_matrix(p);
    let n = need_matrix(p, cur, sem_id);
    let v = avail_vector(p);
    assert(crate::banker::well_shaped(a, n, v));
    crate::banker::lemma_safe_state_has_schedule(a, n, v);
}

/// The units of `k` recorded in `m`.
fn count_in(m: &HashMap<usize, u64>, k: usize) -> (r: u64)
    ensures
        r == cnt(m@, k),
{
    match m.get(&k) {
        Some(c) => *c,
        None => 0,
    }
}

/// Adds one unit of `k` to `m`.
fn add_one(m: &mut HashMap<usize, u64>, k: usize)
    requires
        cnt(old(m)@, k) < u64::MAX,
    ensures
        final(m)@ == inc_map(old(m)@, k),
{
    let c = count_in(m, k);
    m.insert(k, c + 1);
}

/// Takes one unit of `k` from `m`, dropping the entry when none is left.
fn take_one(m: &mut HashMap<usize, u64>, k: usize)
    ensures
        final(m)@ == dec_map(old(m)@, k),
{
    let c = count_in(m, k);
    if c > 1 {
        m.insert(k, c - 1);
    } else {
        m.remove(&k);
    }
}

/// Builds the inputs of the Banker's check for a request of task `cur` on `sem_id`
/// and runs it.
fn banker_allows(p: &Process, cur: usize, sem_id: usize) -> (r: bool)
    requires
        is_task(*p, cur as int),
        is_sem(*p, sem_id as int),
        cnt(task(*p, cur as int).need@, sem_id) < u64::MAX,
    ensures
        r == down_is_safe(*p, cur as int, sem_id as int),
{
    let tn = p.tasks.len();
    let rn = p.semaphore_list.len();
    let ghost am = alloc_matrix(*p);
    let ghost nm = need_matrix(*p, cur as int, sem_id as int);
    let mut alloc: Vec<Vec<u64>> = Vec::new();
    let mut need: Vec<Vec<u64>> = Vec::new();
    let mut t: usize = 0;
    while t < tn
        invariant
            t <= tn,
            tn == p.tasks@.len(),
            rn == p.semaphore_list@.len(),
            is_task(*p, cur as int),
            is_sem(*p, sem_id as int),
            cnt(task(*p, cur as int).need@, sem_id) < u64::MAX,
            am == alloc_matrix(*p),
            nm == need_matrix(*p, cur as int, sem_id as int),
            alloc@.len() == t,
            need@.len() == t,
            forall|q: int| 0 <= q < t ==> (#[trigger] alloc@[q])@ == am[q],
            forall|q: int| 0 <= q < t ==> (#[trigger] need@[q])@ == nm[q],
        decreases tn - t,
    {
        let mut arow: Vec<u64> = Vec::new();
        let mut nrow: Vec<u64> = Vec::new();
        let mut r: usize = 0;
        while r < rn
            invariant
                r <= rn,
                t < tn,
                tn == p.tasks@.len(),
                rn == p.semaphore_list@.len(),
                is_task(*p, cur as int),
                cnt(task(*p, cur as int).need@, sem_id) < u64::MAX,
                am == alloc_matrix(*p),
                nm == need_matrix(*p, cur as int, sem_id as int),
                arow@.len() == r,
                nrow@.len() == r,
                forall|q: int| 0 <= q < r ==> arow@[q] == #[trigger] am[t as int][q],
                forall|q: int| 0 <= q < r ==> nrow@[q] == #[trigger] nm[t as int][q],
            decreases rn - r,
        {
            match &p.tasks[t] {
                Some(task_ref) => {
                    arow.push(count_in(&task_ref.allocation, r));
                    let n = count_in(&task_ref.need, r);
                    if t == cur && r == sem_id {
                        nrow.push(n + 1);
                    } else {
                        nrow.push(n);
                    }
                },
                None => {
                    arow.push(0);
                    nrow.push(0);
                },
            }
            r += 1;
        }
        assert(arow@ =~= am[t as int]);
        assert(nrow@ =~= nm[t as int]);
        alloc.push(arow);
        need.push(nrow);
        t += 1;
    }
    let ghost av = avail_vector(*p);
    let mut avail: Vec<u64> = Vec::new();
    let mut r: usize = 0;
    while r < rn
        invariant
            r <= rn,
            rn == p.semaphore_list@.len(),
            av == avail_vector(*p),
            avail@.len() == r,
            forall|q: int| 0 <= q < r ==> avail@[q] == #[trigger] av[q],
        decreases rn - r,
    {
        let c = match &p.semaphore_list[r] {
            Some(s) => s.count,
            None => 0,
        };
        if c > 0 {
            avail.push(c as u64);
        } else {
            avail.push(0);
        }
        r += 1;
    }
    assert(avail@ =~= av);
    assert(crate::banker::rows(alloc@) =~= am);
    assert(crate::banker::rows(need@) =~= nm);
    crate::banker::is_safe_state(&alloc, &need, &avail)
}

/// Task `cur` asks for one unit of semaphore `sem_id`.
///
/// With detection on, the request is first put to the Banker's check over every
/// task's holdings and needs (an empty task slot holds and needs nothing, an empty
/// semaphore slot has no free unit): an unsafe request gets `DEADLOCK` and
/// changes nothing.
/// Otherwise the count drops by one and the call returns 0; when no unit was
/// free the task waits in line and its need grows, else what it holds grows.
pub fn sys_semaphore_down(process: &mut Process, cur: usize, sem_id: usize) -> (r: isize)
    requires
        is_task(*old(process), cur as int),
        is_sem(*old(process), sem_id as int),
        sem(*old(process), sem_id as int).count > isize::MIN,
        cnt(task(*old(process), cur as int).need@, sem_id) < u64::MAX,
        cnt(task(*old(process), cur as int).allocation@, sem_id) < u64::MAX,
    ensures
        old(process).need_dead_lock_detect && !down_is_safe(
            *old(process),
            cur as int,
            sem_id as int,
        ) ==> r == DEADLOCK && *final(process) == *old(process),
        !old(process).need_dead_lock_detect || down_is_safe(
            *old(process),
            cur as int,
            sem_id as int,
        ) ==> r == 0 && down_done(*old(process), *final(process), cur as int, sem_id as int),
{
    if process.need_dead_lock_detect {
        if !banker_allows(process, cur, sem_id) {
            return DEADLOCK;
        }
    }
    let c = match &process.semaphore_list[sem_id] {
        Some(s) => s.count,
        None => 0,
    };
    match &mut process.tasks[cur] {
        Some(t) => {
            if c <= 0 {
                add_one(&mut t.need, sem_id);
                t.blocked = true;
            } else {
                add_one(&mut t.allocation, sem_id);
            }
        },
        None => {},
    }
    match &mut process.semaphore_list[sem_id] {
        Some(s) => {
            s.count = s.count - 1;
            if s.count < 0 {
                s.wait_queue.push(cur);
            }
        },
        None => {},
    }
    0
}

/// Task `cur` returns one unit of semaphore `sem_id`.
///
/// What the task holds of it drops by one (an entry that reaches zero goes), the
/// count grows by one, and when tasks were waiting the first in line is woken.
/// The woken task's need is left as it was: it is not moved to what it holds.
pub fn sys_semaphore_up(process: &mut Process, cur: usize, sem_id: usize) -> (r: isize)
    requires
        is_task(*old(process), cur as int),
        is_sem(*old(process), sem_id as int),
        sem(*old(process), sem_id as int).count < isize::MAX,
    ensures
        r == 0,
        ({
            let o = *old(process);
            let f = *final(process);
            let c = sem(o, sem_id as int).count;
            let q = sem(o, sem_id as int).wait_queue@;
            let wakes = c + 1 <= 0 && q.len() > 0;
            &&& same_except(o.semaphore_list@, f.semaphore_list@, sem_id as int)
            &&& is_sem(f, sem_id as int)
            &&& sem(f, sem_id as int).count == c + 1
            &&& sem(f, sem_id as int).wait_queue@ == if wakes { q.drop_first() } else { q }
            &&& exists|mid: Seq<Option<Task>>|
                {
                    &&& same_except(o.tasks@, mid, cur as int)
                    &&& mid[cur as int] is Some
                    &&& mid[cur as int]->Some_0.blocked == task(o, cur as int).blocked
                    &&& mid[cur as int]->Some_0.need@ == task(o, cur as int).need@
                    &&& mid[cur as int]->Some_0.allocation@ == dec_map(
                        task(o, cur as int).allocation@,
                        sem_id,
                    )
                    &&& if wakes {
                        woken(mid, f.tasks@, q[0] as int)
                    } else {
                        f.tasks@ == mid
                    }
                }
            &&& f.mutex_list == o.mutex_list
            &&& f.condvar_list == o.condvar_list
            &&& f.timers == o.timers
            &&& f.need_dead_lock_detect == o.need_dead_lock_detect
        }),
{
    match &mut process.tasks[cur] {
        Some(t) => {
            take_one(&mut t.allocation, sem_id);
        },
        None => {},
    }
    let ghost mid = process.tasks@;
    let mut waiter: Option<usize> = None;
    match &mut process.semaphore_list[sem_id] {
        Some(s) => {
            s.count = s.count + 1;
            if s.count <= 0 && s.wait_queue.len() > 0 {
                let ghost q = s.wait_queue@;
                waiter = Some(s.wait_queue.remove(0));
                assert(s.wait_queue@ =~= q.drop_first());
            }
        },
        None => {},
    }
    match waiter {
        Some(w) => wake(&mut process.tasks, w),
        None => {},
    }
    assert(same_except(old(process).tasks@, mid, cur as int));
    0
}

/// `f` is `o` with mutex `mid` released. A blocking mutex passes to its first
/// waiter, who is woken and now holds it. A spinning mutex becomes free, and its
/// first waiter, if any, is woken to try again. With nobody waiting it is free.
pub open spec fn released(o: Process, f: Process, mid: int) -> bool {
    let m = mutex(o, mid);
    &&& same_except(o.mutex_list@, f.mutex_list@, mid)
    &&& is_mutex(f, mid)
    &&& mutex(f, mid).blocking == m.blocking
    &&& if m.wait_queue@.len() > 0 {
        &&& mutex(f, mid).locked == (m.blocking && m.locked)
        &&& mutex(f, mid).wait_queue@ == m.wait_queue@.drop_first()
        &&& woken(o.tasks@, f.tasks@, m.wait_queue@[0] as int)
    } else {
        &&& !mutex(f, mid).locked
        &&& mutex(f, mid).wait_queue@ == m.wait_queue@
        &&& f.tasks == o.tasks
    }
    &&& f.semaphore_list == o.semaphore_list
    &&& f.condvar_list == o.condvar_list
    &&& f.timers == o.timers
    &&& f.need_dead_lock_detect == o.need_dead_lock_detect
}

/// Releases mutex `mid`: a blocking one goes to the first waiter, a spinning one
/// is freed and its first waiter woken to retry.
fn release_mutex(process: &mut Process, mid: usize)
    requires
        is_mutex(*old(process), mid as int),
    ensures
        released(*old(process), *final(process), mid as int),
{
    let mut waiter: Option<usize> = None;
    match &mut process.mutex_list[mid] {
        Some(m) => {
            if m.wait_queue.len() > 0 {
                let ghost q = m.wait_queue@;
                waiter = Some(m.wait_queue.remove(0));
                assert(m.wait_queue@ =~= q.drop_first());
                if !m.blocking {
                    m.locked = false;
                }
            } else {
                m.locked = false;
            }
        },
        None => {},
    }
    match waiter {
        Some(w) => wake(&mut process.tasks, w),
        None => {},
    }
}

/// Task `cur` takes mutex `mutex_id`: a free mutex becomes held; a held one puts
/// the task in line, waiting. On a spinning mutex the waiter is woken when the
/// holder lets go and then takes the lock by calling again. Returns 0.
pub fn sys_mutex_lock(process: &mut Process, cur: usize, mutex_id: usize) -> (r: isize)
    requires
        is_task(*old(process), cur as int),
        is_mutex(*old(process), mutex_id as int),
    ensures
        r == 0,
        ({
            let o = *old(process);
            let f = *final(process);
            let m = mutex(o, mutex_id as int);
            &&& same_except(o.mutex_list@, f.mutex_list@, mutex_id as int)
            &&& is_mutex(f, mutex_id as int)
            &&& mutex(f, mutex_id as int).blocking == m.blocking
            &&& mutex(f, mutex_id as int).locked
            &&& mutex(f, mutex_id as int).wait_queue@ == if m.locked {
                m.wait_queue@.push(cur)
            } else {
                m.wait_queue@
            }
            &&& if m.locked {
                with_blocked(o.tasks@, f.tasks@, cur as int, true)
            } else {
                f.tasks == o.tasks
            }
            &&& f.semaphore_list == o.semaphore_list
            &&& f.condvar_list == o.condvar_list
            &&& f.timers == o.timers
            &&& f.need_dead_lock_detect == o.need_dead_lock_detect
        }),
{
    let mut wait = false;
    match &mut process.mutex_list[mutex_id] {
        Some(m) => {
            if m.locked {
                m.wait_queue.push(cur);
                wait = true;
            } else {
                m.locked = true;
            }
        },
        None => {},
    }
    if wait {
        set_blocked(&mut process.tasks, cur, true);
    }
    0
}

/// Releases mutex `mutex_id`: a blocking mutex goes to its first waiter; a
/// spinning one is freed and its first waiter woken to retry. Returns 0.
pub fn sys_mutex_unlock(process: &mut Process, mutex_id: usize) -> (r: isize)
    requires
        is_mutex(*old(process), mutex_id as int),
    ensures
        r == 0,
        released(*old(process), *final(process), mutex_id as int),
{
    release_mutex(process, mutex_id);
    0
}

/// Wakes the first waiter of condition variable `condvar_id`, if any. The waiter
/// takes back its mutex: at once when it is free, else it waits in that mutex's
/// line. Returns 0.
pub fn sys_condvar_signal(process: &mut Process, condvar_id: usize) -> (r: isize)
    requires
        is_condvar(*old(process), condvar_id as int),
    ensures
        r == 0,
        ({
            let o = *old(process);
            let f = *final(process);
            let q = condvar(o, condvar_id as int).wait_queue@;
            &&& same_except(o.condvar_list@, f.condvar_list@, condvar_id as int)
            &&& is_condvar(f, condvar_id as int)
            &&& f.semaphore_list == o.semaphore_list
            &&& f.timers == o.timers
            &&& f.need_dead_lock_detect == o.need_dead_lock_detect
            &&& if q.len() == 0 {
                &&& condvar(f, condvar_id as int).wait_queue@ == q
                &&& f.tasks == o.tasks
                &&& f.mutex_list == o.mutex_list
            } else {
                let t = q[0].0;
                let mid = q[0].1 as int;
                &&& condvar(f, condvar_id as int).wait_queue@ == q.drop_first()
                &&& if !is_mutex(o, mid) {
                    woken(o.tasks@, f.tasks@, t as int) && f.mutex_list == o.mutex_list
                } else if !mutex(o, mid).locked {
                    &&& woken(o.tasks@, f.tasks@, t as int)
                    &&& same_except(o.mutex_list@, f.mutex_list@, mid)
                    &&& is_mutex(f, mid)
                    &&& mutex(f, mid).locked
                    &&& mutex(f, mid).blocking == mutex(o, mid).blocking
                    &&& mutex(f, mid).wait_queue@ == mutex(o, mid).wait_queue@
                } else {
                    &&& f.tasks == o.tasks
                    &&& same_except(o.mutex_list@, f.mutex_list@, mid)
                    &&& is_mutex(f, mid)
                    &&& mutex(f, mid).locked
                    &&& mutex(f, mid).blocking == mutex(o, mid).blocking
                    &&& mutex(f, mid).wait_queue@ == mutex(o, mid).wait_queue@.push(t)
                }
            }
        }),
{
    let mut head: Option<(usize, usize)> = None;
    match &mut process.condvar_list[condvar_id] {
        Some(c) => {
            if c.wait_queue.len() > 0 {
                let ghost q = c.wait_queue@;
                head = Some(c.wait_queue.remove(0));
                assert(c.wait_queue@ =~= q.drop_first());
            }
        },
        None => {},
    }
    match head {
        Some((t, mid)) => {
            let held: Option<bool> = if mid < process.mutex_list.len() {
                match &process.mutex_list[mid] {
                    Some(m) => Some(m.locked),
                    None => None,
                }
            } else {
                None
            };
            match held {
                Some(true) => {
                    match &mut process.mutex_list[mid] {
                        Some(m) => m.wait_queue.push(t),
                        None => {},
                    }
                },
                Some(false) => {
                    match &mut process.mutex_list[mid] {
                        Some(m) => m.locked = true,
                        None => {},
                    }
                    wake(&mut process.tasks, t);
                },
                None => wake(&mut process.tasks, t),
            }
        },
        None => {},
    }
    0
}

/// Task `cur` waits on condition variable `condvar_id`: it releases mutex
/// `mutex_id` as `sys_mutex_unlock` does, joins the
/// condition variable's line with the mutex to take back, and waits. Returns 0.
pub fn sys_condvar_wait(process: &mut Process, cur: usize, condvar_id: usize, mutex_id: usize) -> (r: isize)
    requires
        is_task(*old(process), cur as int),
        is_condvar(*old(process), condvar_id as int),
        is_mutex(*old(process), mutex_id as int),
    ensures
        r == 0,
        exists|mid: Process|
            {
                &&& released(*old(process), mid, mutex_id as int)
                &&& with_blocked(mid.tasks@, final(process).tasks@, cur as int, true)
                &&& final(process).mutex_list == mid.mutex_list
                &&& same_except(old(process).condvar_list@, final(process).condvar_list@, condvar_id as int)
                &&& is_condvar(*final(process), condvar_id as int)
                &&& condvar(*final(process), condvar_id as int).wait_queue@ == condvar(
                    *old(process),
                    condvar_id as int,
                ).wait_queue@.push((cur, mutex_id))
                &&& final(process).semaphore_list == old(process).semaphore_list
                &&& final(process).timers == old(process).timers
                &&& final(process).need_dead_lock_detect == old(process).need_dead_lock_detect
            },
{
    release_mutex(process, mutex_id);
    let ghost mid = *process;
    match &mut process.condvar_list[condvar_id] {
        Some(c) => {
            c.wait_queue.push((cur, mutex_id));
        },
        None => {},
    }
    set_blocked(&mut process.tasks, cur, true);
    assert(released(*old(process), mid, mutex_id as int));
    0
}

/// Task `cur` sleeps for `ms` milliseconds from `now_ms`: a timer for it is added
/// and it waits. Returns 0.
pub fn sys_sleep(process: &mut Process, cur: usize, now_ms: usize, ms: usize) -> (r: isize)
    requires
        is_task(*old(process), cur as int),
        now_ms + ms <= usize::MAX,
    ensures
        r == 0,
        final(process).timers@.len() == old(process).timers@.len() + 1,
        forall|i: int| 0 <= i < old(process).timers@.len() ==> final(process).timers@[i] == old(process).timers@[i],
        final(process).timers@.last().expire_ms == now_ms + ms,
        final(process).timers@.last().task == cur,
        with_blocked(old(process).tasks@, final(process).tasks@, cur as int, true),
        final(process).mutex_list == old(process).mutex_list,
        final(process).semaphore_list == old(process).semaphore_list,
        final(process).condvar_list == old(process).condvar_list,
        final(process).need_dead_lock_detect == old(process).need_dead_lock_detect,
{
    let expire_ms = now_ms + ms;
    process.timers.push(Timer { expire_ms, task: cur });
    set_blocked(&mut process.tasks, cur, true);
    0
}

} // verus!

use vstd::prelude::*;

use vstd::arithmetic::div_mod::{
    lemma_add_mod_noop, lemma_mod_pos_bound, lemma_mod_self_0, lemma_small_mod,
};

use crate::context::{
    buffer_address, prime_stack, primed_frame, State, Thread, ThreadContext, DEFAULT_STACK_SIZE,
    MIN_STACK_SIZE, RSP,
};

verus! {

/// Number of slots, the base slot included, unless configured otherwise.
pub const DEFAULT_CAPACITY: usize = 4;

/// The slot at circular distance `d` after `cur` in a pool of `n` slots
/// (for `0 <= cur < n` and `0 <= d < n`).
pub open spec fn slot_after(n: int, cur: int, d: int) -> int {
    if cur + d < n {
        cur + d
    } else {
        cur + d - n
    }
}

/// The first Ready slot at circular distance `d`, `d + 1`, ... below `s.len()`
/// after `cur`.
pub open spec fn scan(s: Seq<State>, cur: int, d: int) -> Option<int>
    decreases s.len() - d,
{
    if d < 1 || d >= s.len() {
        None
    } else if s[slot_after(s.len() as int, cur, d)] == State::Ready {
        Some(slot_after(s.len() as int, cur, d))
    } else {
        scan(s, cur, d + 1)
    }
}

/// The slot that round robin schedules after `cur`: the first Ready slot in
/// strict circular order starting just after `cur`, if any slot other than
/// `cur` is Ready.
pub open spec fn next_ready(s: Seq<State>, cur: int) -> Option<int> {
    scan(s, cur, 1)
}

/// The first Available slot at index `from` or above.
pub open spec fn first_available(s: Seq<State>, from: int) -> Option<int>
    decreases s.len() - from,
{
    if from < 0 || from >= s.len() {
        None
    } else if s[from] == State::Available {
        Some(from)
    } else {
        first_available(s, from + 1)
    }
}

/// What the slot being left becomes: a retired slot stays Available, any
/// other is Ready to be resumed later.
pub open spec fn left_behind(st: State) -> State {
    if st == State::Available {
        State::Available
    } else {
        State::Ready
    }
}

/// One handoff from slot `c`: to the slot `next_ready` picks, with `c` left
/// behind as `left_behind` says; or, when nothing is Ready, no change.
pub open spec fn handoff(s: Seq<State>, c: int, s2: Seq<State>, c2: int) -> bool {
    match next_ready(s, c) {
        None => s2 == s && c2 == c,
        Some(j) => c2 == j && s2 == s.update(c, left_behind(s[c])).update(j, State::Running),
    }
}

/// What a yield from slot `c` does to the states and the current slot.
pub open spec fn yield_step(s: Seq<State>, c: int, s2: Seq<State>, c2: int) -> bool {
    handoff(s, c, s2, c2)
}

/// What a finish on slot `c` does: on the base slot nothing; on any other,
/// the slot is retired and control hands off.
pub open spec fn finish_step(s: Seq<State>, c: int, s2: Seq<State>, c2: int) -> bool {
    if c == 0 {
        s2 == s && c2 == c
    } else {
        handoff(s.update(c, State::Available), c, s2, c2)
    }
}

/// A yield or a finish, by whichever slot is current.
pub open spec fn scheduler_step(s: Seq<State>, c: int, s2: Seq<State>, c2: int) -> bool {
    yield_step(s, c, s2, c2) || finish_step(s, c, s2, c2)
}

/// Circular distance from `cur` forward to `k` in a pool of `n` slots, in
/// `1..n` for `k != cur`.
pub open spec fn distance(n: int, cur: int, k: int) -> int {
    if k > cur {
        k - cur
    } else {
        k + n - cur
    }
}

proof fn lemma_scan_first(s: Seq<State>, cur: int, d: int)
    requires
        0 <= cur < s.len(),
        1 <= d,
    ensures
        scan(s, cur, d) matches Some(j) ==> {
            &&& 0 <= j < s.len()
            &&& j != cur
            &&& s[j] == State::Ready
            &&& d <= distance(s.len() as int, cur, j) < s.len()
            &&& forall|e: int|
                d <= e < distance(s.len() as int, cur, j) ==> s[#[trigger] slot_after(
                    s.len() as int,
                    cur,
                    e,
                )] != State::Ready
        },
        scan(s, cur, d) is None ==> forall|e: int|
            d <= e < s.len() ==> s[#[trigger] slot_after(s.len() as int, cur, e)] != State::Ready,
    decreases s.len() - d,
{
    if d < s.len() && s[slot_after(s.len() as int, cur, d)] != State::Ready {
        lemma_scan_first(s, cur, d + 1);
    }
}

/// Round-robin fairness: the slot scheduled after `cur` is Ready, is not
/// `cur`, and no slot strictly between them (going forward circularly from
/// `cur`) is Ready; and nothing is scheduled exactly when no slot other than
/// `cur` is Ready.
pub proof fn lemma_next_ready_first(s: Seq<State>, cur: int)
    requires
        0 <= cur < s.len(),
    ensures
        next_ready(s, cur) matches Some(j) ==> {
            &&& 0 <= j < s.len()
            &&& j != cur
            &&& s[j] == State::Ready
            &&& forall|k: int|
                0 <= k < s.len() && k != cur && distance(s.len() as int, cur, k) < distance(
                    s.len() as int,
                    cur,
                    j,
                ) ==> s[k] != State::Ready
        },
        next_ready(s, cur) is None <==> forall|k: int|
            0 <= k < s.len() && k != cur ==> s[k] != State::Ready,
{
    let n = s.len() as int;
    lemma_scan_first(s, cur, 1);
    assert forall|k: int| 0 <= k < n && k != cur implies slot_after(n, cur, distance(n, cur, k))
        == k && 1 <= distance(n, cur, k) < n by {}
    if next_ready(s, cur) is None {
        assert forall|k: int| 0 <= k < n && k != cur implies s[k] != State::Ready by {
            assert(s[slot_after(n, cur, distance(n, cur, k))] != State::Ready);
        }
    } else {
        let j = next_ready(s, cur)->Some_0;
        assert forall|k: int|
            0 <= k < n && k != cur && distance(n, cur, k) < distance(n, cur, j) implies s[k]
            != State::Ready by {
            assert(s[slot_after(n, cur, distance(n, cur, k))] != State::Ready);
        }
    }
}

/// A handoff of control decided by the scheduler: the live registers are to
/// be saved into slot `from`'s context and slot `to`'s context loaded.
#[derive(PartialEq, Eq, Structural, Clone, Copy, Debug)]
pub struct Switch {
    pub from: usize,
    pub to: usize,
}

/// Why new work could not be assigned.
#[derive(PartialEq, Eq, Structural, Clone, Copy, Debug)]
pub enum SpawnError {
    /// Every slot but the base slot holds work.
    NoSlotAvailable,
}

/// A fixed pool of slots, scheduled round robin. Slot 0 is the base slot:
/// the thread that built the runtime. Exactly one slot is Running, the one
/// at `current`.
pub struct Runtime {
    threads: Vec<Thread>,
    current: usize,
    stack_size: usize,
}

impl Runtime {
    /// The state of each slot, by index.
    pub closed spec fn states(&self) -> Seq<State> {
        self.threads@.map_values(|t: Thread| t.state)
    }

    /// The stack buffer of each slot, by index.
    pub closed spec fn stacks(&self) -> Seq<Seq<u8>> {
        self.threads@.map_values(|t: Thread| t.stack@)
    }

    /// The saved context of each slot, by index.
    pub closed spec fn contexts(&self) -> Seq<ThreadContext> {
        self.threads@.map_values(|t: Thread| t.ctx)
    }

    /// The index of the Running slot.
    pub closed spec fn current(&self) -> int {
        self.current as int
    }

    /// The size in bytes of every slot's stack.
    pub closed spec fn stack_size(&self) -> nat {
        self.stack_size as nat
    }

    /// The number of slots, the base slot included.
    pub open spec fn capacity(&self) -> nat {
        self.states().len()
    }

    /// Holds between operations, except for the one slot being retired
    /// inside `t_return`, which may be Available while still current.
    closed spec fn inv(&self) -> bool {
        &&& 1 <= self.threads@.len()
        &&& self.current < self.threads@.len()
        &&& self.stack_size >= MIN_STACK_SIZE
        &&& self.threads@[0].state != State::Available
        &&& self.current == 0 ==> self.threads@[0].state == State::Running
        &&& forall|i: int|
            0 <= i < self.threads@.len() && i != self.current ==> #[trigger] self.threads@[i].state
                != State::Running
        &&& forall|i: int|
            0 <= i < self.threads@.len() ==> #[trigger] self.threads@[i].stack@.len()
                == self.stack_size
    }

    /// Well-formedness: at least one slot; the current slot is the only
    /// Running one; the base slot is never Available; every stack has the
    /// configured size, which is at least `MIN_STACK_SIZE`.
    pub closed spec fn wf(&self) -> bool {
        &&& self.inv()
        &&& self.threads@[self.current as int].state == State::Running
    }

    /// A runtime with `DEFAULT_CAPACITY` slots of `DEFAULT_STACK_SIZE` bytes.
    pub fn new() -> (r: Self)
        ensures
            r.wf(),
            r.capacity() == DEFAULT_CAPACITY,
            r.stack_size() == DEFAULT_STACK_SIZE,
            r.current() == 0,
            r.states()[0] == State::Running,
            forall|i: int| 1 <= i < r.capacity() ==> #[trigger] r.states()[i] == State::Available,
            forall|i: int| 0 <= i < r.capacity() ==> (#[trigger] r.contexts()[i]).is_zeroed(),
            forall|i: int, j: int|
                0 <= i < r.capacity() && 0 <= j < r.stack_size() ==> #[trigger] r.stacks()[i][j]
                    == 0,
    {
        Runtime::with_config(DEFAULT_CAPACITY, DEFAULT_STACK_SIZE)
    }

    /// A runtime with `capacity` slots, each with a zeroed stack of
    /// `stack_size` bytes and a zeroed context. A stack must be large enough
    /// to hold the initial resume frame of a fiber (`MIN_STACK_SIZE`). Slot 0 is Running (it stands
    /// for the calling thread), every other slot is Available.
    pub fn with_config(capacity: usize, stack_size: usize) -> (r: Self)
        requires
            capacity >= 1,
            stack_size >= MIN_STACK_SIZE,
        ensures
            r.wf(),
            r.capacity() == capacity,
            r.stack_size() == stack_size,
            r.current() == 0,
            r.states()[0] == State::Running,
            forall|i: int| 1 <= i < r.capacity() ==> #[trigger] r.states()[i] == State::Available,
            forall|i: int| 0 <= i < r.capacity() ==> (#[trigger] r.contexts()[i]).is_zeroed(),
            forall|i: int, j: int|
                0 <= i < r.capacity() && 0 <= j < r.stack_size() ==> #[trigger] r.stacks()[i][j]
                    == 0,
    {
        let base_thread = Thread {
            stack: vec![0u8; stack_size],
            ctx: ThreadContext::default(),
            state: State::Running,
        };
        let mut threads: Vec<Thread> = Vec::new();
        threads.push(base_thread);
        let mut k: usize = 1;
        while k < capacity
            invariant
                1 <= k <= capacity,
                threads@.len() == k,
                threads@[0].state == State::Running,
                forall|i: int| 1 <= i < k ==> #[trigger] threads@[i].state == State::Available,
                forall|i: int| 0 <= i < k ==> (#[trigger] threads@[i]).ctx.is_zeroed(),
                forall|i: int| 0 <= i < k ==> #[trigger] threads@[i].stack@.len() == stack_size,
                forall|i: int, j: int|
                    0 <= i < k && 0 <= j < stack_size ==> #[trigger] threads@[i].stack@[j] == 0,
            decreases capacity - k,
        {
            threads.push(Thread::with_stack_size(stack_size));
            k = k + 1;
        }
        let rt = Runtime { threads, current: 0, stack_size };
        assert forall|i: int, j: int|
            0 <= i < rt.capacity() && 0 <= j < rt.stack_size() implies #[trigger] rt.stacks()[i][j]
            == 0 by {
            assert(rt.stacks()[i] == rt.threads@[i].stack@);
        }
        rt
    }

    /// The index of the slot that round robin schedules next, if any.
    fn find_next_ready(&self) -> (r: Option<usize>)
        requires
            self.inv(),
        ensures
            match r {
                None => next_ready(self.states(), self.current()) is None,
                Some(j) => next_ready(self.states(), self.current()) == Some(j as int),
            },
    {
        let n = self.threads.len();
        let cur = self.current;
        let mut d: usize = 1;
        while d < n
            invariant
                1 <= d <= n,
                n == self.threads@.len(),
                cur == self.current,
                self.inv(),
                scan(self.states(), cur as int, 1) == scan(self.states(), cur as int, d as int),
            decreases n - d,
        {
            let pos = if d < n - cur {
                cur + d
            } else {
                d - (n - cur)
            };
            if self.threads[pos].state == State::Ready {
                return Some(pos);
            }
            d = d + 1;
        }
        None
    }

    /// Leaves the current slot (as Ready, or as Available if it was retired)
    /// for the slot that round robin schedules next, if there is one.
    fn switch_away(&mut self) -> (r: Option<Switch>)
        requires
            old(self).inv(),
            old(self).states()[old(self).current()] == State::Running || (old(self).current() != 0
                && old(self).states()[old(self).current()] == State::Available),
        ensures
            final(self).inv(),
            final(self).stack_size() == old(self).stack_size(),
            final(self).stacks() == old(self).stacks(),
            final(self).contexts() == old(self).contexts(),
            handoff(old(self).states(), old(self).current(), final(self).states(), final(self).current()),
            match r {
                None => {
                    &&& next_ready(old(self).states(), old(self).current()) is None
                    &&& final(self).states() == old(self).states()
                    &&& final(self).current() == old(self).current()
                },
                Some(sw) => {
                    &&& next_ready(old(self).states(), old(self).current()) == Some(sw.to as int)
                    &&& sw.from == old(self).current()
                    &&& final(self).current() == sw.to
                    &&& final(self).states() == old(self).states().update(
                        old(self).current(),
                        left_behind(old(self).states()[old(self).current()]),
                    ).update(sw.to as int, State::Running)
                    &&& final(self).wf()
                },
            },
    {
        match self.find_next_ready() {
            None => None,
            Some(pos) => {
                proof {
                    lemma_next_ready_first(self.states(), self.current());
                }
                let old_pos = self.current;
                if self.threads[old_pos].state != State::Available {
                    self.threads[old_pos].state = State::Ready;
                }
                self.threads[pos].state = State::Running;
                self.current = pos;
                proof {
                    let s = old(self).states();
                    let c = old(self).current();
                    assert(self.states() =~= s.update(c, left_behind(s[c])).update(
                        pos as int,
                        State::Running,
                    ));
                }
                Some(Switch { from: old_pos, to: pos })
            },
        }
    }

    /// Yields the processor: the current slot becomes Ready and the slot that
    /// round robin schedules next becomes Running and current. Returns the
    /// handoff to perform, or `None` (changing nothing) when no other slot is
    /// Ready. No slot's stack or saved context is touched.
    pub fn t_yield(&mut self) -> (r: Option<Switch>)
        requires
            old(self).wf(),
        ensures
            final(self).wf(),
            final(self).stack_size() == old(self).stack_size(),
            final(self).stacks() == old(self).stacks(),
            final(self).contexts() == old(self).contexts(),
            yield_step(old(self).states(), old(self).current(), final(self).states(), final(self).current()),
            match r {
                None => {
                    &&& next_ready(old(self).states(), old(self).current()) is None
                    &&& final(self).states() == old(self).states()
                    &&& final(self).current() == old(self).current()
                },
                Some(sw) => {
                    &&& next_ready(old(self).states(), old(self).current()) == Some(sw.to as int)
                    &&& sw.from == old(self).current()
                    &&& final(self).current() == sw.to
                    &&& final(self).states() == old(self).states().update(
                        old(self).current(),
                        State::Ready,
                    ).update(sw.to as int, State::Running)
                },
            },
    {
        self.switch_away()
    }

    /// Retires the current slot when its work is done: it becomes Available
    /// and control goes to the slot that round robin schedules next, which
    /// always exists (the base slot at least). On the base slot this changes
    /// nothing and returns `None`.
    pub fn t_return(&mut self) -> (r: Option<Switch>)
        requires
            old(self).wf(),
        ensures
            final(self).wf(),
            final(self).stack_size() == old(self).stack_size(),
            final(self).stacks() == old(self).stacks(),
            final(self).contexts() == old(self).contexts(),
            finish_step(old(self).states(), old(self).current(), final(self).states(), final(self).current()),
            old(self).current() == 0 ==> {
                &&& r is None
                &&& final(self).states() == old(self).states()
                &&& final(self).current() == 0
            },
            old(self).current() != 0 ==> {
                &&& r matches Some(sw)
                &&& sw.from == old(self).current()
                &&& next_ready(
                    old(self).states().update(old(self).current(), State::Available),
                    old(self).current(),
                ) == Some(sw.to as int)
                &&& final(self).current() == sw.to
                &&& final(self).states() == old(self).states().update(
                    old(self).current(),
                    State::Available,
                ).update(sw.to as int, State::Running)
            },
    {
        if self.current != 0 {
            let cur = self.current;
            self.threads[cur].state = State::Available;
            proof {
                assert(self.states() =~= old(self).states().update(cur as int, State::Available));
                lemma_next_ready_first(self.states(), self.current());
                assert(self.states()[0] == State::Ready);
            }
            self.switch_away()
        } else {
            None
        }
    }

    /// Assigns new work to the lowest-numbered Available slot and makes it
    /// Ready: lays out on its stack the initial resume frame of `work`, `skip`
    /// and `guard` (see `prime_stack`) and points its saved stack pointer at
    /// that frame. Returns the slot's index, or `NoSlotAvailable` (changing
    /// nothing) when every slot but the base slot holds work.
    pub fn spawn(&mut self, work: u64, skip: u64, guard: u64) -> (r: Result<usize, SpawnError>)
        requires
            old(self).wf(),
        ensures
            final(self).wf(),
            final(self).stack_size() == old(self).stack_size(),
            final(self).current() == old(self).current(),
            match r {
                Err(e) => {
                    &&& e == SpawnError::NoSlotAvailable
                    &&& first_available(old(self).states(), 1) is None
                    &&& final(self).states() == old(self).states()
                    &&& final(self).stacks() == old(self).stacks()
                    &&& final(self).contexts() == old(self).contexts()
                },
                Ok(i) => {
                    &&& first_available(old(self).states(), 1) == Some(i as int)
                    &&& final(self).states() == old(self).states().update(i as int, State::Ready)
                    &&& final(self).stacks().len() == old(self).stacks().len()
                    &&& final(self).contexts().len() == old(self).contexts().len()
                    &&& forall|k: int|
                        0 <= k < old(self).capacity() && k != i ==> {
                            &&& #[trigger] final(self).stacks()[k] == old(self).stacks()[k]
                            &&& final(self).contexts()[k] == old(self).contexts()[k]
                        }
                    &&& final(self).contexts()[i as int].regs@ == old(self).contexts()[
                        i as int
                    ].regs@.update(RSP as int, final(self).contexts()[i as int].rsp())
                    &&& exists|base: int|
                        primed_frame(
                            old(self).stacks()[i as int],
                            final(self).stacks()[i as int],
                            base,
                            final(self).contexts()[i as int].rsp(),
                            work,
                            skip,
                            guard,
                        )
                },
            },
    {
        let n = self.threads.len();
        let mut i: usize = 1;
        while i < n
            invariant
                1 <= i <= n,
                n == self.threads@.len(),
                self.wf(),
                *self == *old(self),
                first_available(self.states(), 1) == first_available(self.states(), i as int),
            decreases n - i,
        {
            if self.threads[i].state == State::Available {
                let base = buffer_address(&self.threads[i].stack);
                let rsp = prime_stack(&mut self.threads[i].stack, base, work, skip, guard);
                self.threads[i].ctx.regs[RSP] = rsp;
                self.threads[i].state = State::Ready;
                proof {
                    let ghost k = i as int;
                    assert(self.states() =~= old(self).states().update(k, State::Ready));
                    assert(self.threads@[k].stack@ == self.stacks()[k]);
                    assert(primed_frame(
                        old(self).stacks()[k],
                        self.stacks()[k],
                        base as int,
                        self.contexts()[k].rsp(),
                        work,
                        skip,
                        guard,
                    ));
                }
                return Ok(i);
            }
            i = i + 1;
        }
        Err(SpawnError::NoSlotAvailable)
    }

    /// The index of the Running slot.
    pub fn current_slot(&self) -> (r: usize)
        ensures
            r == self.current(),
    {
        self.current
    }

    /// The number of slots, the base slot included.
    pub fn slot_count(&self) -> (r: usize)
        ensures
            r == self.capacity(),
    {
        self.threads.len()
    }

    /// The state of slot `i`.
    pub fn state_of(&self, i: usize) -> (r: State)
        requires
            i < self.capacity(),
        ensures
            r == self.states()[i as int],
    {
        self.threads[i].state
    }

    /// The saved context of slot `i`.
    pub fn context(&self, i: usize) -> (r: &ThreadContext)
        requires
            i < self.capacity(),
        ensures
            *r == self.contexts()[i as int],
    {
        &self.threads[i].ctx
    }

    /// The saved context of slot `i`, for the register handoff to fill or
    /// load. Nothing else of the runtime can change through it.
    pub fn context_mut(&mut self, i: usize) -> (r: &mut ThreadContext)
        requires
            i < old(self).capacity(),
        ensures
            *r == old(self).contexts()[i as int],
            final(self).contexts() == old(self).contexts().update(i as int, *final(r)),
            final(self).states() == old(self).states(),
            final(self).stacks() == old(self).stacks(),
            final(self).current() == old(self).current(),
            final(self).stack_size() == old(self).stack_size(),
    {
        &mut self.threads[i].ctx
    }
}

/// What well-formedness means for a runtime's model: at least one slot; the
/// current slot is Running and no other is; the base slot is never
/// Available; every stack has the configured size, at least `MIN_STACK_SIZE`.
pub proof fn lemma_wf_unfold(rt: &Runtime)
    requires
        rt.wf(),
    ensures
        rt.capacity() >= 1,
        0 <= rt.current() < rt.capacity(),
        rt.states()[rt.current()] == State::Running,
        forall|i: int| 0 <= i < rt.capacity() && i != rt.current() ==> #[trigger] rt.states()[i]
            != State::Running,
        rt.states()[0] != State::Available,
        rt.stack_size() >= MIN_STACK_SIZE,
        rt.stacks().len() == rt.capacity(),
        rt.contexts().len() == rt.capacity(),
        forall|i: int| 0 <= i < rt.capacity() ==> (#[trigger] rt.stacks()[i]).len() == rt.stack_size(),
{
}

/// Well-formedness depends on the states, the stacks, the current slot and
/// the stack size alone: saved contexts play no part in it.
pub proof fn lemma_wf_depends_on_model(a: &Runtime, b: &Runtime)
    requires
        a.wf(),
        b.states() == a.states(),
        b.stacks() == a.stacks(),
        b.current() == a.current(),
        b.stack_size() == a.stack_size(),
    ensures
        b.wf(),
{
    assert(b.threads@.len() == b.states().len());
    assert(a.threads@.len() == a.states().len());
    assert forall|i: int| 0 <= i < b.threads@.len() implies #[trigger] b.threads@[i].state
        == a.threads@[i].state by {
        assert(b.states()[i] == b.threads@[i].state);
        assert(a.states()[i] == a.threads@[i].state);
    }
    assert forall|i: int| 0 <= i < b.threads@.len() implies #[trigger] b.threads@[i].stack@
        == a.threads@[i].stack@ by {
        assert(b.stacks()[i] == b.threads@[i].stack@);
        assert(a.stacks()[i] == a.threads@[i].stack@);
    }
}

/// Draining: on the base slot, yielding finds nothing to run exactly when
/// every other slot is Available, that is when every piece of assigned work
/// has finished. The base slot itself is never Available, so it is never
/// retired.
pub proof fn lemma_run_ends_when_all_finished(rt: &Runtime)
    requires
        rt.wf(),
        rt.current() == 0,
    ensures
        rt.states()[0] != State::Available,
        next_ready(rt.states(), 0) is None <==> forall|i: int|
            1 <= i < rt.capacity() ==> #[trigger] rt.states()[i] == State::Available,
{
    lemma_wf_unfold(rt);
    lemma_next_ready_first(rt.states(), 0);
    if next_ready(rt.states(), 0) is None {
        assert forall|i: int| 1 <= i < rt.capacity() implies #[trigger] rt.states()[i]
            == State::Available by {
            assert(rt.states()[i] != State::Ready);
            assert(rt.states()[i] != State::Running);
        }
    }
}

/// Assignment picks the lowest-numbered Available slot at or after `from`,
/// and finds none exactly when no slot from there on is Available.
pub proof fn lemma_first_available_lowest(s: Seq<State>, from: int)
    requires
        0 <= from,
    ensures
        first_available(s, from) matches Some(i) ==> {
            &&& from <= i < s.len()
            &&& s[i] == State::Available
            &&& forall|k: int| from <= k < i ==> s[k] != State::Available
        },
        first_available(s, from) is None <==> forall|k: int|
            from <= k < s.len() ==> s[k] != State::Available,
    decreases s.len() - from,
{
    if from < s.len() && s[from] != State::Available {
        lemma_first_available_lowest(s, from + 1);
        if first_available(s, from) is None {
            assert forall|k: int| from <= k < s.len() implies s[k] != State::Available by {
                if k > from {
                    assert(s[k] != State::Available);
                }
            }
        }
    }
}

/// A retired (Available) slot is skipped by every scan; once it is made
/// Ready again, a scan from any other slot that meets no Ready slot before
/// it schedules it.
pub proof fn lemma_retired_skipped_rearmed_scheduled(s: Seq<State>, cur: int, i: int)
    requires
        0 <= cur < s.len(),
        0 <= i < s.len(),
    ensures
        s[i] == State::Available ==> next_ready(s, cur) != Some(i),
        s[i] == State::Ready && i != cur && (forall|k: int|
            0 <= k < s.len() && k != cur && distance(s.len() as int, cur, k) < distance(
                s.len() as int,
                cur,
                i,
            ) ==> s[k] != State::Ready) ==> next_ready(s, cur) == Some(i),
{
    lemma_next_ready_first(s, cur);
    if s[i] == State::Ready && i != cur {
        if let Some(j) = next_ready(s, cur) {
            if j != i {
                assert(distance(s.len() as int, cur, j) != distance(s.len() as int, cur, i));
            }
        }
    }
}

/// A retired slot stays retired: once slot `k` (not the base slot) has
/// finished, every later yield or finish, by whichever slot is current,
/// leaves it Available and never hands control back to it, so the call site
/// of its finish is never resumed. Only reassigning it can change that.
pub proof fn lemma_retired_slot_stays_retired(trace: Seq<(Seq<State>, int)>, k: int)
    requires
        trace.len() >= 2,
        0 < k < trace[0].0.len(),
        trace[0].1 == k,
        trace[0].0[0] != State::Available,
        forall|i: int| 0 <= i < trace[0].0.len() && i != k ==> trace[0].0[i] != State::Running,
        finish_step(trace[0].0, trace[0].1, trace[1].0, trace[1].1),
        forall|m: int| 0 <= m < trace.len() ==> 0 <= #[trigger] trace[m].1 < trace[m].0.len(),
        forall|m: int|
            1 <= m < trace.len() - 1 ==> scheduler_step(
                #[trigger] trace[m].0,
                trace[m].1,
                trace[m + 1].0,
                trace[m + 1].1,
            ),
    ensures
        forall|m: int|
            1 <= m < trace.len() ==> {
                &&& k < (#[trigger] trace[m]).0.len()
                &&& trace[m].0[k] == State::Available
                &&& trace[m].1 != k
            },
{
    lemma_finish_retires(trace[0].0, k, trace[1].0, trace[1].1);
    assert forall|m: int| 1 <= m < trace.len() implies {
        &&& k < (#[trigger] trace[m]).0.len()
        &&& trace[m].0[k] == State::Available
        &&& trace[m].1 != k
    } by {
        lemma_retired_at(trace, k, m);
    }
}

proof fn lemma_retired_at(trace: Seq<(Seq<State>, int)>, k: int, m: int)
    requires
        1 <= m < trace.len(),
        0 <= k < trace[1].0.len(),
        trace[1].0[k] == State::Available,
        trace[1].1 != k,
        forall|n: int| 0 <= n < trace.len() ==> 0 <= #[trigger] trace[n].1 < trace[n].0.len(),
        forall|n: int|
            1 <= n < trace.len() - 1 ==> scheduler_step(
                #[trigger] trace[n].0,
                trace[n].1,
                trace[n + 1].0,
                trace[n + 1].1,
            ),
    ensures
        k < trace[m].0.len(),
        trace[m].0[k] == State::Available,
        trace[m].1 != k,
    decreases m,
{
    if m > 1 {
        lemma_retired_at(trace, k, m - 1);
        let p = trace[m - 1];
        let q = trace[m];
        assert(scheduler_step(trace[m - 1].0, p.1, q.0, q.1));
        lemma_step_keeps_retired(p.0, p.1, q.0, q.1, k);
    }
}

/// A finish on slot `k` (not the base slot), while the base slot is Ready,
/// leaves `k` Available and hands control elsewhere.
proof fn lemma_finish_retires(s: Seq<State>, k: int, s2: Seq<State>, c2: int)
    requires
        0 < k < s.len(),
        s[0] != State::Available,
        s[0] != State::Running,
        finish_step(s, k, s2, c2),
    ensures
        k < s2.len(),
        s2[k] == State::Available,
        c2 != k,
{
    let s1 = s.update(k, State::Available);
    lemma_next_ready_first(s1, k);
    assert(s1[0] == State::Ready);
}

/// One yield or finish by a slot other than `k` leaves an Available `k`
/// Available and not current.
proof fn lemma_step_keeps_retired(s: Seq<State>, c: int, s2: Seq<State>, c2: int, k: int)
    requires
        0 <= c < s.len(),
        0 <= k < s.len(),
        k != c,
        s[k] == State::Available,
        scheduler_step(s, c, s2, c2),
    ensures
        k < s2.len(),
        s2[k] == State::Available,
        c2 != k,
{
    lemma_next_ready_first(s, c);
    lemma_next_ready_first(s.update(c, State::Available), c);
}

/// Every slot is alive: `c` is Running and every other slot is Ready.
pub open spec fn all_live(s: Seq<State>, c: int) -> bool {
    &&& 0 <= c < s.len()
    &&& s[c] == State::Running
    &&& forall|i: int| 0 <= i < s.len() && i != c ==> s[i] == State::Ready
}

/// Round robin: while every slot stays alive and each turn ends in a yield,
/// turns go to the slots in circular order. After `m` yields from slot `c`
/// the current slot is `(c + m) % n`, so in any `n` consecutive turns every
/// slot runs exactly once.
pub proof fn lemma_round_robin_rotation(trace: Seq<(Seq<State>, int)>, n: int)
    requires
        n >= 2,
        trace.len() >= 1,
        trace[0].0.len() == n,
        all_live(trace[0].0, trace[0].1),
        forall|m: int|
            0 <= m < trace.len() - 1 ==> yield_step(
                #[trigger] trace[m].0,
                trace[m].1,
                trace[m + 1].0,
                trace[m + 1].1,
            ),
    ensures
        forall|m: int|
            0 <= m < trace.len() ==> {
                &&& (#[trigger] trace[m]).0.len() == n
                &&& trace[m].1 == (trace[0].1 + m) % n
                &&& all_live(trace[m].0, trace[m].1)
            },
{
    assert forall|m: int| 0 <= m < trace.len() implies {
        &&& (#[trigger] trace[m]).0.len() == n
        &&& trace[m].1 == (trace[0].1 + m) % n
        &&& all_live(trace[m].0, trace[m].1)
    } by {
        lemma_rotation_at(trace, n, m);
    }
}

proof fn lemma_rotation_at(trace: Seq<(Seq<State>, int)>, n: int, m: int)
    requires
        n >= 2,
        0 <= m < trace.len(),
        trace[0].0.len() == n,
        all_live(trace[0].0, trace[0].1),
        forall|k: int|
            0 <= k < trace.len() - 1 ==> yield_step(
                #[trigger] trace[k].0,
                trace[k].1,
                trace[k + 1].0,
                trace[k + 1].1,
            ),
    ensures
        trace[m].0.len() == n,
        trace[m].1 == (trace[0].1 + m) % n,
        all_live(trace[m].0, trace[m].1),
    decreases m,
{
    let c0 = trace[0].1;
    if m == 0 {
        lemma_small_mod(c0 as nat, n as nat);
    } else {
        lemma_rotation_at(trace, n, m - 1);
        let p = trace[m - 1];
        let q = trace[m];
        assert(yield_step(trace[m - 1].0, p.1, q.0, q.1));
        lemma_all_live_yield(p.0, p.1, q.0, q.1);
        lemma_mod_successor(c0 + m - 1, n);
    }
}

/// The slot after `x % n` is `(x + 1) % n`.
proof fn lemma_mod_successor(x: int, n: int)
    requires
        x >= 0,
        n >= 2,
    ensures
        slot_after(n, x % n, 1) == (x + 1) % n,
{
    lemma_mod_pos_bound(x, n);
    lemma_add_mod_noop(x, 1, n);
    lemma_small_mod(1, n as nat);
    if x % n + 1 < n {
        lemma_small_mod((x % n + 1) as nat, n as nat);
    } else {
        lemma_mod_self_0(n);
    }
}

/// From a state where every slot is alive, a yield goes to the very next
/// slot, and every slot is alive again.
proof fn lemma_all_live_yield(s: Seq<State>, c: int, s2: Seq<State>, c2: int)
    requires
        s.len() >= 2,
        all_live(s, c),
        yield_step(s, c, s2, c2),
    ensures
        c2 == slot_after(s.len() as int, c, 1),
        s2.len() == s.len(),
        all_live(s2, c2),
{
    let j = slot_after(s.len() as int, c, 1);
    assert(s[j] == State::Ready);
    assert(next_ready(s, c) == Some(j));
}

} // verus!

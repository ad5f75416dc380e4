use fibers::{
    prime_stack, Runtime, SpawnError, State, Switch, Thread, ThreadContext, DEFAULT_CAPACITY,
    DEFAULT_STACK_SIZE, MIN_STACK_SIZE,
};

fn states(rt: &Runtime) -> Vec<State> {
    (0..rt.slot_count()).map(|i| rt.state_of(i)).collect()
}

fn small(capacity: usize) -> Runtime {
    Runtime::with_config(capacity, MIN_STACK_SIZE)
}

#[test]
fn new_runtime_has_running_base_and_available_slots() {
    let rt = Runtime::new();
    assert_eq!(rt.slot_count(), DEFAULT_CAPACITY);
    assert_eq!(rt.current_slot(), 0);
    assert_eq!(
        states(&rt),
        vec![State::Running, State::Available, State::Available, State::Available]
    );
    for i in 0..DEFAULT_CAPACITY {
        assert_eq!(rt.context(i).regs, [0u64; 7]);
    }
}

#[test]
fn fresh_thread_is_available_with_zeroed_state() {
    let t = Thread::new();
    assert_eq!(t.stack.len(), 2 * 1024 * 1024);
    assert!(t.stack.iter().all(|b| *b == 0));
    assert_eq!(t.state, State::Available);
    assert_eq!(ThreadContext::default().regs, [0u64; 7]);
}

#[test]
fn idle_runtime_yield_finds_nothing() {
    let mut rt = Runtime::new();
    assert_eq!(rt.t_yield(), None);
    assert_eq!(rt.current_slot(), 0);
    assert_eq!(
        states(&rt),
        vec![State::Running, State::Available, State::Available, State::Available]
    );
}

#[test]
fn yield_wraps_to_least_index_ready_slot() {
    let mut rt = small(3);
    assert_eq!(rt.spawn(11, 12, 13), Ok(1));
    assert_eq!(rt.spawn(21, 22, 23), Ok(2));
    assert_eq!(rt.t_yield(), Some(Switch { from: 0, to: 1 }));
    assert_eq!(rt.t_yield(), Some(Switch { from: 1, to: 2 }));
    assert_eq!(states(&rt), vec![State::Ready, State::Ready, State::Running]);
    assert_eq!(rt.t_yield(), Some(Switch { from: 2, to: 0 }));
    assert_eq!(states(&rt), vec![State::Running, State::Ready, State::Ready]);
    assert_eq!(rt.current_slot(), 0);
}

#[test]
fn yield_skips_to_next_ready_after_current() {
    let mut rt = small(4);
    assert_eq!(rt.spawn(1, 2, 3), Ok(1));
    assert_eq!(rt.spawn(1, 2, 3), Ok(2));
    assert_eq!(rt.spawn(1, 2, 3), Ok(3));
    assert_eq!(rt.t_yield(), Some(Switch { from: 0, to: 1 }));
    assert_eq!(rt.t_return(), Some(Switch { from: 1, to: 2 }));
    assert_eq!(rt.t_return(), Some(Switch { from: 2, to: 3 }));
    assert_eq!(rt.t_yield(), Some(Switch { from: 3, to: 0 }));
    assert_eq!(rt.t_yield(), Some(Switch { from: 0, to: 3 }));
}

#[test]
fn finished_slot_is_skipped_until_reassigned() {
    let mut rt = small(4);
    assert_eq!(rt.spawn(1, 2, 3), Ok(1));
    assert_eq!(rt.spawn(4, 5, 6), Ok(2));
    assert_eq!(rt.t_yield(), Some(Switch { from: 0, to: 1 }));
    assert_eq!(rt.t_return(), Some(Switch { from: 1, to: 2 }));
    assert_eq!(rt.state_of(1), State::Available);
    assert_eq!(rt.t_yield(), Some(Switch { from: 2, to: 0 }));
    assert_eq!(rt.t_yield(), Some(Switch { from: 0, to: 2 }));
    assert_eq!(rt.state_of(1), State::Available);
    assert_eq!(rt.spawn(7, 8, 9), Ok(1));
    assert_eq!(rt.state_of(1), State::Ready);
    assert_eq!(rt.t_yield(), Some(Switch { from: 2, to: 0 }));
    assert_eq!(rt.t_yield(), Some(Switch { from: 0, to: 1 }));
}

#[test]
fn finish_on_base_slot_changes_nothing() {
    let mut rt = small(4);
    assert_eq!(rt.spawn(1, 2, 3), Ok(1));
    let before = states(&rt);
    assert_eq!(rt.t_return(), None);
    assert_eq!(states(&rt), before);
    assert_eq!(rt.current_slot(), 0);
}

#[test]
fn spawn_reports_exhausted_capacity() {
    let mut rt = Runtime::new();
    assert_eq!(rt.spawn(1, 2, 3), Ok(1));
    assert_eq!(rt.spawn(1, 2, 3), Ok(2));
    assert_eq!(rt.spawn(1, 2, 3), Ok(3));
    let before = states(&rt);
    assert_eq!(rt.spawn(1, 2, 3), Err(SpawnError::NoSlotAvailable));
    assert_eq!(states(&rt), before);
}

#[test]
fn spawn_points_context_at_an_aligned_frame() {
    let mut rt = Runtime::new();
    assert_eq!(rt.spawn(0x1111, 0x2222, 0x3333), Ok(1));
    let ctx = rt.context(1);
    assert_ne!(ctx.stack_pointer(), 0);
    assert_eq!((ctx.stack_pointer() + 32) % 16, 0);
    assert_eq!(ctx.regs[1..], [0u64; 6]);
    assert_eq!(rt.context(2).regs, [0u64; 7]);
}

#[test]
fn prime_stack_lays_out_frame_at_aligned_top() {
    let mut stack = vec![0xAAu8; 64];
    let rsp = prime_stack(&mut stack, 0x1000, 0x0102030405060708, 0x11, 0x22);
    assert_eq!(rsp, 0x1020);
    assert_eq!(&stack[32..40], &[8, 7, 6, 5, 4, 3, 2, 1]);
    assert_eq!(&stack[40..48], &[0x11, 0, 0, 0, 0, 0, 0, 0]);
    assert_eq!(&stack[48..56], &[0x22, 0, 0, 0, 0, 0, 0, 0]);
    assert!(stack[..32].iter().all(|b| *b == 0xAA));
    assert!(stack[56..].iter().all(|b| *b == 0xAA));
}

#[test]
fn prime_stack_aligns_down_from_unaligned_end() {
    let mut stack = vec![0u8; 64];
    let rsp = prime_stack(&mut stack, 0x1003, 0xFF, 0xEE, 0xDD);
    assert_eq!(rsp, 0x1020);
    assert_eq!(stack[29], 0xFF);
    assert_eq!(stack[37], 0xEE);
    assert_eq!(stack[45], 0xDD);
    assert!(stack[46..].iter().all(|b| *b == 0));
}

/// Drives the scheduler as the host would: `step(slot, runtime)` stands for
/// the code of the fiber in `slot` running until it yields or finishes, and
/// returns whether it finished.
fn drive(rt: &mut Runtime, mut step: impl FnMut(usize) -> bool) -> usize {
    let mut yields_from_base = 0;
    loop {
        let cur = rt.current_slot();
        if cur == 0 {
            yields_from_base += 1;
            if rt.t_yield().is_none() {
                return yields_from_base;
            }
        } else if step(cur) {
            assert!(rt.t_return().is_some());
        } else {
            assert!(rt.t_yield().is_some());
        }
    }
}

#[test]
fn idle_run_ends_on_first_yield() {
    let mut rt = Runtime::new();
    assert_eq!(drive(&mut rt, |_| true), 1);
}

#[test]
fn counters_of_two_fibers_stay_separate() {
    let mut rt = small(3);
    assert_eq!(rt.spawn(1, 0, 0), Ok(1));
    assert_eq!(rt.spawn(2, 0, 0), Ok(2));
    let mut counters = [0u32; 3];
    drive(&mut rt, |slot| {
        counters[slot] += 1;
        counters[slot] == 5
    });
    assert_eq!(counters[1], 5);
    assert_eq!(counters[2], 5);
}

#[test]
fn three_fibers_interleave_round_robin_and_drain() {
    let mut rt = Runtime::new();
    for id in 1..4usize {
        assert_eq!(rt.spawn(id as u64, 0, 0), Ok(id));
    }
    let mut steps = [0usize; 4];
    let mut log: Vec<(usize, usize)> = Vec::new();
    let yields_from_base = drive(&mut rt, |slot| {
        log.push((slot, steps[slot]));
        steps[slot] += 1;
        steps[slot] == 3
    });
    assert_eq!(
        log,
        vec![(1, 0), (2, 0), (3, 0), (1, 1), (2, 1), (3, 1), (1, 2), (2, 2), (3, 2)]
    );
    assert_eq!(yields_from_base, 4);
    assert_eq!(
        states(&rt),
        vec![State::Running, State::Available, State::Available, State::Available]
    );
}

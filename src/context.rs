use vstd::prelude::*;

verus! {

/// Bytes of stack given to every slot unless configured otherwise (2 MiB).
pub const DEFAULT_STACK_SIZE: usize = 2097152;

/// The smallest stack a slot may have: room for the initial resume frame
/// plus the worst-case alignment slack.
pub const MIN_STACK_SIZE: usize = 64;

/// Number of machine words in a saved execution context.
pub const CONTEXT_WORDS: usize = 7;

/// Index of the stack pointer in a saved context.
pub const RSP: usize = 0;
pub const R15: usize = 1;
pub const R14: usize = 2;
pub const R13: usize = 3;
pub const R12: usize = 4;
pub const RBX: usize = 5;
pub const RBP: usize = 6;

/// Lifecycle state of one slot.
#[derive(PartialEq, Eq, Structural, Clone, Copy, Debug)]
pub enum State {
    /// Holds no work; may be assigned new work.
    Available,
    /// The slot whose code is executing right now.
    Running,
    /// Holds suspended or fresh work, waiting to be scheduled.
    Ready,
}

/// The stack pointer and the callee-saved registers of a suspended slot,
/// as one contiguous array of words in the order `RSP, R15, R14, R13, R12,
/// RBX, RBP`.
pub struct ThreadContext {
    pub regs: [u64; 7],
}

impl ThreadContext {
    /// The saved stack pointer.
    pub open spec fn rsp(&self) -> u64 {
        self.regs@[RSP as int]
    }

    /// Whether every saved word is zero.
    pub open spec fn is_zeroed(&self) -> bool {
        forall|i: int| 0 <= i < CONTEXT_WORDS ==> #[trigger] self.regs@[i] == 0
    }

    /// The stack pointer that a switch into this context will load.
    pub fn stack_pointer(&self) -> (r: u64)
        ensures
            r == self.rsp(),
    {
        self.regs[RSP]
    }
}

impl Default for ThreadContext {
    fn default() -> (r: Self)
        ensures
            r.is_zeroed(),
    {
        ThreadContext { regs: [0u64; 7] }
    }
}

/// One slot of the pool: its own stack, its saved context, and its state.
pub struct Thread {
    pub stack: Vec<u8>,
    pub ctx: ThreadContext,
    pub state: State,
}

impl Thread {
    /// A fresh, unassigned slot with a zeroed stack of `DEFAULT_STACK_SIZE`
    /// bytes and a zeroed context.
    pub fn new() -> (t: Self)
        ensures
            t.stack@.len() == DEFAULT_STACK_SIZE,
            forall|i: int| 0 <= i < t.stack@.len() ==> #[trigger] t.stack@[i] == 0,
            t.ctx.is_zeroed(),
            t.state == State::Available,
    {
        Thread::with_stack_size(DEFAULT_STACK_SIZE)
    }

    /// A fresh, unassigned slot with a zeroed stack of `stack_size` bytes
    /// and a zeroed context.
    pub fn with_stack_size(stack_size: usize) -> (t: Self)
        ensures
            t.stack@.len() == stack_size,
            forall|i: int| 0 <= i < t.stack@.len() ==> #[trigger] t.stack@[i] == 0,
            t.ctx.is_zeroed(),
            t.state == State::Available,
    {
        Thread { stack: vec![0u8; stack_size], ctx: ThreadContext::default(), state: State::Available }
    }
}

/// Byte `k` (counting from the least significant) of the word `w`.
pub open spec fn byte_of(w: u64, k: int) -> u8 {
    (w >> ((8 * k) as u64)) as u8
}

/// `s` holds the word `w` in little-endian order at byte offset `at`.
pub open spec fn holds_word(s: Seq<u8>, at: int, w: u64) -> bool {
    forall|j: int| 0 <= j < 8 ==> #[trigger] s[at + j] == byte_of(w, j)
}

/// The 16-byte aligned address at or just below the end of a buffer that
/// starts at `base` and is `len` bytes long.
pub open spec fn aligned_top(base: int, len: int) -> int {
    (base + len) - (base + len) % 16
}

/// Offset, from the start of the stack buffer, of the initial resume frame
/// of a fresh fiber: three words that end 16 bytes below the aligned top.
pub open spec fn frame_offset(base: int, len: int) -> int {
    aligned_top(base, len) - 32 - base
}

/// `stack` is `old_stack` with the initial resume frame of `work`, `skip`
/// and `guard` laid out for a buffer at address `base`, and `rsp` points at
/// that frame, which lies inside the buffer; every other byte is unchanged.
pub open spec fn primed_frame(
    old_stack: Seq<u8>,
    stack: Seq<u8>,
    base: int,
    rsp: u64,
    work: u64,
    skip: u64,
    guard: u64,
) -> bool {
    let len = old_stack.len() as int;
    let o = frame_offset(base, len);
    &&& stack.len() == len
    &&& rsp as int == base + o
    &&& (rsp as int + 32) % 16 == 0
    &&& 0 <= o
    &&& o + 24 <= len < o + 48
    &&& holds_word(stack, o, work)
    &&& holds_word(stack, o + 8, skip)
    &&& holds_word(stack, o + 16, guard)
    &&& forall|i: int| 0 <= i < len && !(o <= i < o + 24) ==> #[trigger] stack[i] == old_stack[i]
}

/// Writes `w` in little-endian order into `buf[at..at + 8]`.
fn write_word(buf: &mut Vec<u8>, at: usize, w: u64)
    requires
        at + 8 <= old(buf)@.len(),
    ensures
        final(buf)@.len() == old(buf)@.len(),
        holds_word(final(buf)@, at as int, w),
        forall|i: int|
            0 <= i < old(buf)@.len() && !(at <= i < at + 8) ==> #[trigger] final(buf)@[i]
                == old(buf)@[i],
{
    let mut k: usize = 0;
    while k < 8
        invariant
            k <= 8,
            at + 8 <= buf.len(),
            buf@.len() == old(buf)@.len(),
            forall|j: int| 0 <= j < k ==> #[trigger] buf@[at + j] == byte_of(w, j),
            forall|i: int|
                0 <= i < old(buf)@.len() && !(at <= i < at + k) ==> #[trigger] buf@[i]
                    == old(buf)@[i],
        decreases 8 - k,
    {
        let b = #[verifier::truncate] ((w >> ((8 * k) as u64)) as u8);
        let i: usize = at + k;
        buf[i] = b;
        k = k + 1;
    }
}

/// Relies on `Vec::as_ptr`: the address of the first byte of the buffer.
/// No allocation wraps around the address space, so its end fits a `usize`.
#[verifier::external_body]
pub(crate) fn buffer_address(buf: &Vec<u8>) -> (r: usize)
    ensures
        r as int + buf@.len() <= usize::MAX,
{
    buf.as_ptr() as usize
}

/// Lays out the initial resume frame of a fresh fiber in `stack`, a buffer
/// that starts at address `base`, and returns the stack pointer that a first
/// switch into it must load.
///
/// Counting up from the returned stack pointer, the frame holds `work` (the
/// first resume address: the fiber's entry point), `skip` (a bare return,
/// which keeps the frame aligned) and `guard` (where the fiber returns when
/// its work is done, to retire the slot). The frame ends 16 bytes below the
/// highest 16-byte aligned address of the buffer, so the entry point starts
/// with the stack aligned as the calling convention requires. Nothing else
/// in the buffer changes.
pub fn prime_stack(stack: &mut Vec<u8>, base: usize, work: u64, skip: u64, guard: u64) -> (rsp:
    u64)
    requires
        old(stack)@.len() >= MIN_STACK_SIZE,
        base as int + old(stack)@.len() <= usize::MAX,
    ensures
        primed_frame(old(stack)@, final(stack)@, base as int, rsp, work, skip, guard),
{
    let len = stack.len();
    let top = base + len;
    let aligned = top - top % 16;
    let offset = aligned - 32 - base;
    write_word(stack, offset, work);
    write_word(stack, offset + 8, skip);
    write_word(stack, offset + 16, guard);
    (aligned - 32) as u64
}

} // verus!

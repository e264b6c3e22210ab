//! Switching interrupts off, with nesting.
use vstd::prelude::*;

verus! {

/// What a CPU knows of nested requests to switch interrupts off.
#[derive(Clone, Copy, Debug, PartialEq, Eq, Structural)]
pub struct InterruptState {
    /// Depth of nesting.
    pub depth_of_disable: usize,
    /// Were interrupts enabled before the outermost request?
    pub is_enabled_before: bool,
}

impl InterruptState {
    pub fn new() -> (this: Self)
        ensures
            this == (InterruptState { depth_of_disable: 0, is_enabled_before: false }),
    {
        InterruptState { depth_of_disable: 0, is_enabled_before: false }
    }
}

/// Whether interrupts are enabled, given the supervisor status register.
pub fn is_enabled(sstatus: u64) -> (r: bool)
    ensures
        r == (sstatus & 2 != 0),
{
    sstatus & crate::riscv::SSTATUS_SIE != 0
}

pub fn get_depth(state: &InterruptState) -> (r: usize)
    ensures
        r == state.depth_of_disable,
{
    state.depth_of_disable
}

pub fn is_enabled_before(state: &InterruptState) -> (r: bool)
    ensures
        r == state.is_enabled_before,
{
    state.is_enabled_before
}

pub fn set_enabled_before(state: &mut InterruptState, value: bool)
    ensures
        *final(state) == (InterruptState { is_enabled_before: value, ..*old(state) }),
{
    state.is_enabled_before = value;
}

/// Switches interrupts off. `enabled` is whether the CPU has them on.
pub fn push_off(state: &mut InterruptState, enabled: &mut bool)
    requires
        old(state).depth_of_disable < usize::MAX,
    ensures
        !*final(enabled),
        *final(state) == pushed(*old(state), *old(enabled)),
{
    let was_enabled = *enabled;
    *enabled = false;
    if state.depth_of_disable == 0 {
        state.is_enabled_before = was_enabled;
    }
    state.depth_of_disable = state.depth_of_disable + 1;
}

/// Undoes one `push_off`. Interrupts go on again with the outermost one, if they were on before
/// it.
pub fn pop_off(state: &mut InterruptState, enabled: &mut bool)
    requires
        old(state).depth_of_disable > 0,
        !*old(enabled),
    ensures
        *final(state) == popped(*old(state)),
        *final(enabled) == on_after_pop(*old(state)),
{
    state.depth_of_disable = state.depth_of_disable - 1;
    if state.depth_of_disable == 0 && state.is_enabled_before {
        *enabled = true;
    }
}

/// The state of a CPU after one more request to switch interrupts off.
pub open spec fn pushed(state: InterruptState, enabled: bool) -> InterruptState {
    InterruptState {
        depth_of_disable: (state.depth_of_disable + 1) as usize,
        is_enabled_before: if state.depth_of_disable == 0 { enabled } else { state.is_enabled_before },
    }
}

/// The state of a CPU after one request to switch interrupts off was undone.
pub open spec fn popped(state: InterruptState) -> InterruptState {
    InterruptState { depth_of_disable: (state.depth_of_disable - 1) as usize, ..state }
}

/// Whether interrupts are on after a request to switch them off was undone.
pub open spec fn on_after_pop(state: InterruptState) -> bool {
    state.depth_of_disable == 1 && state.is_enabled_before
}

/// The state after `n` more requests to switch interrupts off, of which only the first can find them on.
pub open spec fn pushed_times(state: InterruptState, enabled: bool, n: nat) -> InterruptState
    decreases n,
{
    if n == 0 {
        state
    } else {
        pushed(pushed_times(state, enabled, (n - 1) as nat), n == 1 && enabled)
    }
}

/// The state after `n` requests were undone.
pub open spec fn popped_times(state: InterruptState, n: nat) -> InterruptState
    decreases n,
{
    if n == 0 {
        state
    } else {
        popped(popped_times(state, (n - 1) as nat))
    }
}

/// However deep requests to switch interrupts off are nested, interrupts are as they were once all of
/// them are undone, and off as long as one is not.
pub proof fn lemma_nested(state: InterruptState, enabled: bool, n: nat, k: nat)
    requires
        state.depth_of_disable == 0,
        0 < k <= n <= usize::MAX,
    ensures
        ({
            let last = popped_times(pushed_times(state, enabled, n), (k - 1) as nat);
            &&& k < n ==> !on_after_pop(last)
            &&& k == n ==> on_after_pop(last) == enabled && popped(last).depth_of_disable == 0
        }),
{
    lemma_pushed(state, enabled, n);
    lemma_popped(pushed_times(state, enabled, n), (k - 1) as nat);
}

proof fn lemma_pushed(state: InterruptState, enabled: bool, n: nat)
    requires
        state.depth_of_disable == 0,
        0 < n <= usize::MAX,
    ensures
        pushed_times(state, enabled, n) == (InterruptState { depth_of_disable: n as usize, is_enabled_before: enabled }),
    decreases n,
{
    if n > 1 {
        lemma_pushed(state, enabled, (n - 1) as nat);
    } else {
        assert(pushed_times(state, enabled, 0) == state);
    }
}

proof fn lemma_popped(state: InterruptState, n: nat)
    requires
        n <= state.depth_of_disable,
    ensures
        popped_times(state, n) == (InterruptState { depth_of_disable: (state.depth_of_disable - n) as usize, ..state }),
    decreases n,
{
    if n > 0 {
        lemma_popped(state, (n - 1) as nat);
    }
}

/// Calls `f` with interrupts switched off. It is given the state that it runs in and whether
/// interrupts are enabled there.
pub fn off<R, F: FnOnce(InterruptState, bool) -> R>(state: &mut InterruptState, enabled: &mut bool, f: F) -> (r: R)
    requires
        f.requires((pushed(*old(state), *old(enabled)), false)),
        old(state).depth_of_disable < usize::MAX,
        old(state).depth_of_disable > 0 ==> !*old(enabled),
    ensures
        f.ensures((pushed(*old(state), *old(enabled)), false), r),
        *final(enabled) == *old(enabled),
        *final(state) == (InterruptState {
            is_enabled_before: if old(state).depth_of_disable == 0 { *old(enabled) } else { old(state).is_enabled_before },
            ..*old(state)
        }),
{
    push_off(state, enabled);
    let ret = f(*state, *enabled);
    pop_off(state, enabled);
    ret
}

} // verus!

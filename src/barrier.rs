use vstd::prelude::*;

verus! {

/// Identifier of the hart that runs the boot sequence.
pub const BOOT_HART: usize = 1;

/// The shared gate between the boot hart and the others. The image size is
/// part of the released state, so no hart can see the release without it.
#[derive(Debug, Clone, Copy, PartialEq, Eq, Structural)]
pub enum BarrierState {
    Waiting,
    Released { image_size: usize },
}

/// What a hart does next.
#[derive(Debug, Clone, Copy, PartialEq, Eq, Structural)]
pub enum HartAction {
    /// Load the boot image, then release the barrier.
    RunBoot,
    /// Wait and read the barrier again.
    Spin,
    /// Jump to the loaded image, which is `image_size` bytes long.
    Handoff { image_size: usize },
}

/// What hart `hart_id` does after reading `state`: every hart hands off once
/// the barrier is released; before that the boot hart loads the image and
/// the others wait.
pub open spec fn action_of(hart_id: usize, state: BarrierState) -> HartAction {
    match state {
        BarrierState::Released { image_size } => HartAction::Handoff { image_size },
        BarrierState::Waiting => if hart_id == BOOT_HART {
            HartAction::RunBoot
        } else {
            HartAction::Spin
        },
    }
}

/// Whether `hart_id` is the hart that runs the boot sequence.
pub fn is_boot_hart(hart_id: usize) -> (r: bool)
    ensures
        r == (hart_id == BOOT_HART),
{
    hart_id == BOOT_HART
}

impl BarrierState {
    /// A closed barrier.
    pub fn new() -> (r: BarrierState)
        ensures
            r == BarrierState::Waiting,
    {
        BarrierState::Waiting
    }

    /// The state that two shared cells hold: the release flag and the image
    /// size, the size written before the flag is set.
    pub fn from_shared(released: bool, image_size: usize) -> (r: BarrierState)
        ensures
            released ==> r == (BarrierState::Released { image_size }),
            !released ==> r == BarrierState::Waiting,
    {
        if released {
            BarrierState::Released { image_size }
        } else {
            BarrierState::Waiting
        }
    }

    /// Opens the barrier with the size of the loaded image.
    pub fn release(&mut self, image_size: usize)
        requires
            *old(self) == BarrierState::Waiting,
        ensures
            *final(self) == (BarrierState::Released { image_size }),
    {
        *self = BarrierState::Released { image_size };
    }

    /// The image size, once the barrier is open.
    pub fn image_size(&self) -> (r: Option<usize>)
        ensures
            match *self {
                BarrierState::Waiting => r is None,
                BarrierState::Released { image_size } => r == Some(image_size),
            },
    {
        match *self {
            BarrierState::Waiting => None,
            BarrierState::Released { image_size } => Some(image_size),
        }
    }
}

/// What hart `hart_id` does after reading `state`.
pub fn next_action(hart_id: usize, state: BarrierState) -> (r: HartAction)
    ensures
        r == action_of(hart_id, state),
{
    match state {
        BarrierState::Released { image_size } => HartAction::Handoff { image_size },
        BarrierState::Waiting => if is_boot_hart(hart_id) {
            HartAction::RunBoot
        } else {
            HartAction::Spin
        },
    }
}

/// Harts other than the boot hart wait while the barrier is closed; once
/// the boot hart has released it with the image size, each of them hands
/// off with exactly that size. No hart hands off from a closed barrier, and
/// any hand-off carries the size recorded at release.
pub proof fn lemma_barrier_release(waiters: Seq<usize>, image_size: usize)
    requires
        forall|i: int| 0 <= i < waiters.len() ==> waiters[i] != BOOT_HART,
    ensures
        forall|i: int| 0 <= i < waiters.len() ==> action_of(#[trigger] waiters[i], BarrierState::Waiting)
            == HartAction::Spin,
        forall|i: int| 0 <= i < waiters.len() ==> action_of(#[trigger] waiters[i], BarrierState::Released { image_size })
            == (HartAction::Handoff { image_size }),
        forall|h: usize, s: BarrierState| #[trigger] action_of(h, s) is Handoff ==> s == (BarrierState::Released {
            image_size: action_of(h, s)->Handoff_image_size,
        }),
{
}

} // verus!

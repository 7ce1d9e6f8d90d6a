use vf2_boot::barrier::{is_boot_hart, next_action, BarrierState, HartAction, BOOT_HART};
use vf2_boot::init;
use vf2_boot::mem::{next_power_of_two, GlobalAllocator};

#[test]
fn next_power_of_two_rounds_up() {
    assert_eq!(next_power_of_two(1), 1);
    assert_eq!(next_power_of_two(3), 4);
    assert_eq!(next_power_of_two(5), 8);
    assert_eq!(next_power_of_two(16), 16);
    assert_eq!(next_power_of_two(17), 32);
    assert_eq!(next_power_of_two(usize::MAX / 2 + 1), usize::MAX / 2 + 1);
}

#[test]
fn bump_allocations_round_and_advance() {
    let mut a = init(0x1000, 0x2000);
    let mut last_end = 0x1000;
    for (size, rounded) in [(1usize, 1usize), (3, 4), (5, 8), (16, 16), (17, 32)] {
        let base = a.allocate(size).unwrap();
        assert!(base >= last_end);
        assert_eq!(a.pos, base + rounded);
        last_end = base + rounded;
    }
    assert_eq!(a.pos, 0x1000 + 1 + 4 + 8 + 16 + 32);
}

#[test]
fn bump_allocator_refuses_when_full() {
    let mut a = GlobalAllocator::new();
    assert_eq!(a.allocate(1), None);
    a.init(100, 116);
    assert_eq!(a.allocate(9), Some(100));
    assert_eq!(a.allocate(9), None);
    assert_eq!(a.pos, 116);
    assert_eq!(a.allocate(usize::MAX), None);
}

#[test]
fn dealloc_zeroes_rounded_span() {
    let a = init(0, 64);
    let mut block = vec![0xFFu8; 8];
    a.dealloc(&mut block, 5);
    assert!(block.iter().all(|&b| b == 0));
    let mut block = vec![0xFFu8; 8];
    a.dealloc(&mut block, 3);
    assert_eq!(block, vec![0, 0, 0, 0, 0xFF, 0xFF, 0xFF, 0xFF]);
}

#[test]
fn barrier_waiters_hand_off_after_release() {
    let waiters = [0usize, 2, 3, 4];
    let mut state = BarrierState::new();
    assert!(is_boot_hart(BOOT_HART));
    assert_eq!(next_action(BOOT_HART, state), HartAction::RunBoot);
    for &h in &waiters {
        assert!(!is_boot_hart(h));
        assert_eq!(next_action(h, state), HartAction::Spin);
    }
    assert_eq!(state.image_size(), None);
    state.release(4096);
    assert_eq!(state.image_size(), Some(4096));
    for &h in waiters.iter().chain([BOOT_HART].iter()) {
        assert_eq!(next_action(h, state), HartAction::Handoff { image_size: 4096 });
    }
}

#[test]
fn barrier_from_shared_cells() {
    assert_eq!(BarrierState::from_shared(false, 77), BarrierState::Waiting);
    assert_eq!(BarrierState::from_shared(true, 77), BarrierState::Released { image_size: 77 });
}

use warden_sim::hpmcu::{HpmcuSim, MAGIC_ARMED, MB_BASE, OFF_MAGIC, OFF_STATE, STATE_ARMED, STATE_BOOT};
use warden_sim::membus::{MemBus, SimBus};

/// The two sides of the mailbox see one store: what one side writes, the
/// other reads. Here both sides are borrows of the same bus, taken in turn.
#[test]
fn unwritten_reads_zero_and_writes_alias_through_clones() {
    let mut store = SimBus::new();
    assert_eq!(store.peek32(0xff6f_ff00), 0);
    {
        let a = &mut store; // one side writes
        a.poke32(0xff6f_ff00, 0xdead_beef);
    }
    let b = &store; // the other side sees it: same store
    assert_eq!(b.peek32(0xff6f_ff00), 0xdead_beef);
    assert_eq!(store.dump(), vec![(0xff6f_ff00, 0xdead_beef)]);
}

#[test]
fn dump_is_address_sorted_and_overwrites_in_place() {
    let mut a = SimBus::default();
    a.poke32(0x30, 3);
    a.poke32(0x10, 1);
    a.poke32(0x20, 2);
    a.poke32(0x10, 11);
    assert_eq!(a.dump(), vec![(0x10, 11), (0x20, 2), (0x30, 3)]);
    assert_eq!(a.peek32(0x10), 11);
    assert_eq!(a.peek32(0x14), 0);
}

#[test]
fn mcu_and_linux_share_the_mailbox() {
    let mut bus = SimBus::new();
    let mut mcu = HpmcuSim::new(&mut bus, MB_BASE, 0);
    // Linux reads the MCU's state word from the same bus...
    assert_eq!(bus.peek32(MB_BASE + OFF_STATE) & 0xffff_0000, STATE_BOOT);
    // ...and the MCU sees Linux's arm.
    bus.poke32(MB_BASE + OFF_MAGIC, MAGIC_ARMED);
    mcu.tick(&mut bus, 1);
    assert_eq!(bus.peek32(MB_BASE + OFF_STATE) & 0xffff_0000, STATE_ARMED);
}

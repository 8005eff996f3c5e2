use warden_sim::hpmcu::{
    HpmcuSim, MAGIC_ARMED, MAGIC_DISARM, MB_BASE, OFF_COUNTER, OFF_CYC, OFF_MAGIC, OFF_SEEN,
    OFF_STATE, STATE_ARMED, STATE_BOOT, STATE_DISARMED, STATE_FIRED,
};
use warden_sim::membus::{MemBus, SimBus};

fn mcu(bus: &mut SimBus) -> HpmcuSim {
    HpmcuSim::new(bus, MB_BASE, 0)
}

fn arm_beat(bus: &mut SimBus, counter: u32) {
    bus.poke32(MB_BASE + OFF_COUNTER, counter);
    bus.poke32(MB_BASE + OFF_MAGIC, MAGIC_ARMED);
}

#[test]
fn boots_into_boot_state() {
    let bus = &mut SimBus::new();
    let m = mcu(bus);
    assert_eq!(m.state(&*bus), STATE_BOOT);
    assert!(!m.fired());
}

#[test]
fn boot_grace_fires_only_after_300s_when_never_armed() {
    let bus = &mut SimBus::new();
    let mut m = mcu(bus);
    // Poll steadily; magic stays 0 (never armed).
    for now in (0..=300).step_by(10) {
        m.tick(bus, now);
        assert!(!m.fired(), "must not fire at or before boot-grace ({now}s)");
    }
    m.tick(bus, 301);
    assert!(m.fired(), "must fire just past the 300s boot grace");
    assert_eq!(m.state(&*bus), STATE_FIRED);
}

#[test]
fn armed_and_beating_never_fires() {
    let bus = &mut SimBus::new();
    let mut m = mcu(bus);
    // flared arms + beats every 5s for a simulated hour.
    for (i, now) in (0..3600).step_by(5).enumerate() {
        arm_beat(bus, i as u32 + 1);
        m.tick(bus, now);
        assert!(!m.fired(), "a beating heartbeat must never fire (@{now}s)");
    }
    assert_eq!(m.state(&*bus), STATE_ARMED);
}

#[test]
fn stops_beating_fires_after_heartbeat_timeout() {
    let bus = &mut SimBus::new();
    let mut m = mcu(bus);
    arm_beat(bus, 1);
    m.tick(bus, 0);
    assert_eq!(m.state(&*bus), STATE_ARMED);
    // Heartbeat stops (counter frozen). Fires just past 90s.
    for now in (5..=90).step_by(5) {
        m.tick(bus, now);
        assert!(
            !m.fired(),
            "must not fire within the heartbeat window (@{now}s)"
        );
    }
    m.tick(bus, 91);
    assert!(m.fired(), "must fire just past the 90s heartbeat timeout");
}

#[test]
fn disarm_stands_down_indefinitely() {
    let bus = &mut SimBus::new();
    let mut m = mcu(bus);
    bus.poke32(MB_BASE + OFF_MAGIC, MAGIC_DISARM);
    // Silence for well past both deadlines: a disarmed MCU never fires.
    for now in (0..=1000).step_by(10) {
        m.tick(bus, now);
        assert!(!m.fired(), "a disarmed MCU must never fire (@{now}s)");
    }
    assert_eq!(m.state(&*bus), STATE_DISARMED);
}

#[test]
fn flared_arms_within_boot_grace_no_boot_loop() {
    // On a healthy boot, flared comes up well before the 300s boot grace, arms
    // the MCU, and keeps beating, so it transitions BOOT -> ARMED and never fires.
    let bus = &mut SimBus::new();
    let mut m = mcu(bus);
    // 0..40s: kernel booting, flared not up yet (magic 0). MCU polls in BOOT.
    for now in (0..40).step_by(5) {
        m.tick(bus, now);
        assert_eq!(m.state(&*bus), STATE_BOOT);
        assert!(!m.fired());
    }
    // flared starts at 40s and arms+beats every 5s thereafter.
    let mut counter = 0u32;
    for now in (40..1000).step_by(5) {
        counter += 1;
        arm_beat(bus, counter);
        m.tick(bus, now);
        assert!(
            !m.fired(),
            "flared armed before boot-grace: must never fire (@{now}s)"
        );
    }
    assert_eq!(m.state(&*bus), STATE_ARMED);
}

#[test]
fn flared_dies_after_arming_fires_and_would_roll_back() {
    // flared arms, runs a while, then crashes (stops beating). The MCU fires
    // after the heartbeat timeout.
    let bus = &mut SimBus::new();
    let mut m = mcu(bus);
    let mut counter = 0u32;
    // Beat through t=600 (inclusive): the last heartbeat lands at 600s.
    for now in (0..=600).step_by(5) {
        counter += 1;
        arm_beat(bus, counter);
        m.tick(bus, now);
    }
    assert!(!m.fired());
    // flared is gone: counter frozen, magic still ARMED. last_change=600, so
    // the 90s heartbeat window closes at 690s; it must not fire before then.
    for now in (605..=690).step_by(5) {
        m.tick(bus, now);
        assert!(!m.fired(), "within the heartbeat window (@{now}s)");
    }
    m.tick(bus, 695); // 695 - 600 = 95 > 90
    assert!(
        m.fired(),
        "flared dead > heartbeat timeout: MCU fires the reset"
    );
}

#[test]
fn mailbox_words_written_by_the_mcu() {
    let bus = &mut SimBus::new();
    let mut m = mcu(bus);
    assert_eq!(bus.peek32(MB_BASE + OFF_SEEN), 0);
    arm_beat(bus, 7);
    m.tick(bus, 0x1_0000_0005);
    // runtime word is the low 32 bits of now; seen mirrors the counter
    assert_eq!(bus.peek32(MB_BASE + OFF_CYC), 5);
    assert_eq!(bus.peek32(MB_BASE + OFF_SEEN), 7);
    // the low half of the state word counts polls
    assert_eq!(bus.peek32(MB_BASE + OFF_STATE), STATE_ARMED | 1);
    m.tick(bus, 0x1_0000_0006);
    assert_eq!(bus.peek32(MB_BASE + OFF_STATE), STATE_ARMED | 2);
}

#[test]
fn fired_is_final_and_counted_once() {
    let bus = &mut SimBus::new();
    let mut m = mcu(bus);
    m.tick(bus, 301);
    assert!(m.fired());
    assert_eq!(m.fire_count(), 1);
    arm_beat(bus, 1);
    m.tick(bus, 302);
    m.tick(bus, 10_000);
    assert_eq!(m.fire_count(), 1);
    assert_eq!(m.state(&*bus), STATE_FIRED);
}

#[test]
fn disarm_restarts_the_grace_clock() {
    let bus = &mut SimBus::new();
    let mut m = mcu(bus);
    m.tick(bus, 250);
    bus.poke32(MB_BASE + OFF_MAGIC, MAGIC_DISARM);
    m.tick(bus, 290); // grace clock restarts at 290
    bus.poke32(MB_BASE + OFF_MAGIC, 0);
    m.tick(bus, 590);
    assert!(!m.fired());
    m.tick(bus, 591);
    assert!(m.fired());
}

use warden_sim::cru::{
    BootMode, CruSim, ResetCause, BOOT_LOADER, BOOT_MASKROM, BOOT_MODE_REG, CRU_GLB_SRST_FST,
    CRU_GLB_SRST_MAGIC, CRU_WRONG_OFFSET, DW_WDT_CR, DW_WDT_CRR, DW_WDT_EN, DW_WDT_PET,
    DW_WDT_TORR,
};
use warden_sim::membus::{MemBus, SimBus};

/// Rung 1: the correct CRU global-reset register + magic fires a CRU reset.
#[test]
fn cru_global_reset_fires() {
    let bus = &mut SimBus::new();
    let mut cru = CruSim::new();
    bus.poke32(CRU_GLB_SRST_FST, CRU_GLB_SRST_MAGIC);
    assert_eq!(cru.poll(bus, 0), Some(ResetCause::Cru));
    assert_eq!(cru.reset_count(), 1);
    assert_eq!(cru.boot_mode(), BootMode::Normal);
}

/// The magic at the WRONG offset does nothing (a silent no-op), so the ladder
/// must fall through to the watchdog.
#[test]
fn wrong_offset_is_a_silent_noop() {
    let bus = &mut SimBus::new();
    let mut cru = CruSim::new();
    bus.poke32(CRU_WRONG_OFFSET, CRU_GLB_SRST_MAGIC); // the bug
    assert_eq!(cru.poll(bus, 0), None, "wrong-offset write must NOT reset");
    assert_eq!(cru.reset_count(), 0);
}

/// Rung 2: enabling the DW watchdog and not petting it past the deadline fires.
#[test]
fn watchdog_backstop_fires_on_timeout() {
    let bus = &mut SimBus::new();
    let mut cru = CruSim::new();
    bus.poke32(DW_WDT_TORR, 3); // deadline = now + 8
    bus.poke32(DW_WDT_CR, DW_WDT_EN);
    assert_eq!(cru.poll(bus, 0), None); // arms at t=0, deadline 8
    assert_eq!(cru.poll(bus, 7), None); // not yet
    assert_eq!(cru.poll(bus, 8), Some(ResetCause::Watchdog));
}

/// Petting the watchdog before the deadline prevents the reset.
#[test]
fn watchdog_pet_prevents_reset() {
    let bus = &mut SimBus::new();
    let mut cru = CruSim::new();
    bus.poke32(DW_WDT_TORR, 3); // deadline window = 8 ticks
    bus.poke32(DW_WDT_CR, DW_WDT_EN);
    cru.poll(bus, 0);
    bus.poke32(DW_WDT_CRR, DW_WDT_PET); // pet at t=5 -> new deadline 13
    assert_eq!(cru.poll(bus, 5), None);
    assert_eq!(
        cru.poll(bus, 8),
        None,
        "petted: original deadline no longer applies"
    );
    assert_eq!(cru.poll(bus, 13), Some(ResetCause::Watchdog));
}

/// The boot-mode register survives a (warm) reset: set MaskRom, reset via CRU,
/// and the model lands in MaskRom.
#[test]
fn maskrom_survives_warm_reset() {
    let bus = &mut SimBus::new();
    let mut cru = CruSim::new();
    bus.poke32(BOOT_MODE_REG, BOOT_MASKROM);
    bus.poke32(CRU_GLB_SRST_FST, CRU_GLB_SRST_MAGIC);
    assert_eq!(cru.poll(bus, 0), Some(ResetCause::Cru));
    assert_eq!(cru.boot_mode(), BootMode::Maskrom);
}

/// A power-on reset clears the boot-mode register (unlike a warm reset), so a
/// stale MaskRom request does not strand the device: it boots Normal.
#[test]
fn power_on_reset_clears_maskrom_request() {
    let bus = &mut SimBus::new();
    let mut cru = CruSim::new();
    bus.poke32(BOOT_MODE_REG, BOOT_MASKROM);
    cru.power_on_reset(bus);
    bus.poke32(CRU_GLB_SRST_FST, CRU_GLB_SRST_MAGIC);
    assert_eq!(cru.poll(bus, 0), Some(ResetCause::Cru));
    assert_eq!(cru.boot_mode(), BootMode::Normal);
}

#[test]
fn cru_request_is_consumed_and_recorded() {
    let bus = &mut SimBus::new();
    let mut cru = CruSim::new();
    bus.poke32(BOOT_MODE_REG, BOOT_LOADER);
    bus.poke32(CRU_GLB_SRST_FST, CRU_GLB_SRST_MAGIC);
    assert_eq!(cru.poll(bus, 0), Some(ResetCause::Cru));
    assert_eq!(bus.peek32(CRU_GLB_SRST_FST), 0);
    assert_eq!(cru.last_cause(), Some(ResetCause::Cru));
    assert_eq!(cru.boot_mode(), BootMode::Loader);
    // consumed: the next poll does nothing
    assert_eq!(cru.poll(bus, 1), None);
    assert_eq!(cru.reset_count(), 1);
    // the boot-mode register itself is untouched by the reset
    assert_eq!(bus.peek32(BOOT_MODE_REG), BOOT_LOADER);
}

#[test]
fn disabling_the_watchdog_drops_the_deadline() {
    let bus = &mut SimBus::new();
    let mut cru = CruSim::new();
    bus.poke32(DW_WDT_CR, DW_WDT_EN); // torr 0: one-tick period
    assert_eq!(cru.poll(bus, 10), None);
    bus.poke32(DW_WDT_CR, 0);
    assert_eq!(cru.poll(bus, 100), None);
    bus.poke32(DW_WDT_CR, DW_WDT_EN);
    assert_eq!(cru.poll(bus, 200), None); // re-armed at 200
    assert_eq!(cru.poll(bus, 201), Some(ResetCause::Watchdog));
    assert_eq!(cru.last_cause(), Some(ResetCause::Watchdog));
}

#[test]
fn torr_selects_the_period() {
    let bus = &mut SimBus::new();
    let mut cru = CruSim::new();
    bus.poke32(DW_WDT_TORR, 0x13); // only the low nibble counts: 3
    bus.poke32(DW_WDT_CR, DW_WDT_EN);
    assert_eq!(cru.poll(bus, 100), None);
    assert_eq!(cru.poll(bus, 107), None);
    assert_eq!(cru.poll(bus, 108), Some(ResetCause::Watchdog));
}

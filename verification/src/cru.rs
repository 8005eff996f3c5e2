//! CRU reset-ladder model on the [`MemBus`] seam.
//!
//! `reboot -f` does NOT reset the RV1106 (no PSCI/restart handler). The
//! canonical reset is the CRU global-first software reset (rung 1), with the
//! DesignWare watchdog as a backstop (rung 2). This model lets that ladder, and
//! the boot-mode -> MaskRom recovery maneuver, be exercised on the host: run
//! the pokes against a bus, then [`CruSim::poll`] that same bus to see which
//! rung fired and what boot mode a warm reset lands in.
//!
//! It bakes in the two hardware facts that cost real hardware time:
//!   * the CRU global-reset register is `0xff3b0c08` magic `0xfdb9`: the offset
//!     `0xff3a0614` from *other* Rockchip SoCs is a **silent no-op** here;
//!   * the boot-mode register `0xff020200` **survives a warm reset** and is
//!     cleared only by a power-on reset.

use vstd::prelude::*;
use crate::membus::{MemBus, word_at};

verus! {

/// Correct RV1106 global-first software reset.
pub const CRU_GLB_SRST_FST: u64 = 0xff3b_0c08;

pub const CRU_GLB_SRST_MAGIC: u32 = 0xfdb9;

/// Wrong offset carried over from other Rockchip SoCs: a silent no-op on RV1106.
pub const CRU_WRONG_OFFSET: u64 = 0xff3a_0614;

/// DesignWare watchdog (rung 2 backstop).
pub const DW_WDT_BASE: u64 = 0xff5a_0000;

/// Control register; bit 0 enables the watchdog.
pub const DW_WDT_CR: u64 = 0xff5a_0000;

/// Timeout range select.
pub const DW_WDT_TORR: u64 = 0xff5a_0004;

/// Counter restart register: write 0x76 to pet.
pub const DW_WDT_CRR: u64 = 0xff5a_000c;

pub const DW_WDT_PET: u32 = 0x76;

pub const DW_WDT_EN: u32 = 0x1;

/// Boot-mode register: survives warm reset, cleared by POR.
pub const BOOT_MODE_REG: u64 = 0xff02_0200;

pub const BOOT_NORMAL: u32 = 0x5242_c300;

/// U-Boot rockusb download.
pub const BOOT_LOADER: u32 = 0x5242_c301;

/// BootROM MaskRom.
pub const BOOT_MASKROM: u32 = 0xef08_a53c;

#[derive(Clone, Copy, PartialEq, Eq, Debug, Structural)]
pub enum ResetCause {
    Cru,
    Watchdog,
}

#[derive(Clone, Copy, PartialEq, Eq, Debug, Structural)]
pub enum BootMode {
    Normal,
    Loader,
    Maskrom,
}

/// The boot mode a boot-mode register value selects: unknown, empty and
/// `BOOT_NORMAL` all boot normally.
pub open spec fn boot_mode_of(v: u32) -> BootMode {
    if v == BOOT_LOADER {
        BootMode::Loader
    } else if v == BOOT_MASKROM {
        BootMode::Maskrom
    } else {
        BootMode::Normal
    }
}

impl BootMode {
    fn from_reg(v: u32) -> (m: BootMode)
        ensures
            m == boot_mode_of(v),
    {
        if v == BOOT_LOADER {
            BootMode::Loader
        } else if v == BOOT_MASKROM {
            BootMode::Maskrom
        } else {
            BootMode::Normal
        }
    }
}

/// Abstract state of the model: the bus contents and the reset bookkeeping.
pub struct CruState {
    pub mem: Map<u64, u32>,
    pub reset_count: u64,
    pub last_cause: Option<ResetCause>,
    pub boot_mode: BootMode,
    pub wdt_deadline: Option<u64>,
}

/// The watchdog period the timeout-range register selects: `1 << (TORR & 0xf)` ticks.
pub open spec fn wdt_period(torr_reg: u32) -> u64 {
    1u64 << ((torr_reg & 0xfu32) as u64)
}

/// Whether the watchdog is enabled (CR bit 0).
pub open spec fn wdt_enabled(mem: Map<u64, u32>) -> bool {
    word_at(mem, DW_WDT_CR) % 2 == 1
}

/// Whether the CRU global-reset request is pending.
pub open spec fn cru_requested(mem: Map<u64, u32>) -> bool {
    word_at(mem, CRU_GLB_SRST_FST) == CRU_GLB_SRST_MAGIC
}

/// Whether a poll at this state (re)arms the watchdog timer: enabled, no CRU
/// request, and either a pet is pending or no deadline is armed yet.
pub open spec fn wdt_arms(s: CruState) -> bool {
    &&& !cru_requested(s.mem)
    &&& wdt_enabled(s.mem)
    &&& (word_at(s.mem, DW_WDT_CRR) == DW_WDT_PET || s.wdt_deadline is None)
}

/// A reset of the given cause: counted, recorded, and landing in the boot
/// mode the (preserved) boot-mode register selects.
pub open spec fn fire_spec(s: CruState, cause: ResetCause) -> CruState {
    CruState {
        reset_count: (s.reset_count + 1) as u64,
        last_cause: Some(cause),
        boot_mode: boot_mode_of(word_at(s.mem, BOOT_MODE_REG)),
        ..s
    }
}

/// One poll at time `now`: the new state and the reset that fired, if any.
pub open spec fn poll_spec(s: CruState, now: u64) -> (CruState, Option<ResetCause>) {
    if cru_requested(s.mem) {
        // rung 1: the request is consumed and the CRU reset fires
        (fire_spec(CruState { mem: s.mem.insert(CRU_GLB_SRST_FST, 0), ..s }, ResetCause::Cru), Some(
            ResetCause::Cru,
        ))
    } else if wdt_enabled(s.mem) {
        let petted = word_at(s.mem, DW_WDT_CRR) == DW_WDT_PET;
        let mem1 = if petted {
            s.mem.insert(DW_WDT_CRR, 0)
        } else {
            s.mem
        };
        let deadline = if petted || s.wdt_deadline is None {
            Some((now + wdt_period(word_at(mem1, DW_WDT_TORR))) as u64)
        } else {
            s.wdt_deadline
        };
        match deadline {
            Some(d) => if now >= d {
                (
                    fire_spec(CruState { mem: mem1, wdt_deadline: None, ..s }, ResetCause::Watchdog),
                    Some(ResetCause::Watchdog),
                )
            } else {
                (CruState { mem: mem1, wdt_deadline: deadline, ..s }, None)
            },
            None => (CruState { mem: mem1, wdt_deadline: deadline, ..s }, None),
        }
    } else {
        (CruState { wdt_deadline: None, ..s }, None)
    }
}

/// The model's own state, without the bus it polls.
pub struct CruRegs {
    pub reset_count: u64,
    pub last_cause: Option<ResetCause>,
    pub boot_mode: BootMode,
    pub wdt_deadline: Option<u64>,
}

/// The model's state together with the contents of the bus it polls.
pub open spec fn cru_state(r: CruRegs, mem: Map<u64, u32>) -> CruState {
    CruState {
        mem,
        reset_count: r.reset_count,
        last_cause: r.last_cause,
        boot_mode: r.boot_mode,
        wdt_deadline: r.wdt_deadline,
    }
}

/// Models the reset ladder + boot-mode register over a [`MemBus`]. The bus is
/// the one the reset code runs against: each step borrows it, so the code
/// under test and the model read and write the same store in turn.
pub struct CruSim {
    reset_count: u64,
    last_cause: Option<ResetCause>,
    boot_mode: BootMode,
    /// WDT deadline in `now`-ticks (derived from TORR on enable). None = disabled.
    wdt_deadline: Option<u64>,
}

impl View for CruSim {
    type V = CruRegs;

    closed spec fn view(&self) -> CruRegs {
        CruRegs {
            reset_count: self.reset_count,
            last_cause: self.last_cause,
            boot_mode: self.boot_mode,
            wdt_deadline: self.wdt_deadline,
        }
    }
}

proof fn lemma_period_bound(torr_reg: u32)
    ensures
        1 <= wdt_period(torr_reg) <= 0x8000,
{
    let t = (torr_reg & 0xfu32) as u64;
    assert(t <= 15) by (bit_vector)
        requires
            t == (torr_reg & 0xfu32) as u64,
    ;
    assert(1 <= (1u64 << t) <= 0x8000) by (bit_vector)
        requires
            t <= 15,
    ;
}

impl CruSim {
    pub fn new() -> (c: Self)
        ensures
            c@ == (CruRegs {
                reset_count: 0,
                last_cause: None,
                boot_mode: BootMode::Normal,
                wdt_deadline: None,
            }),
    {
        CruSim { reset_count: 0, last_cause: None, boot_mode: BootMode::Normal, wdt_deadline: None }
    }

    pub fn reset_count(&self) -> (n: u64)
        ensures
            n == self@.reset_count,
    {
        self.reset_count
    }

    pub fn last_cause(&self) -> (c: Option<ResetCause>)
        ensures
            c == self@.last_cause,
    {
        self.last_cause
    }

    /// Boot mode the most recent (warm) reset landed in. MaskRom/Loader stick
    /// until a power-on reset; a plain reset with no boot-mode set lands in Normal.
    pub fn boot_mode(&self) -> (m: BootMode)
        ensures
            m == self@.boot_mode,
    {
        self.boot_mode
    }

    /// A power-on reset: clears the boot-mode register (the one thing a warm
    /// reset preserves), so the next boot is Normal regardless of a stale
    /// MaskRom request.
    pub fn power_on_reset<B: MemBus>(&mut self, bus: &mut B)
        ensures
            cru_state(final(self)@, final(bus).memory()) == power_on_reset_spec(
                cru_state(old(self)@, old(bus).memory()),
            ),
    {
        bus.poke32(BOOT_MODE_REG, BOOT_NORMAL);
        self.boot_mode = BootMode::Normal;
        self.wdt_deadline = None;
    }

    /// Advance the model to time `now` and apply any pending reset. Returns the
    /// cause if a reset fired this tick. A reset consumes its trigger (the CRU
    /// magic / the WDT deadline) and reads the *preserved* boot-mode register.
    pub fn poll<B: MemBus>(&mut self, bus: &mut B, now: u64) -> (r: Option<ResetCause>)
        requires
            poll_spec(cru_state(old(self)@, old(bus).memory()), now).1 is Some ==> old(
                self,
            )@.reset_count < u64::MAX,
            wdt_arms(cru_state(old(self)@, old(bus).memory())) ==> now + wdt_period(
                word_at(old(bus).memory(), DW_WDT_TORR),
            ) <= u64::MAX,
        ensures
            (cru_state(final(self)@, final(bus).memory()), r) == poll_spec(
                cru_state(old(self)@, old(bus).memory()),
                now,
            ),
    {
        // Rung 1: CRU global-first software reset. ONLY the correct register
        // fires; the magic at the wrong offset is a silent no-op.
        if bus.peek32(CRU_GLB_SRST_FST) == CRU_GLB_SRST_MAGIC {
            bus.poke32(CRU_GLB_SRST_FST, 0);  // reset consumes the request
            return Some(self.fire(bus, ResetCause::Cru));
        }
        // Rung 2: DesignWare watchdog. Enabled (CR bit0) + deadline passed with
        // no intervening pet => reset.

        let cr = bus.peek32(DW_WDT_CR);
        assert((cr & 1u32 != 0) == (cr % 2 == 1)) by (bit_vector);
        if cr & DW_WDT_EN != 0 {
            // A pet (CRR == 0x76) rearms the timer; consume it so we detect the next.
            if bus.peek32(DW_WDT_CRR) == DW_WDT_PET {
                bus.poke32(DW_WDT_CRR, 0);
                self.arm_wdt(bus, now);
            } else if self.wdt_deadline.is_none() {
                self.arm_wdt(bus, now);  // just enabled: start the timer
            }
            if let Some(deadline) = self.wdt_deadline {
                if now >= deadline {
                    self.wdt_deadline = None;
                    return Some(self.fire(bus, ResetCause::Watchdog));
                }
            }
        } else {
            self.wdt_deadline = None;
        }
        None
    }

    fn arm_wdt<B: MemBus>(&mut self, bus: &B, now: u64)
        requires
            now + wdt_period(word_at(bus.memory(), DW_WDT_TORR)) <= u64::MAX,
        ensures
            final(self)@ == (CruRegs {
                wdt_deadline: Some((now + wdt_period(word_at(bus.memory(), DW_WDT_TORR))) as u64),
                ..old(self)@
            }),
    {
        // TORR selects the timeout; model it as 1<<torr ticks (monotonic in
        // TORR, torr=0 => 1 tick so the reset-ladder backstop fires promptly).
        let raw = bus.peek32(DW_WDT_TORR);
        let torr = raw & 0xf;
        assert(torr <= 15) by (bit_vector)
            requires
                torr == raw & 0xfu32,
        ;
        let period: u64 = 1u64 << (torr as u64);
        self.wdt_deadline = Some(now + period);
    }

    fn fire<B: MemBus>(&mut self, bus: &B, cause: ResetCause) -> (c: ResetCause)
        requires
            old(self)@.reset_count < u64::MAX,
        ensures
            c == cause,
            cru_state(final(self)@, bus.memory()) == fire_spec(cru_state(old(self)@, bus.memory()), cause),
    {
        self.reset_count += 1;
        self.last_cause = Some(cause);
        // A warm reset preserves the boot-mode register: that is exactly how
        // "poke MaskRom then reset" reaches BootROM download.
        self.boot_mode = BootMode::from_reg(bus.peek32(BOOT_MODE_REG));
        cause
    }
}

// ---------------------------------------------------------------------------
// Laws of the reset ladder
// ---------------------------------------------------------------------------

/// The state after a power-on reset.
pub open spec fn power_on_reset_spec(s: CruState) -> CruState {
    CruState {
        mem: s.mem.insert(BOOT_MODE_REG, BOOT_NORMAL),
        boot_mode: BootMode::Normal,
        wdt_deadline: None,
        ..s
    }
}

/// The magic written at the wrong (other-SoC) offset changes nothing a poll
/// does: the reset it returns and the state it leaves are those of the same
/// poll without that write (which simply stays in memory).
pub proof fn lemma_wrong_offset_is_noop(s: CruState, now: u64, x: u32)
    ensures
        ({
            let (s1, r1) = poll_spec(s, now);
            let (s2, r2) = poll_spec(CruState { mem: s.mem.insert(CRU_WRONG_OFFSET, x), ..s }, now);
            &&& r2 == r1
            &&& s2 == CruState { mem: s1.mem.insert(CRU_WRONG_OFFSET, x), ..s1 }
        }),
{
    let m = s.mem;
    let w = m.insert(CRU_WRONG_OFFSET, x);
    assert(word_at(w, CRU_GLB_SRST_FST) == word_at(m, CRU_GLB_SRST_FST));
    assert(word_at(w, DW_WDT_CR) == word_at(m, DW_WDT_CR));
    assert(word_at(w, DW_WDT_CRR) == word_at(m, DW_WDT_CRR));
    assert(word_at(w, BOOT_MODE_REG) == word_at(m, BOOT_MODE_REG));
    assert(word_at(w.insert(DW_WDT_CRR, 0), DW_WDT_TORR) == word_at(m.insert(DW_WDT_CRR, 0), DW_WDT_TORR));
    assert(word_at(w, DW_WDT_TORR) == word_at(m, DW_WDT_TORR));
    assert(word_at(w.insert(CRU_GLB_SRST_FST, 0), BOOT_MODE_REG) == word_at(m.insert(CRU_GLB_SRST_FST, 0), BOOT_MODE_REG));
    assert(word_at(w.insert(DW_WDT_CRR, 0), BOOT_MODE_REG) == word_at(m.insert(DW_WDT_CRR, 0), BOOT_MODE_REG));
    assert(w.insert(CRU_GLB_SRST_FST, 0) =~= m.insert(CRU_GLB_SRST_FST, 0).insert(CRU_WRONG_OFFSET, x));
    assert(w.insert(DW_WDT_CRR, 0) =~= m.insert(DW_WDT_CRR, 0).insert(CRU_WRONG_OFFSET, x));
}

/// Rung 1: the magic at the CRU global-reset register fires a CRU reset,
/// counted once, consuming the request, landing in the boot mode the
/// boot-mode register holds.
pub proof fn lemma_cru_request_fires(s: CruState, now: u64)
    requires
        cru_requested(s.mem),
        s.reset_count < u64::MAX,
    ensures
        ({
            let (s1, r) = poll_spec(s, now);
            &&& r == Some(ResetCause::Cru)
            &&& s1.reset_count == s.reset_count + 1
            &&& s1.last_cause == Some(ResetCause::Cru)
            &&& word_at(s1.mem, CRU_GLB_SRST_FST) == 0
            &&& s1.boot_mode == boot_mode_of(word_at(s.mem, BOOT_MODE_REG))
        }),
{
    assert(word_at(s.mem.insert(CRU_GLB_SRST_FST, 0), BOOT_MODE_REG) == word_at(s.mem, BOOT_MODE_REG));
}

/// A poll never writes the boot-mode register, so a warm reset preserves it
/// and every reset lands in the mode it selects.
pub proof fn lemma_boot_mode_survives_warm_reset(s: CruState, now: u64)
    ensures
        ({
            let (s1, r) = poll_spec(s, now);
            &&& word_at(s1.mem, BOOT_MODE_REG) == word_at(s.mem, BOOT_MODE_REG)
            &&& r is Some ==> s1.boot_mode == boot_mode_of(word_at(s.mem, BOOT_MODE_REG))
        }),
{
    assert(word_at(s.mem.insert(CRU_GLB_SRST_FST, 0), BOOT_MODE_REG) == word_at(s.mem, BOOT_MODE_REG));
    assert(word_at(s.mem.insert(DW_WDT_CRR, 0), BOOT_MODE_REG) == word_at(s.mem, BOOT_MODE_REG));
}

/// After a power-on reset, the next reset boots Normal whatever MaskRom or
/// Loader request was stale in the boot-mode register.
pub proof fn lemma_power_on_reset_boots_normal(s: CruState, now: u64)
    ensures
        ({
            let (s1, r) = poll_spec(power_on_reset_spec(s), now);
            r is Some ==> s1.boot_mode == BootMode::Normal
        }),
{
    lemma_boot_mode_survives_warm_reset(power_on_reset_spec(s), now);
}

/// A disabled watchdog never resets the SoC and drops any armed deadline.
pub proof fn lemma_disabled_watchdog_never_fires(s: CruState, now: u64)
    requires
        !cru_requested(s.mem),
        !wdt_enabled(s.mem),
    ensures
        poll_spec(s, now) == (CruState { wdt_deadline: None, ..s }, None::<ResetCause>),
{
}

/// Rung 2: an enabled watchdog armed for deadline `d` and not petted fires
/// exactly when `now` reaches `d`.
pub proof fn lemma_watchdog_fires_at_deadline(s: CruState, now: u64, d: u64)
    requires
        !cru_requested(s.mem),
        wdt_enabled(s.mem),
        word_at(s.mem, DW_WDT_CRR) != DW_WDT_PET,
        s.wdt_deadline == Some(d),
    ensures
        poll_spec(s, now).1 == (if now >= d {
            Some(ResetCause::Watchdog)
        } else {
            None
        }),
{
}

/// A pet rearms the watchdog: the deadline moves to `now` plus the period
/// (at least one tick), so the previous deadline no longer applies.
pub proof fn lemma_pet_rearms(s: CruState, now: u64)
    requires
        !cru_requested(s.mem),
        wdt_enabled(s.mem),
        word_at(s.mem, DW_WDT_CRR) == DW_WDT_PET,
        now + wdt_period(word_at(s.mem, DW_WDT_TORR)) <= u64::MAX,
    ensures
        ({
            let (s1, r) = poll_spec(s, now);
            &&& r is None
            &&& s1.wdt_deadline == Some((now + wdt_period(word_at(s.mem, DW_WDT_TORR))) as u64)
            &&& word_at(s1.mem, DW_WDT_CRR) == 0
        }),
{
    lemma_period_bound(word_at(s.mem, DW_WDT_TORR));
    assert(word_at(s.mem.insert(DW_WDT_CRR, 0), DW_WDT_TORR) == word_at(s.mem, DW_WDT_TORR));
}

/// The watchdog period is two to the power of the low nibble of TORR, so a
/// larger timeout-range setting always waits strictly longer.
pub proof fn lemma_wdt_period_is_power_of_two(torr_reg: u32, other: u32)
    ensures
        wdt_period(torr_reg) == vstd::arithmetic::power2::pow2((torr_reg % 16) as nat),
        torr_reg % 16 < other % 16 ==> wdt_period(torr_reg) < wdt_period(other),
{
    lemma_period_is_pow2(torr_reg);
    lemma_period_is_pow2(other);
    if torr_reg % 16 < other % 16 {
        vstd::arithmetic::power2::lemma_pow2_strictly_increases((torr_reg % 16) as nat, (other % 16) as nat);
    }
}

proof fn lemma_period_is_pow2(torr_reg: u32)
    ensures
        wdt_period(torr_reg) == vstd::arithmetic::power2::pow2((torr_reg % 16) as nat),
{
    let t = (torr_reg & 0xfu32) as u64;
    assert(t == torr_reg % 16) by (bit_vector)
        requires
            t == (torr_reg & 0xfu32) as u64,
    ;
    vstd::arithmetic::power2::lemma2_to64();
    if t < 16 {
        vstd::arithmetic::power2::lemma_pow2_strictly_increases(t as nat, 16);
    }
    vstd::bits::lemma_u64_shl_is_mul(1, t);
}

} // verus!

//! Simulator of the RV1106 HPMCU (Syntacore SCR1) watchdog firmware.
//!
//! The firmware's poll loop: it reads the Linux-owned mailbox words (magic +
//! heartbeat counter), writes the MCU-owned state word, and fires (records a
//! CRU reset) on the same deadlines: boot-grace if userspace never arms it,
//! heartbeat-timeout if a live heartbeat stops. Because it runs on a
//! [`MemBus`] it shares with the Linux side, the arm/beat protocol can be
//! driven against it in a host test with a virtual clock. Deadlines are in
//! whole seconds; `tick(now_secs)` runs exactly one iteration of the
//! firmware's `for(;;)` body at that virtual time.

use vstd::prelude::*;
use crate::membus::{MemBus, word_at};

verus! {

pub const MB_BASE: u64 = 0xff6f_ff00;

/// Mailbox word offsets. Linux owns the magic and the counter; the MCU owns
/// the state, the last counter seen, and the coarse runtime.
pub const OFF_MAGIC: u64 = 0x00;

pub const OFF_COUNTER: u64 = 0x04;

pub const OFF_STATE: u64 = 0x08;

pub const OFF_SEEN: u64 = 0x0c;

pub const OFF_CYC: u64 = 0x10;

/// "WARD"
pub const MAGIC_ARMED: u32 = 0x5741_5244;

/// "DISA"
pub const MAGIC_DISARM: u32 = 0x4449_5341;

pub const STATE_BOOT: u32 = 0xB007_0000;

pub const STATE_ARMED: u32 = 0xA07D_0000;

pub const STATE_DISARMED: u32 = 0xD15A_0000;

pub const STATE_FIRED: u32 = 0xF17E_0000;

pub const HEARTBEAT_TIMEOUT_S: u64 = 90;

pub const BOOT_GRACE_S: u64 = 300;

/// Abstract state of the simulated MCU and its bus.
pub struct HpmcuState {
    pub mem: Map<u64, u32>,
    pub base: u64,
    pub t0: u64,
    pub last_change: u64,
    pub last_seen: u32,
    pub polls: u32,
    pub armed_ever: bool,
    pub fired: bool,
    pub fire_count: u64,
}

/// `a - b`, or 0 when `b > a` (`u64::saturating_sub`).
pub open spec fn since(a: u64, b: u64) -> nat {
    if a >= b {
        (a - b) as nat
    } else {
        0
    }
}

/// A firing: the state word reads FIRED and the firing is counted.
pub open spec fn fire_spec(s: HpmcuState) -> HpmcuState {
    HpmcuState {
        mem: s.mem.insert((s.base + OFF_STATE) as u64, STATE_FIRED),
        fired: true,
        fire_count: (s.fire_count + 1) as u64,
        ..s
    }
}

/// One iteration of the firmware poll loop at virtual time `now`.
pub open spec fn tick_spec(s: HpmcuState, now: u64) -> HpmcuState {
    if s.fired {
        s
    } else {
        let polls = ((s.polls + 1) % 0x1_0000_0000) as u32;
        let mem1 = s.mem.insert((s.base + OFF_CYC) as u64, (now % 0x1_0000_0000) as u32);
        let magic = word_at(mem1, (s.base + OFF_MAGIC) as u64);
        let counter = word_at(mem1, (s.base + OFF_COUNTER) as u64);
        let poll_lo = polls & 0xffffu32;
        let state_addr = (s.base + OFF_STATE) as u64;
        if magic == MAGIC_DISARM {
            // Deliberate stand-down; the grace clock restarts.
            HpmcuState {
                mem: mem1.insert(state_addr, STATE_DISARMED | poll_lo),
                polls,
                t0: now,
                last_change: now,
                ..s
            }
        } else if magic == MAGIC_ARMED {
            let changed = counter != s.last_seen;
            let mem2 = if changed {
                mem1.insert((s.base + OFF_SEEN) as u64, counter)
            } else {
                mem1
            };
            let last_change = if changed {
                now
            } else {
                s.last_change
            };
            let s2 = HpmcuState {
                mem: mem2.insert(state_addr, STATE_ARMED | poll_lo),
                polls,
                armed_ever: true,
                last_seen: counter,
                last_change,
                ..s
            };
            if since(now, last_change) > HEARTBEAT_TIMEOUT_S {
                fire_spec(s2)
            } else {
                s2
            }
        } else {
            let s2 = HpmcuState { mem: mem1.insert(state_addr, STATE_BOOT | poll_lo), polls, ..s };
            if !s.armed_ever && since(now, s.t0) > BOOT_GRACE_S {
                fire_spec(s2)
            } else if s.armed_ever && since(now, s.last_change) > HEARTBEAT_TIMEOUT_S {
                fire_spec(s2)
            } else {
                s2
            }
        }
    }
}

/// The MCU's own state, without the bus it polls.
pub struct HpmcuRegs {
    pub base: u64,
    pub t0: u64,
    pub last_change: u64,
    pub last_seen: u32,
    pub polls: u32,
    pub armed_ever: bool,
    pub fired: bool,
    pub fire_count: u64,
}

/// The MCU's state together with the contents of the bus it polls.
pub open spec fn hpmcu_state(r: HpmcuRegs, mem: Map<u64, u32>) -> HpmcuState {
    HpmcuState {
        mem,
        base: r.base,
        t0: r.t0,
        last_change: r.last_change,
        last_seen: r.last_seen,
        polls: r.polls,
        armed_ever: r.armed_ever,
        fired: r.fired,
        fire_count: r.fire_count,
    }
}

/// The simulated MCU core running the watchdog firmware. The mailbox lives
/// on the bus Linux also writes: each step borrows that bus, so both sides
/// read and write the same store in turn.
pub struct HpmcuSim {
    base: u64,
    t0: u64,
    last_change: u64,
    last_seen: u32,
    polls: u32,
    armed_ever: bool,
    fired: bool,
    fire_count: u64,
}

impl View for HpmcuSim {
    type V = HpmcuRegs;

    closed spec fn view(&self) -> HpmcuRegs {
        HpmcuRegs {
            base: self.base,
            t0: self.t0,
            last_change: self.last_change,
            last_seen: self.last_seen,
            polls: self.polls,
            armed_ever: self.armed_ever,
            fired: self.fired,
            fire_count: self.fire_count,
        }
    }
}

/// Well-formed state: an aligned mailbox that fits in the address space, and
/// a firing count that is 1 once fired and 0 before (a fired core spins).
pub open spec fn hpmcu_wf(s: HpmcuState) -> bool {
    &&& s.base % 4 == 0
    &&& s.base <= u64::MAX - OFF_CYC
    &&& s.fire_count == (if s.fired {
        1u64
    } else {
        0u64
    })
}

/// Well-formedness of the MCU's own state (it does not depend on the bus).
pub open spec fn regs_wf(r: HpmcuRegs) -> bool {
    hpmcu_wf(hpmcu_state(r, Map::empty()))
}

proof fn lemma_wf_any_bus(r: HpmcuRegs, mem: Map<u64, u32>)
    ensures
        regs_wf(r) == hpmcu_wf(hpmcu_state(r, mem)),
{
}

impl HpmcuSim {
    /// Bring the MCU up at `start_now` (the firmware's `main()` prologue:
    /// state=BOOT, seen=0, boot-grace clock starts here).
    pub fn new<B: MemBus>(bus: &mut B, base: u64, start_now: u64) -> (m: Self)
        requires
            base % 4 == 0,
            base <= u64::MAX - OFF_CYC,
        ensures
            regs_wf(m@),
            hpmcu_state(m@, final(bus).memory()) == (HpmcuState {
                mem: old(bus).memory().insert((base + OFF_STATE) as u64, STATE_BOOT).insert(
                    (base + OFF_SEEN) as u64,
                    0,
                ),
                base,
                t0: start_now,
                last_change: start_now,
                last_seen: 0,
                polls: 0,
                armed_ever: false,
                fired: false,
                fire_count: 0,
            }),
    {
        bus.poke32(base + OFF_STATE, STATE_BOOT);
        bus.poke32(base + OFF_SEEN, 0);
        HpmcuSim {
            base,
            t0: start_now,
            last_change: start_now,
            last_seen: 0,
            polls: 0,
            armed_ever: false,
            fired: false,
            fire_count: 0,
        }
    }

    pub fn fired(&self) -> (f: bool)
        ensures
            f == self@.fired,
    {
        self.fired
    }

    pub fn fire_count(&self) -> (n: u64)
        ensures
            n == self@.fire_count,
    {
        self.fire_count
    }

    /// The sentinel half (high 16 bits) of the MCU state word.
    pub fn state<B: MemBus>(&self, bus: &B) -> (w: u32)
        requires
            regs_wf(self@),
        ensures
            w == word_at(bus.memory(), (self@.base + OFF_STATE) as u64) & 0xffff_0000u32,
    {
        bus.peek32(self.base + OFF_STATE) & 0xffff_0000
    }

    fn fire<B: MemBus>(&mut self, bus: &mut B)
        requires
            regs_wf(old(self)@),
            !old(self)@.fired,
        ensures
            hpmcu_state(final(self)@, final(bus).memory()) == fire_spec(hpmcu_state(old(self)@, old(bus).memory())),
    {
        bus.poke32(self.base + OFF_STATE, STATE_FIRED);
        self.fired = true;
        self.fire_count += 1;
        // Real firmware then writes the CRU global reset and spins forever; a
        // harness modelling the resulting reboot re-creates the MCU.
    }

    /// One iteration of the firmware poll loop at virtual time `now` (seconds).
    /// Once fired, the real core spins in `fire()`, so further ticks are no-ops.
    pub fn tick<B: MemBus>(&mut self, bus: &mut B, now: u64)
        requires
            regs_wf(old(self)@),
        ensures
            regs_wf(final(self)@),
            hpmcu_state(final(self)@, final(bus).memory()) == tick_spec(hpmcu_state(old(self)@, old(bus).memory()), now),
    {
        proof {
            lemma_wf_any_bus(old(self)@, old(bus).memory());
        }
        if self.fired {
            return;
        }
        self.polls = self.polls.wrapping_add(1);
        let cyc = (now & 0xffff_ffff) as u32;
        assert(cyc == (now % 0x1_0000_0000) as u32) by (bit_vector)
            requires
                cyc == (now & 0xffff_ffff) as u32,
        ;
        bus.poke32(self.base + OFF_CYC, cyc);
        let magic = bus.peek32(self.base + OFF_MAGIC);
        let counter = bus.peek32(self.base + OFF_COUNTER);
        let poll_lo = self.polls & 0xffff;

        if magic == MAGIC_DISARM {
            // Deliberate stand-down: resume the moment Linux re-arms; the grace
            // clock restarts so a disarm-then-silence never fires.
            bus.poke32(self.base + OFF_STATE, STATE_DISARMED | poll_lo);
            self.t0 = now;
            self.last_change = now;
        } else if magic == MAGIC_ARMED {
            self.armed_ever = true;
            if counter != self.last_seen {
                self.last_seen = counter;
                bus.poke32(self.base + OFF_SEEN, counter);
                self.last_change = now;
            }
            bus.poke32(self.base + OFF_STATE, STATE_ARMED | poll_lo);
            if now.saturating_sub(self.last_change) > HEARTBEAT_TIMEOUT_S {
                self.fire(bus);
            }
        } else {
            // Not (yet) armed. Catches "kernel never brought userspace up" via
            // boot-grace, and a live-then-dead heartbeat via the timeout.
            bus.poke32(self.base + OFF_STATE, STATE_BOOT | poll_lo);
            if !self.armed_ever && now.saturating_sub(self.t0) > BOOT_GRACE_S {
                self.fire(bus);
            }
            if self.armed_ever && now.saturating_sub(self.last_change) > HEARTBEAT_TIMEOUT_S {
                self.fire(bus);
            }
        }
    }
}

// ---------------------------------------------------------------------------
// Laws of the watchdog firmware
// ---------------------------------------------------------------------------

/// The mailbox word at `off`, as a tick reads it (after it stamped the runtime).
proof fn lemma_tick_reads(s: HpmcuState, now: u64, off: u64)
    requires
        hpmcu_wf(s),
        off < OFF_CYC,
    ensures
        word_at(s.mem.insert((s.base + OFF_CYC) as u64, (now % 0x1_0000_0000) as u32), (s.base + off) as u64)
            == word_at(s.mem, (s.base + off) as u64),
{
}

/// Once fired, the core spins: further ticks change nothing.
pub proof fn lemma_fired_is_final(s: HpmcuState, now: u64)
    requires
        s.fired,
    ensures
        tick_spec(s, now) == s,
{
}

/// A disarmed MCU never fires, whatever the time: it reports DISARMED and
/// restarts its grace clock.
pub proof fn lemma_disarmed_never_fires(s: HpmcuState, now: u64)
    requires
        hpmcu_wf(s),
        !s.fired,
        word_at(s.mem, (s.base + OFF_MAGIC) as u64) == MAGIC_DISARM,
    ensures
        !tick_spec(s, now).fired,
        tick_spec(s, now).t0 == now,
        word_at(tick_spec(s, now).mem, (s.base + OFF_STATE) as u64) & 0xffff_0000u32 == STATE_DISARMED,
{
    lemma_tick_reads(s, now, OFF_MAGIC);
    let polls = ((s.polls + 1) % 0x1_0000_0000) as u32;
    let lo = polls & 0xffffu32;
    assert((STATE_DISARMED | lo) & 0xffff_0000u32 == STATE_DISARMED) by (bit_vector)
        requires
            lo == polls & 0xffffu32,
    ;
}

/// An armed MCU whose heartbeat counter moved since the last poll does not
/// fire: a beating heartbeat never resets the SoC.
pub proof fn lemma_beating_never_fires(s: HpmcuState, now: u64)
    requires
        hpmcu_wf(s),
        !s.fired,
        word_at(s.mem, (s.base + OFF_MAGIC) as u64) == MAGIC_ARMED,
        word_at(s.mem, (s.base + OFF_COUNTER) as u64) != s.last_seen,
    ensures
        !tick_spec(s, now).fired,
        tick_spec(s, now).last_change == now,
        tick_spec(s, now).armed_ever,
{
    lemma_tick_reads(s, now, OFF_MAGIC);
    lemma_tick_reads(s, now, OFF_COUNTER);
}

/// An armed MCU whose heartbeat stopped fires exactly when more than the
/// heartbeat timeout has passed since the counter last moved.
pub proof fn lemma_heartbeat_timeout(s: HpmcuState, now: u64)
    requires
        hpmcu_wf(s),
        !s.fired,
        word_at(s.mem, (s.base + OFF_MAGIC) as u64) == MAGIC_ARMED,
        word_at(s.mem, (s.base + OFF_COUNTER) as u64) == s.last_seen,
    ensures
        tick_spec(s, now).fired == (since(now, s.last_change) > HEARTBEAT_TIMEOUT_S),
{
    lemma_tick_reads(s, now, OFF_MAGIC);
    lemma_tick_reads(s, now, OFF_COUNTER);
}

/// Never armed, the MCU fires exactly when the boot grace has run out: not at
/// or before `BOOT_GRACE_S` seconds after boot (or the last disarm).
pub proof fn lemma_boot_grace(s: HpmcuState, now: u64)
    requires
        hpmcu_wf(s),
        !s.fired,
        !s.armed_ever,
        word_at(s.mem, (s.base + OFF_MAGIC) as u64) != MAGIC_ARMED,
        word_at(s.mem, (s.base + OFF_MAGIC) as u64) != MAGIC_DISARM,
    ensures
        tick_spec(s, now).fired == (since(now, s.t0) > BOOT_GRACE_S),
{
    lemma_tick_reads(s, now, OFF_MAGIC);
}

/// Every tick keeps the state well formed: at most one firing is ever counted.
pub proof fn lemma_tick_keeps_wf(s: HpmcuState, now: u64)
    requires
        hpmcu_wf(s),
    ensures
        hpmcu_wf(tick_spec(s, now)),
        tick_spec(s, now).fire_count <= 1,
{
}

/// A heartbeat that was once armed and then goes dead without a disarm (Linux
/// rebooted or hung and the magic word is neither ARMED nor DISARM) still
/// fires, exactly when more than `HEARTBEAT_TIMEOUT_S` seconds have passed
/// since the counter last changed.
pub proof fn lemma_dead_heartbeat_fires(s: HpmcuState, now: u64)
    requires
        hpmcu_wf(s),
        !s.fired,
        s.armed_ever,
        word_at(s.mem, (s.base + OFF_MAGIC) as u64) != MAGIC_ARMED,
        word_at(s.mem, (s.base + OFF_MAGIC) as u64) != MAGIC_DISARM,
    ensures
        tick_spec(s, now).fired == (since(now, s.last_change) > HEARTBEAT_TIMEOUT_S),
        tick_spec(s, now).last_change == s.last_change,
{
    lemma_tick_reads(s, now, OFF_MAGIC);
}

/// Armed at some tick and never beating again, the MCU fires on the first
/// later tick more than `HEARTBEAT_TIMEOUT_S` seconds after the last change,
/// whatever the magic word then reads, unless Linux disarmed it: the two
/// ticks `t1 <= t2` see an unchanged counter and no DISARM.
pub proof fn lemma_armed_then_silent_fires(s: HpmcuState, t1: u64, t2: u64)
    requires
        hpmcu_wf(s),
        !s.fired,
        t1 <= t2,
        word_at(s.mem, (s.base + OFF_MAGIC) as u64) == MAGIC_ARMED,
        word_at(s.mem, (s.base + OFF_COUNTER) as u64) == s.last_seen,
        since(t1, s.last_change) <= HEARTBEAT_TIMEOUT_S,
    ensures
        ({
            let s1 = tick_spec(s, t1);
            forall|mem: Map<u64, u32>|
                word_at(mem, (s.base + OFF_MAGIC) as u64) != MAGIC_DISARM && (word_at(
                    mem,
                    (s.base + OFF_MAGIC) as u64,
                ) == MAGIC_ARMED ==> word_at(mem, (s.base + OFF_COUNTER) as u64) == s1.last_seen)
                    ==> #[trigger] tick_spec(HpmcuState { mem, ..s1 }, t2).fired == (since(
                    t2,
                    s.last_change,
                ) > HEARTBEAT_TIMEOUT_S)
        }),
{
    lemma_heartbeat_timeout(s, t1);
    let s1 = tick_spec(s, t1);
    assert forall|mem: Map<u64, u32>|
        word_at(mem, (s.base + OFF_MAGIC) as u64) != MAGIC_DISARM && (word_at(mem, (s.base + OFF_MAGIC) as u64)
            == MAGIC_ARMED ==> word_at(mem, (s.base + OFF_COUNTER) as u64) == s1.last_seen) implies #[trigger] tick_spec(
        HpmcuState { mem, ..s1 },
        t2,
    ).fired == (since(t2, s.last_change) > HEARTBEAT_TIMEOUT_S) by {
        let s2 = HpmcuState { mem, ..s1 };
        assert(s1.last_change == s.last_change);
        assert(s1.armed_ever);
        if word_at(mem, (s.base + OFF_MAGIC) as u64) == MAGIC_ARMED {
            lemma_heartbeat_timeout(s2, t2);
        } else {
            lemma_dead_heartbeat_fires(s2, t2);
        }
    }
}

} // verus!

//! The RS-485 bridge's decisions: the simulated field bus behind a QEMU
//! serial chardev.
//!
//! The guest side is the Modbus *master*; the bridge is the wire and every
//! slave on it. Frames are delimited by an inter-frame gap of silence (the
//! socket loop lives with the program); here are the parts that decide: how
//! pending bytes accumulate and when they are discarded, what a completed
//! frame is answered, and the control channel that scripts the simulated bus
//! from test harnesses (fault injection and register seeding/reading, one
//! command per line).

use vstd::prelude::*;
use crate::modbus::{
    ModbusSlave, SlaveState, fresh_slave, handle_spec, lemma_read_one_bit, read_coils_pdu,
    read_discrete_pdu, request_spec, with_crc,
};
use crate::text::{
    chars_eq_str, chars_of, dec, digit_char, parse_uint, parse_unsigned, push_chars, push_dec,
    push_str, split_once, split_once_chars, split_words, words,
};

verus! {

broadcast use vstd::string::group_string_axioms;

/// Accumulation cap: a Modbus RTU ADU is at most 256 bytes, so anything past
/// 2x that without an inter-frame gap is a misbehaving master streaming
/// continuously: drop the buffer instead of growing without bound.
pub const MAX_PENDING: usize = 512;

/// The shared bus: the slave plus its declared dimensions. The slave's
/// register setters demand in-range indices; the control channel checks
/// against these bounds first so a typo in a scenario script answers `err`.
pub struct Bus {
    pub slave: ModbusSlave,
    pub regs: usize,
    pub bits: usize,
}

impl Bus {
    /// The declared dimensions fit the slave's banks.
    pub open spec fn wf(&self) -> bool {
        &&& self.regs <= self.slave@.holding.len()
        &&& self.regs <= self.slave@.input.len()
        &&& self.bits <= self.slave@.coils.len()
        &&& self.bits <= self.slave@.discrete.len()
    }

    pub fn new(address: u8, regs: usize, bits: usize) -> (b: Self)
        ensures
            b.wf(),
            b.regs == regs,
            b.bits == bits,
            b.slave@ == fresh_slave(address, regs as nat, bits as nat),
    {
        Bus { slave: ModbusSlave::new(address, regs, bits), regs, bits }
    }

    /// Whether the declared dimensions fit the slave's banks (what the
    /// control channel relies on).
    pub fn is_consistent(&self) -> (b: bool)
        ensures
            b == self.wf(),
    {
        let (h, i, c, d) = self.slave.bank_sizes();
        self.regs <= h && self.regs <= i && self.bits <= c && self.bits <= d
    }
}

// ---------------------------------------------------------------------------
// Serial framing decisions
// ---------------------------------------------------------------------------

/// Add a chunk read from the serial socket to the pending bytes. Past
/// `MAX_PENDING` bytes with no inter-frame gap the whole buffer is discarded
/// (the result says so).
pub fn accumulate(buf: &mut Vec<u8>, chunk: &[u8]) -> (discarded: bool)
    ensures
        discarded == (old(buf)@.len() + chunk@.len() > MAX_PENDING),
        discarded ==> final(buf)@ == Seq::<u8>::empty(),
        !discarded ==> final(buf)@ == old(buf)@ + chunk@,
{
    let mut i: usize = 0;
    while i < chunk.len()
        invariant
            i <= chunk@.len(),
            buf@ == old(buf)@ + chunk@.take(i as int),
        decreases chunk@.len() - i,
    {
        buf.push(chunk[i]);
        i += 1;
        assert(buf@ =~= old(buf)@ + chunk@.take(i as int));
    }
    assert(chunk@.take(i as int) =~= chunk@);
    if buf.len() > MAX_PENDING {
        buf.clear();
        true
    } else {
        false
    }
}

/// The gap closed a frame: hand the pending bytes to the slave as one frame,
/// empty the buffer, and return the slave's reply (`None` is silence).
pub fn dispatch_pending(buf: &mut Vec<u8>, slave: &mut ModbusSlave) -> (reply: Option<Vec<u8>>)
    ensures
        final(buf)@ == Seq::<u8>::empty(),
        final(slave)@ == handle_spec(old(slave)@, old(buf)@).0,
        match reply {
            Some(f) => handle_spec(old(slave)@, old(buf)@).1 == Some(f@),
            None => handle_spec(old(slave)@, old(buf)@).1 is None,
        },
{
    let reply = slave.handle_frame(buf.as_slice());
    buf.clear();
    reply
}

/// What the serial socket gave the pump: a chunk of bytes, an inter-frame
/// gap of silence (the read timed out), or the end of the stream.
pub enum SerialEvent {
    Bytes(Vec<u8>),
    Gap,
    Eof,
}

/// What the pump does after an event: the reply to write back (if a frame was
/// handed to the slave and it answered), whether a frame was handed to the
/// slave, whether the pending bytes were discarded for overflow, and whether
/// the pump stops.
pub struct PumpOutcome {
    pub reply: Option<Vec<u8>>,
    pub dispatched: bool,
    pub discarded: bool,
    pub stop: bool,
}

/// One step of the serial pump. Bytes accumulate (discarded past
/// `MAX_PENDING` without a gap). A gap or the end of the stream hands the
/// pending bytes to the slave as one frame, but only if some are pending (an
/// empty hand-off would use up an injected drop); at the end of the stream
/// that last frame is answered and then the pump stops, so a final unflushed
/// frame is not lost.
pub fn pump_step(buf: &mut Vec<u8>, slave: &mut ModbusSlave, ev: SerialEvent) -> (out: PumpOutcome)
    ensures
        out.stop == (ev is Eof),
        ev is Bytes ==> {
            &&& final(slave)@ == old(slave)@
            &&& out.reply is None
            &&& !out.dispatched
            &&& out.discarded == (old(buf)@.len() + ev->Bytes_0@.len() > MAX_PENDING)
            &&& out.discarded ==> final(buf)@ == Seq::<u8>::empty()
            &&& !out.discarded ==> final(buf)@ == old(buf)@ + ev->Bytes_0@
        },
        !(ev is Bytes) ==> {
            &&& !out.discarded
            &&& out.dispatched == (old(buf)@.len() > 0)
            &&& old(buf)@.len() == 0 ==> {
                &&& final(buf)@ == old(buf)@
                &&& final(slave)@ == old(slave)@
                &&& out.reply is None
            }
            &&& old(buf)@.len() > 0 ==> {
                &&& final(buf)@ == Seq::<u8>::empty()
                &&& final(slave)@ == handle_spec(old(slave)@, old(buf)@).0
                &&& match out.reply {
                    Some(f) => handle_spec(old(slave)@, old(buf)@).1 == Some(f@),
                    None => handle_spec(old(slave)@, old(buf)@).1 is None,
                }
            }
        },
{
    match ev {
        SerialEvent::Bytes(chunk) => {
            let discarded = accumulate(buf, chunk.as_slice());
            PumpOutcome { reply: None, dispatched: false, discarded, stop: false }
        },
        SerialEvent::Gap => {
            if buf.len() > 0 {
                let reply = dispatch_pending(buf, slave);
                PumpOutcome { reply, dispatched: true, discarded: false, stop: false }
            } else {
                PumpOutcome { reply: None, dispatched: false, discarded: false, stop: false }
            }
        },
        SerialEvent::Eof => {
            if buf.len() > 0 {
                let reply = dispatch_pending(buf, slave);
                PumpOutcome { reply, dispatched: true, discarded: false, stop: true }
            } else {
                PumpOutcome { reply: None, dispatched: false, discarded: false, stop: true }
            }
        },
    }
}

/// Bytes as lower-case hexadecimal, two digits each (for the traffic log).
pub open spec fn hex_bytes(s: Seq<u8>) -> Seq<char>
    decreases s.len(),
{
    if s.len() == 0 {
        Seq::empty()
    } else {
        hex_bytes(s.drop_last()).push(digit_char((s.last() / 16) as nat)).push(
            digit_char((s.last() % 16) as nat),
        )
    }
}

pub fn hex(bytes: &[u8]) -> (s: String)
    ensures
        s@ == hex_bytes(bytes@),
{
    let mut s = String::new();
    let mut i: usize = 0;
    while i < bytes.len()
        invariant
            i <= bytes@.len(),
            s@ == hex_bytes(bytes@.take(i as int)),
        decreases bytes@.len() - i,
    {
        let b = bytes[i];
        let mut two = String::new();
        crate::text::push_hex_digit(&mut two, (b / 16) as u64);
        crate::text::push_hex_digit(&mut two, (b % 16) as u64);
        push_str(&mut s, two.as_str());
        proof {
            let t = bytes@.take(i + 1);
            assert(t.drop_last() =~= bytes@.take(i as int));
            assert(t.last() == b);
        }
        i += 1;
        assert(s@ =~= hex_bytes(bytes@.take(i as int)));
    }
    assert(bytes@.take(i as int) =~= bytes@);
    s
}

// ---------------------------------------------------------------------------
// Control channel
// ---------------------------------------------------------------------------

/// A 16-bit number: `0x`/`0X` hexadecimal, decimal otherwise.
pub open spec fn parse_u16_spec(s: Seq<char>) -> Option<u16> {
    let r = if s.len() >= 2 && s[0] == '0' && (s[1] == 'x' || s[1] == 'X') {
        parse_unsigned(s.skip(2), 16, 0xffff)
    } else {
        parse_unsigned(s, 10, 0xffff)
    };
    match r {
        Some(v) => Some(v as u16),
        None => None,
    }
}

fn parse_u16(s: &[char]) -> (r: Option<u16>)
    ensures
        r == parse_u16_spec(s@),
{
    let r = if s.len() >= 2 && s[0] == '0' && (s[1] == 'x' || s[1] == 'X') {
        let h = crate::text::slice_of(s, 2, s.len());
        assert(h@ =~= s@.skip(2));
        parse_uint(h.as_slice(), 16, 0xffff)
    } else {
        parse_uint(s, 10, 0xffff)
    };
    match r {
        Some(v) => Some(v as u16),
        None => None,
    }
}

/// `'text'`, the quoting the error replies use.
pub open spec fn quoted(text: Seq<char>) -> Seq<char> {
    "'"@ + text + "'"@
}

/// The reply for an address at or past `bound`.
pub open spec fn out_of_range(a: u16, bound: usize) -> Seq<char> {
    "err address "@ + dec(a as nat) + " out of range (0.."@ + dec(bound as nat) + ")"@
}

/// Parse `<addr>=<value>` with the address bounds-checked against `bound`.
pub open spec fn addr_val_spec(kv: Seq<char>, bound: usize) -> Result<(u16, u16), Seq<char>> {
    let bad = "err expected <addr>=<value>, got "@ + quoted(kv);
    match split_once(kv, '=') {
        None => Err(bad),
        Some((a, v)) => match (parse_u16_spec(a), parse_u16_spec(v)) {
            (Some(a), Some(v)) => if a >= bound {
                Err(out_of_range(a, bound))
            } else {
                Ok((a, v))
            },
            _ => Err(bad),
        },
    }
}

/// Parse a bare address, bounds-checked against `bound`.
pub open spec fn addr_spec(a: Seq<char>, bound: usize) -> Result<u16, Seq<char>> {
    match parse_u16_spec(a) {
        Some(v) => if v < bound {
            Ok(v)
        } else {
            Err(out_of_range(v, bound))
        },
        None => Err("err bad address "@ + quoted(a)),
    }
}

/// The reply to a line no command matches.
pub open spec fn unknown_reply(line: Seq<char>) -> Seq<char> {
    "err unknown or malformed command "@ + quoted(line)
}

/// One control line executed against the slave: its new state and the reply
/// (`ok`, `ok <value>` or `err <reason>`).
pub open spec fn control_spec(line: Seq<char>, st: SlaveState, regs: usize, bits: usize) -> (
    SlaveState,
    Seq<char>,
) {
    let w = words(line);
    if w.len() == 0 {
        (st, "err empty command"@)
    } else if w.len() > 2 {
        (st, "err trailing arguments after "@ + quoted(w[0]))
    } else if w.len() == 1 {
        if w[0] == "ping"@ {
            (st, "ok"@)
        } else if w[0] == "clear"@ {
            (SlaveState { drop_next: 0, force_exception: None, ..st }, "ok"@)
        } else {
            (st, unknown_reply(line))
        }
    } else {
        let cmd = w[0];
        let arg = w[1];
        if cmd == "drop"@ {
            match parse_unsigned(arg, 10, usize::MAX as nat) {
                Some(n) => (SlaveState { drop_next: n, ..st }, "ok"@),
                None => (st, "err bad count "@ + quoted(arg)),
            }
        } else if cmd == "exception"@ {
            match parse_u16_spec(arg) {
                Some(c) => if c <= 0xff {
                    (SlaveState { force_exception: Some(c as u8), ..st }, "ok"@)
                } else {
                    (st, "err bad exception code "@ + quoted(arg))
                },
                None => (st, "err bad exception code "@ + quoted(arg)),
            }
        } else if cmd == "holding"@ || cmd == "input"@ {
            match addr_val_spec(arg, regs) {
                Ok((a, v)) => if cmd == "holding"@ {
                    (SlaveState { holding: st.holding.update(a as int, v), ..st }, "ok"@)
                } else {
                    (SlaveState { input: st.input.update(a as int, v), ..st }, "ok"@)
                },
                Err(e) => (st, e),
            }
        } else if cmd == "coil"@ || cmd == "discrete"@ {
            match addr_val_spec(arg, bits) {
                Ok((a, v)) => if cmd == "coil"@ {
                    (SlaveState { coils: st.coils.update(a as int, v != 0), ..st }, "ok"@)
                } else {
                    (SlaveState { discrete: st.discrete.update(a as int, v != 0), ..st }, "ok"@)
                },
                Err(e) => (st, e),
            }
        } else if cmd == "get-holding"@ {
            match addr_spec(arg, regs) {
                Ok(a) => (st, "ok "@ + dec(st.holding[a as int] as nat)),
                Err(e) => (st, e),
            }
        } else if cmd == "get-coil"@ {
            match addr_spec(arg, bits) {
                Ok(a) => (st, "ok "@ + dec(
                    if st.coils[a as int] {
                        1
                    } else {
                        0
                    },
                )),
                Err(e) => (st, e),
            }
        } else {
            (st, unknown_reply(line))
        }
    }
}

fn quote_into(out: &mut String, text: &[char])
    ensures
        final(out)@ == old(out)@ + quoted(text@),
{
    push_str(out, "'");
    push_chars(out, text);
    push_str(out, "'");
    assert(final(out)@ =~= old(out)@ + quoted(text@));
}

fn message_quoting(prefix: &str, text: &[char]) -> (m: String)
    ensures
        m@ == prefix@ + quoted(text@),
{
    let mut m = String::new();
    push_str(&mut m, prefix);
    quote_into(&mut m, text);
    assert(m@ =~= prefix@ + quoted(text@));
    m
}

fn out_of_range_msg(a: u16, bound: usize) -> (m: String)
    ensures
        m@ == out_of_range(a, bound),
{
    let mut m = String::new();
    push_str(&mut m, "err address ");
    push_dec(&mut m, a as u64);
    push_str(&mut m, " out of range (0..");
    push_dec(&mut m, bound as u64);
    push_str(&mut m, ")");
    assert(m@ =~= out_of_range(a, bound));
    m
}

fn parse_addr_val(kv: &[char], bound: usize) -> (r: Result<(usize, u16), String>)
    ensures
        match addr_val_spec(kv@, bound) {
            Ok((a, v)) => r matches Ok((ra, rv)) && ra == a && rv == v,
            Err(e) => r matches Err(m) && m@ == e,
        },
{
    let (a, v) = match split_once_chars(kv, '=') {
        Some(p) => p,
        None => return Err(message_quoting("err expected <addr>=<value>, got ", kv)),
    };
    match (parse_u16(a.as_slice()), parse_u16(v.as_slice())) {
        (Some(a), Some(v)) => {
            if (a as usize) >= bound {
                return Err(out_of_range_msg(a, bound));
            }
            Ok((a as usize, v))
        },
        _ => Err(message_quoting("err expected <addr>=<value>, got ", kv)),
    }
}

fn parse_addr(a: &[char], bound: usize) -> (r: Result<usize, String>)
    ensures
        match addr_spec(a@, bound) {
            Ok(v) => r == Ok::<usize, String>(v as usize),
            Err(e) => r matches Err(m) && m@ == e,
        },
{
    match parse_u16(a) {
        Some(v) => {
            if (v as usize) < bound {
                Ok(v as usize)
            } else {
                Err(out_of_range_msg(v, bound))
            }
        },
        None => Err(message_quoting("err bad address ", a)),
    }
}

fn lit(s: &str) -> (r: String)
    ensures
        r@ == s@,
{
    let mut r = String::new();
    push_str(&mut r, s);
    r
}

/// Execute one control-channel command against the slave. One command per
/// line; the reply is `ok`, `ok <value>`, or `err <reason>`.
///
///   drop <n>            answer the next n requests with silence
///   exception <code>    NAK everything with this exception code (0x01..)
///   clear               clear injected faults
///   holding <addr>=<v>  seed a holding register
///   input <addr>=<v>    seed an input register
///   coil <addr>=<0|1>   seed a coil
///   discrete <addr>=<0|1> seed a discrete input
///   get-holding <addr>  read a holding register back
///   get-coil <addr>     read a coil back
///   ping                liveness check
pub fn handle_control_line(line: &str, bus: &mut Bus) -> (reply: String)
    requires
        old(bus).wf(),
    ensures
        final(bus).wf(),
        final(bus).regs == old(bus).regs,
        final(bus).bits == old(bus).bits,
        (final(bus).slave@, reply@) == control_spec(line@, old(bus).slave@, old(bus).regs, old(bus).bits),
{
    let chars = chars_of(line);
    let w = split_words(chars.as_slice());
    if w.len() == 0 {
        return lit("err empty command");
    }
    if w.len() > 2 {
        return message_quoting("err trailing arguments after ", w[0].as_slice());
    }
    // Each arm states its own bound (bus.regs for register space, bus.bits
    // for bit space) inline.
    let cmd = w[0].as_slice();
    if w.len() == 1 {
        if chars_eq_str(cmd, "ping") {
            return lit("ok");
        } else if chars_eq_str(cmd, "clear") {
            bus.slave.clear_faults();
            return lit("ok");
        } else {
            return message_quoting("err unknown or malformed command ", chars.as_slice());
        }
    }
    let arg = w[1].as_slice();
    if chars_eq_str(cmd, "drop") {
        match parse_uint(arg, 10, usize::MAX as u64) {
            Some(n) => {
                bus.slave.drop_next(n as usize);
                lit("ok")
            },
            None => message_quoting("err bad count ", arg),
        }
    } else if chars_eq_str(cmd, "exception") {
        match parse_u16(arg) {
            Some(c) => {
                if c <= 0xff {
                    bus.slave.force_exception(c as u8);
                    lit("ok")
                } else {
                    message_quoting("err bad exception code ", arg)
                }
            },
            None => message_quoting("err bad exception code ", arg),
        }
    } else if chars_eq_str(cmd, "holding") || chars_eq_str(cmd, "input") {
        match parse_addr_val(arg, bus.regs) {
            Ok((a, v)) => {
                if chars_eq_str(cmd, "holding") {
                    bus.slave.set_holding(a, v);
                } else {
                    bus.slave.set_input(a, v);
                }
                lit("ok")
            },
            Err(e) => e,
        }
    } else if chars_eq_str(cmd, "coil") || chars_eq_str(cmd, "discrete") {
        match parse_addr_val(arg, bus.bits) {
            Ok((a, v)) => {
                if chars_eq_str(cmd, "coil") {
                    bus.slave.set_coil(a, v != 0);
                } else {
                    bus.slave.set_discrete(a, v != 0);
                }
                lit("ok")
            },
            Err(e) => e,
        }
    } else if chars_eq_str(cmd, "get-holding") {
        match parse_addr(arg, bus.regs) {
            Ok(a) => {
                let mut r = lit("ok ");
                push_dec(&mut r, bus.slave.holding(a) as u64);
                r
            },
            Err(e) => e,
        }
    } else if chars_eq_str(cmd, "get-coil") {
        match parse_addr(arg, bus.bits) {
            Ok(a) => {
                let mut r = lit("ok ");
                push_dec(
                    &mut r,
                    if bus.slave.coil(a) {
                        1
                    } else {
                        0
                    },
                );
                r
            },
            Err(e) => e,
        }
    } else {
        message_quoting("err unknown or malformed command ", chars.as_slice())
    }
}

// ---------------------------------------------------------------------------
// Laws of the control channel
// ---------------------------------------------------------------------------

/// A `holding <addr>=<v>` line with an in-range address stores `v` there and
/// answers `ok`.
pub proof fn lemma_seed_holding(st: SlaveState, regs: usize, bits: usize, line: Seq<char>, kv: Seq<char>)
    requires
        words(line) == seq!["holding"@, kv],
        addr_val_spec(kv, regs) is Ok,
    ensures
        ({
            let (a, v) = addr_val_spec(kv, regs)->Ok_0;
            control_spec(line, st, regs, bits) == (SlaveState { holding: st.holding.update(a as int, v), ..st }, "ok"@)
        }),
{
    reveal_strlit("holding");
    reveal_strlit("drop");
    reveal_strlit("exception");
}

/// A `get-holding <addr>` line with an in-range address answers `ok <value>`
/// and changes nothing.
pub proof fn lemma_read_holding(st: SlaveState, regs: usize, bits: usize, line: Seq<char>, addr: Seq<char>)
    requires
        words(line) == seq!["get-holding"@, addr],
        addr_spec(addr, regs) is Ok,
    ensures
        control_spec(line, st, regs, bits) == (st, "ok "@ + dec(st.holding[addr_spec(addr, regs)->Ok_0 as int] as nat)),
{
    let g = "get-holding"@;
    assert(g.len() == 11) by {
        reveal_strlit("get-holding");
    }
    assert(g != "drop"@) by {
        reveal_strlit("drop");
    }
    assert(g != "exception"@) by {
        reveal_strlit("exception");
    }
    assert(g != "holding"@) by {
        reveal_strlit("holding");
    }
    assert(g != "input"@) by {
        reveal_strlit("input");
    }
    assert(g != "coil"@) by {
        reveal_strlit("coil");
    }
    assert(g != "discrete"@) by {
        reveal_strlit("discrete");
    }
}

/// A register seeded through the control channel reads back through it: after
/// a `holding <addr>=<v>` line the register holds `v`, and a `get-holding`
/// line for that address answers `ok <v>`.
pub proof fn lemma_seed_then_read_holding(
    st: SlaveState,
    regs: usize,
    bits: usize,
    set_line: Seq<char>,
    kv: Seq<char>,
    get_line: Seq<char>,
    addr: Seq<char>,
)
    requires
        words(set_line) == seq!["holding"@, kv],
        words(get_line) == seq!["get-holding"@, addr],
        addr_val_spec(kv, regs) is Ok,
        addr_spec(addr, regs) == Ok::<u16, Seq<char>>(addr_val_spec(kv, regs)->Ok_0.0),
        regs <= st.holding.len(),
    ensures
        ({
            let (a, v) = addr_val_spec(kv, regs)->Ok_0;
            let (st1, r1) = control_spec(set_line, st, regs, bits);
            let (st2, r2) = control_spec(get_line, st1, regs, bits);
            &&& r1 == "ok"@
            &&& st1.holding == st.holding.update(a as int, v)
            &&& st2 == st1
            &&& r2 == "ok "@ + dec(v as nat)
        }),
{
    lemma_seed_holding(st, regs, bits, set_line, kv);
    let (a, v) = addr_val_spec(kv, regs)->Ok_0;
    let st1 = SlaveState { holding: st.holding.update(a as int, v), ..st };
    lemma_read_holding(st1, regs, bits, get_line, addr);
}

/// An address at or past the declared bound is answered with an error and
/// leaves the slave untouched (never an out-of-range write).
pub proof fn lemma_out_of_range_is_refused(
    st: SlaveState,
    regs: usize,
    bits: usize,
    line: Seq<char>,
    cmd: Seq<char>,
    kv: Seq<char>,
)
    requires
        words(line) == seq![cmd, kv],
        cmd == "holding"@ || cmd == "input"@,
        split_once(kv, '=') matches Some((a, v)) && parse_u16_spec(a) matches Some(av) && parse_u16_spec(
            v,
        ) is Some && av >= regs,
    ensures
        control_spec(line, st, regs, bits).0 == st,
        control_spec(line, st, regs, bits).1 == out_of_range(
            parse_u16_spec(split_once(kv, '=')->Some_0.0)->Some_0,
            regs,
        ),
{
    reveal_strlit("holding");
    reveal_strlit("input");
    reveal_strlit("drop");
    reveal_strlit("exception");
}

/// What a `coil` seeding line does to the slave.
#[verifier::spinoff_prover]
proof fn lemma_coil_seed_step(st: SlaveState, regs: usize, bits: usize, line: Seq<char>, kv: Seq<char>)
    requires
        words(line) == seq!["coil"@, kv],
        addr_val_spec(kv, bits) is Ok,
    ensures
        ({
            let (a, v) = addr_val_spec(kv, bits)->Ok_0;
            control_spec(line, st, regs, bits) == (SlaveState { coils: st.coils.update(a as int, v != 0), ..st }, "ok"@)
        }),
{
    let c = "coil"@;
    assert(c.len() == 4 && c[0] == 'c') by {
        reveal_strlit("coil");
    }
    assert(c != "drop"@) by {
        reveal_strlit("drop");
    }
    assert(c != "exception"@) by {
        reveal_strlit("exception");
    }
    assert(c != "holding"@) by {
        reveal_strlit("holding");
    }
    assert(c != "input"@) by {
        reveal_strlit("input");
    }
}

/// What a `discrete` seeding line does to the slave.
#[verifier::spinoff_prover]
proof fn lemma_discrete_seed_step(st: SlaveState, regs: usize, bits: usize, line: Seq<char>, kv: Seq<char>)
    requires
        words(line) == seq!["discrete"@, kv],
        addr_val_spec(kv, bits) is Ok,
    ensures
        ({
            let (a, v) = addr_val_spec(kv, bits)->Ok_0;
            control_spec(line, st, regs, bits) == (
                SlaveState { discrete: st.discrete.update(a as int, v != 0), ..st },
                "ok"@,
            )
        }),
{
    let d = "discrete"@;
    assert(d.len() == 8 && d[0] == 'd' && d[1] == 'i') by {
        reveal_strlit("discrete");
    }
    assert(d != "coil"@) by {
        reveal_strlit("coil");
    }
    assert(d != "drop"@) by {
        reveal_strlit("drop");
    }
    assert(d != "exception"@) by {
        reveal_strlit("exception");
    }
    assert(d != "holding"@) by {
        reveal_strlit("holding");
    }
    assert(d != "input"@) by {
        reveal_strlit("input");
    }
}

/// A `discrete <addr>=<v>` line with an in-range address switches that
/// discrete input to `v != 0`, touches no coil, register or fault setting,
/// and answers `ok`; an FC 0x02 read of that input then answers the new
/// value (1 or 0) while an FC 0x01 read of the coil at the same address
/// answers what it answered before.
#[verifier::spinoff_prover]
pub proof fn lemma_seed_discrete(st: SlaveState, regs: usize, bits: usize, line: Seq<char>, kv: Seq<char>)
    requires
        words(line) == seq!["discrete"@, kv],
        addr_val_spec(kv, bits) is Ok,
        bits <= st.discrete.len(),
        bits <= st.coils.len(),
        st.address != 0,
        st.drop_next == 0,
        st.force_exception is None,
    ensures
        ({
            let (a, v) = addr_val_spec(kv, bits)->Ok_0;
            let (st1, r) = control_spec(line, st, regs, bits);
            &&& r == "ok"@
            &&& st1.discrete.len() == st.discrete.len()
            &&& st1.discrete[a as int] == (v != 0)
            &&& forall|j: int| 0 <= j < st.discrete.len() && j != a ==> #[trigger] st1.discrete[j] == st.discrete[j]
            &&& st1.coils == st.coils
            &&& st1.holding == st.holding
            &&& st1.input == st.input
            &&& st1 == (SlaveState { discrete: st1.discrete, ..st })
            &&& handle_spec(st1, request_spec(st.address, read_discrete_pdu(a, 1))).1 == Some(
                with_crc(seq![st.address, 0x02u8, 1u8, if v != 0 { 1u8 } else { 0u8 }]),
            )
            &&& handle_spec(st1, request_spec(st.address, read_coils_pdu(a, 1))).1 == handle_spec(
                st,
                request_spec(st.address, read_coils_pdu(a, 1)),
            ).1
        }),
{
    lemma_discrete_seed_step(st, regs, bits, line, kv);
    let (a, v) = addr_val_spec(kv, bits)->Ok_0;
    let st1 = control_spec(line, st, regs, bits).0;
    lemma_read_one_bit(st1, a);
    lemma_read_one_bit(st, a);
}

/// A `coil <addr>=<v>` line with an in-range address switches that coil to
/// `v != 0`, touches no discrete input, register or fault setting, and
/// answers `ok`; an FC 0x01 read of that coil then answers the new value
/// while an FC 0x02 read of the discrete input at the same address answers
/// what it answered before.
#[verifier::spinoff_prover]
pub proof fn lemma_seed_coil(st: SlaveState, regs: usize, bits: usize, line: Seq<char>, kv: Seq<char>)
    requires
        words(line) == seq!["coil"@, kv],
        addr_val_spec(kv, bits) is Ok,
        bits <= st.discrete.len(),
        bits <= st.coils.len(),
        st.address != 0,
        st.drop_next == 0,
        st.force_exception is None,
    ensures
        ({
            let (a, v) = addr_val_spec(kv, bits)->Ok_0;
            let (st1, r) = control_spec(line, st, regs, bits);
            &&& r == "ok"@
            &&& st1.coils.len() == st.coils.len()
            &&& st1.coils[a as int] == (v != 0)
            &&& forall|j: int| 0 <= j < st.coils.len() && j != a ==> #[trigger] st1.coils[j] == st.coils[j]
            &&& st1.discrete == st.discrete
            &&& st1.holding == st.holding
            &&& st1.input == st.input
            &&& st1 == (SlaveState { coils: st1.coils, ..st })
            &&& handle_spec(st1, request_spec(st.address, read_coils_pdu(a, 1))).1 == Some(
                with_crc(seq![st.address, 0x01u8, 1u8, if v != 0 { 1u8 } else { 0u8 }]),
            )
            &&& handle_spec(st1, request_spec(st.address, read_discrete_pdu(a, 1))).1 == handle_spec(
                st,
                request_spec(st.address, read_discrete_pdu(a, 1)),
            ).1
        }),
{
    lemma_coil_seed_step(st, regs, bits, line, kv);
    let (a, v) = addr_val_spec(kv, bits)->Ok_0;
    let st1 = control_spec(line, st, regs, bits).0;
    lemma_read_one_bit(st1, a);
    lemma_read_one_bit(st, a);
}

} // verus!

//! Modbus RTU **slave** simulator: the device end of the RS-485 seam.
//!
//! Feed it a request frame, get the response frame (or `None` when a real
//! slave would stay silent). The data plane is modelled: read/write of
//! holding & input registers, coils and discrete inputs (FC 0x01-0x06, 0x0F,
//! 0x10) plus Report Slave ID (0x11), with correct CRC framing, exception
//! replies, and injected faults (silently dropped requests, forced
//! exceptions).
//!
//! Every response is specified by [`handle_spec`] over the slave's abstract
//! state [`SlaveState`].

pub mod exc;

use vstd::prelude::*;

verus! {

// ---------------------------------------------------------------------------
// CRC-16 (poly 0xA001, reflected, init 0xFFFF) and RTU framing
// ---------------------------------------------------------------------------

/// One bit step of the reflected CRC-16/MODBUS register.
pub open spec fn crc_step(c: u16) -> u16 {
    if c & 1 != 0 {
        (c >> 1u16) ^ 0xA001u16
    } else {
        c >> 1u16
    }
}

/// `n` bit steps.
pub open spec fn crc_steps(c: u16, n: nat) -> u16
    decreases n,
{
    if n == 0 {
        c
    } else {
        crc_step(crc_steps(c, (n - 1) as nat))
    }
}

/// The register after absorbing one byte.
pub open spec fn crc_byte(c: u16, b: u8) -> u16 {
    crc_steps(c ^ (b as u16), 8)
}

/// CRC-16/MODBUS of a byte sequence.
pub open spec fn crc16_spec(s: Seq<u8>) -> u16
    decreases s.len(),
{
    if s.len() == 0 {
        0xFFFF
    } else {
        crc_byte(crc16_spec(s.drop_last()), s.last())
    }
}

/// The two CRC bytes as they go on the wire: low byte, then high byte.
pub open spec fn crc_bytes(s: Seq<u8>) -> Seq<u8> {
    let c = crc16_spec(s);
    seq![(c & 0xFFu16) as u8, (c >> 8u16) as u8]
}

/// `s` with its CRC appended.
pub open spec fn with_crc(s: Seq<u8>) -> Seq<u8> {
    s + crc_bytes(s)
}

/// A frame of at least three bytes whose last two bytes are the CRC of the rest.
pub open spec fn frame_valid(f: Seq<u8>) -> bool {
    &&& f.len() >= 3
    &&& f.subrange(f.len() - 2, f.len() as int) == crc_bytes(f.take(f.len() - 2))
}

/// Modbus RTU CRC16 (poly 0xA001, low byte first on the wire).
pub fn crc16(bytes: &[u8]) -> (r: u16)
    ensures
        r == crc16_spec(bytes@),
{
    let mut crc: u16 = 0xFFFF;
    let mut i: usize = 0;
    while i < bytes.len()
        invariant
            i <= bytes@.len(),
            crc == crc16_spec(bytes@.take(i as int)),
        decreases bytes@.len() - i,
    {
        let ghost before = crc;
        crc = crc ^ (bytes[i] as u16);
        let ghost start = crc;
        let mut k: usize = 0;
        while k < 8
            invariant
                k <= 8,
                crc == crc_steps(start, k as nat),
            decreases 8 - k,
        {
            crc = if crc & 1 != 0 {
                (crc >> 1) ^ 0xA001
            } else {
                crc >> 1
            };
            k += 1;
        }
        proof {
            let t = bytes@.take(i + 1);
            assert(t.drop_last() =~= bytes@.take(i as int));
            assert(crc == crc_byte(before, bytes@[i as int]));
        }
        i += 1;
    }
    assert(bytes@.take(i as int) =~= bytes@);
    crc
}

/// Append the RTU CRC (low byte then high) to a frame body in place.
pub fn append_crc(frame: &mut Vec<u8>)
    ensures
        final(frame)@ == with_crc(old(frame)@),
{
    let c = crc16(frame.as_slice());
    frame.push((c & 0xFF) as u8);
    frame.push((c >> 8) as u8);
    assert(frame@ =~= with_crc(old(frame)@));
}

/// True if `frame` (including its trailing 2 CRC bytes) has a valid CRC.
pub fn crc_ok(frame: &[u8]) -> (r: bool)
    ensures
        r == frame_valid(frame@),
{
    if frame.len() < 3 {
        return false;
    }
    let n = frame.len();
    let body = vstd::slice::slice_subrange(frame, 0, n - 2);
    let c = crc16(body);
    assert(body@ =~= frame@.take(n - 2));
    let ok = frame[n - 2] == (c & 0xFF) as u8 && frame[n - 1] == (c >> 8) as u8;
    proof {
        let tail = frame@.subrange(n - 2, n as int);
        if ok {
            assert(tail =~= crc_bytes(frame@.take(n - 2)));
        } else {
            if tail == crc_bytes(frame@.take(n - 2)) {
                assert(tail[0] == frame@[n - 2]);
                assert(tail[1] == frame@[n - 1]);
            }
        }
    }
    ok
}

/// A frame with its CRC appended is accepted by the CRC check, whatever its
/// (non-empty) body.
pub proof fn lemma_with_crc_is_valid(body: Seq<u8>)
    requires
        body.len() >= 1,
    ensures
        frame_valid(with_crc(body)),
{
    let f = with_crc(body);
    assert(f.take(f.len() - 2) =~= body);
    assert(f.subrange(f.len() - 2, f.len() as int) =~= crc_bytes(body));
}

/// The request frame `request` builds: address, PDU, CRC.
pub open spec fn request_spec(address: u8, pdu: Seq<u8>) -> Seq<u8> {
    with_crc(seq![address] + pdu)
}

/// Build an RTU request frame (with CRC). `pdu` is everything between the
/// address and the CRC (i.e. `fc` followed by its data).
pub fn request(address: u8, pdu: &[u8]) -> (f: Vec<u8>)
    ensures
        f@ == request_spec(address, pdu@),
        frame_valid(f@),
{
    let mut f: Vec<u8> = Vec::new();
    f.push(address);
    let mut i: usize = 0;
    while i < pdu.len()
        invariant
            i <= pdu@.len(),
            f@ == seq![address] + pdu@.take(i as int),
        decreases pdu@.len() - i,
    {
        f.push(pdu[i]);
        i += 1;
        assert(f@ =~= seq![address] + pdu@.take(i as int));
    }
    assert(pdu@.take(i as int) =~= pdu@);
    append_crc(&mut f);
    proof {
        lemma_with_crc_is_valid(seq![address] + pdu@);
    }
    f
}

/// High byte of a 16-bit value, as it goes first on the wire.
pub open spec fn hi_byte(v: u16) -> u8 {
    (v / 256) as u8
}

/// Low byte of a 16-bit value.
pub open spec fn lo_byte(v: u16) -> u8 {
    (v % 256) as u8
}

/// The 16-bit value of a big-endian byte pair.
pub open spec fn be16(hi: u8, lo: u8) -> nat {
    hi as nat * 256 + lo as nat
}

/// PDU of a read-holding-registers request: FC 0x03, start, count.
pub open spec fn read_holding_pdu(start: u16, count: u16) -> Seq<u8> {
    seq![0x03u8, hi_byte(start), lo_byte(start), hi_byte(count), lo_byte(count)]
}

fn split_be(v: u16) -> (r: (u8, u8))
    ensures
        r.0 == hi_byte(v),
        r.1 == lo_byte(v),
        be16(r.0, r.1) == v,
{
    ((v / 256) as u8, (v % 256) as u8)
}

fn join_be(hi: u8, lo: u8) -> (r: u16)
    ensures
        r == be16(hi, lo),
{
    (hi as u16) * 256 + (lo as u16)
}

/// Build a read-holding-registers (FC 0x03) request frame.
pub fn read_holding(address: u8, start: u16, count: u16) -> (f: Vec<u8>)
    ensures
        f@ == request_spec(address, read_holding_pdu(start, count)),
        frame_valid(f@),
{
    let (sh, sl) = split_be(start);
    let (ch, cl) = split_be(count);
    let pdu: Vec<u8> = vec![0x03, sh, sl, ch, cl];
    assert(pdu@ =~= read_holding_pdu(start, count));
    request(address, pdu.as_slice())
}


// ---------------------------------------------------------------------------
// The slave
// ---------------------------------------------------------------------------

/// Abstract state of a slave: its address, the four data banks, the
/// Report-Slave-ID payload, and the injected faults.
pub struct SlaveState {
    pub address: u8,
    pub holding: Seq<u16>,
    pub input: Seq<u16>,
    pub coils: Seq<bool>,
    pub discrete: Seq<bool>,
    pub slave_id: Seq<u8>,
    pub drop_next: nat,
    pub force_exception: Option<u8>,
}

/// A Modbus RTU slave device model.
pub struct ModbusSlave {
    pub address: u8,
    holding: Vec<u16>,
    input: Vec<u16>,
    coils: Vec<bool>,
    discrete: Vec<bool>,
    slave_id: Vec<u8>,
    /// Silently drop this many upcoming requests (models a device that ignores a
    /// function, or a flaky bus): the master must time out and move on.
    drop_next: usize,
    /// Force every function to answer with this exception (models a device that
    /// NAKs everything but a narrow set) until cleared.
    force_exception: Option<u8>,
}

impl View for ModbusSlave {
    type V = SlaveState;

    closed spec fn view(&self) -> SlaveState {
        SlaveState {
            address: self.address,
            holding: self.holding@,
            input: self.input@,
            coils: self.coils@,
            discrete: self.discrete@,
            slave_id: self.slave_id@,
            drop_next: self.drop_next as nat,
            force_exception: self.force_exception,
        }
    }
}

/// Weight of bit `k` in a byte: `2^k`.
pub open spec fn bit_weight(k: nat) -> nat
    decreases k,
{
    if k == 0 {
        1
    } else {
        2 * bit_weight((k - 1) as nat)
    }
}

/// Bit `k` (0 = least significant) of `b`.
pub open spec fn bit_of(b: u8, k: nat) -> bool {
    (b as nat / bit_weight(k)) % 2 == 1
}

/// Bits packed little-endian: `bits[0]` is the least significant.
pub open spec fn pack_bits(bits: Seq<bool>) -> nat
    decreases bits.len(),
{
    if bits.len() == 0 {
        0
    } else {
        (if bits[0] {
            1nat
        } else {
            0nat
        }) + 2 * pack_bits(bits.drop_first())
    }
}

/// Number of bytes needed for `count` packed bits.
pub open spec fn packed_len(count: nat) -> nat {
    (count + 7) / 8
}

/// Bits packed eight to a byte, first bit in the low bit of the first byte.
pub open spec fn bits_to_bytes(bits: Seq<bool>) -> Seq<u8> {
    Seq::new(
        packed_len(bits.len()),
        |j: int|
            pack_bits(
                bits.subrange(
                    8 * j,
                    if 8 * j + 8 <= bits.len() {
                        8 * j + 8
                    } else {
                        bits.len() as int
                    },
                ),
            ) as u8,
    )
}

/// The first `count` bits of `bytes`, eight to a byte, low bit first.
pub open spec fn bytes_to_bits(bytes: Seq<u8>, count: nat) -> Seq<bool> {
    Seq::new(count, |i: int| bit_of(bytes[i / 8], (i % 8) as nat))
}

/// Registers as big-endian byte pairs.
pub open spec fn regs_to_bytes(regs: Seq<u16>) -> Seq<u8> {
    Seq::new(
        2 * regs.len(),
        |i: int|
            if i % 2 == 0 {
                hi_byte(regs[i / 2])
            } else {
                lo_byte(regs[i / 2])
            },
    )
}

/// Big-endian byte pairs as registers.
pub open spec fn bytes_to_regs(bytes: Seq<u8>, count: nat) -> Seq<u16> {
    Seq::new(count, |i: int| be16(bytes[2 * i], bytes[2 * i + 1]) as u16)
}

/// `s` with `s[start..start + vals.len()]` replaced by `vals`.
pub open spec fn splice<T>(s: Seq<T>, start: int, vals: Seq<T>) -> Seq<T> {
    s.take(start) + vals + s.skip(start + vals.len())
}

/// FC 0x03 / 0x04: read `count` registers from `start`.
pub open spec fn read_regs_spec(bank: Seq<u16>, pdu: Seq<u8>) -> Result<Seq<u8>, u8> {
    if pdu.len() != 4 {
        Err(exc::ILLEGAL_DATA_VALUE)
    } else {
        let start = be16(pdu[0], pdu[1]);
        let count = be16(pdu[2], pdu[3]);
        if count == 0 || count > 125 {
            Err(exc::ILLEGAL_DATA_VALUE)
        } else if start + count > bank.len() {
            Err(exc::ILLEGAL_DATA_ADDRESS)
        } else {
            Ok(seq![(count * 2) as u8] + regs_to_bytes(bank.subrange(start as int, (start + count) as int)))
        }
    }
}

/// FC 0x01 / 0x02: read `count` bits from `start`.
pub open spec fn read_bits_spec(bank: Seq<bool>, pdu: Seq<u8>) -> Result<Seq<u8>, u8> {
    if pdu.len() != 4 {
        Err(exc::ILLEGAL_DATA_VALUE)
    } else {
        let start = be16(pdu[0], pdu[1]);
        let count = be16(pdu[2], pdu[3]);
        if count == 0 || count > 2000 {
            Err(exc::ILLEGAL_DATA_VALUE)
        } else if start + count > bank.len() {
            Err(exc::ILLEGAL_DATA_ADDRESS)
        } else {
            Ok(seq![packed_len(count) as u8] + bits_to_bytes(bank.subrange(start as int, (start + count) as int)))
        }
    }
}

/// FC 0x06: write one holding register, echo the request PDU.
pub open spec fn write_single_reg_spec(m: SlaveState, pdu: Seq<u8>) -> (SlaveState, Result<Seq<u8>, u8>) {
    if pdu.len() != 4 {
        (m, Err(exc::ILLEGAL_DATA_VALUE))
    } else {
        let addr = be16(pdu[0], pdu[1]);
        let val = be16(pdu[2], pdu[3]) as u16;
        if addr >= m.holding.len() {
            (m, Err(exc::ILLEGAL_DATA_ADDRESS))
        } else {
            (SlaveState { holding: m.holding.update(addr as int, val), ..m }, Ok(pdu))
        }
    }
}

/// FC 0x05: write one coil (0xFF00 = on, 0x0000 = off), echo the request PDU.
pub open spec fn write_single_coil_spec(m: SlaveState, pdu: Seq<u8>) -> (SlaveState, Result<Seq<u8>, u8>) {
    if pdu.len() != 4 {
        (m, Err(exc::ILLEGAL_DATA_VALUE))
    } else {
        let addr = be16(pdu[0], pdu[1]);
        let val = be16(pdu[2], pdu[3]);
        if val != 0x0000 && val != 0xFF00 {
            (m, Err(exc::ILLEGAL_DATA_VALUE))
        } else if addr >= m.coils.len() {
            (m, Err(exc::ILLEGAL_DATA_ADDRESS))
        } else {
            (SlaveState { coils: m.coils.update(addr as int, val == 0xFF00), ..m }, Ok(pdu))
        }
    }
}

/// FC 0x10: write `count` holding registers, echo start and count.
pub open spec fn write_multi_regs_spec(m: SlaveState, pdu: Seq<u8>) -> (SlaveState, Result<Seq<u8>, u8>) {
    if pdu.len() < 5 {
        (m, Err(exc::ILLEGAL_DATA_VALUE))
    } else {
        let start = be16(pdu[0], pdu[1]);
        let count = be16(pdu[2], pdu[3]);
        let bytecount = pdu[4] as nat;
        if count == 0 || count > 123 || bytecount != count * 2 || pdu.len() != 5 + bytecount {
            (m, Err(exc::ILLEGAL_DATA_VALUE))
        } else if start + count > m.holding.len() {
            (m, Err(exc::ILLEGAL_DATA_ADDRESS))
        } else {
            (
                SlaveState {
                    holding: splice(m.holding, start as int, bytes_to_regs(pdu.skip(5), count)),
                    ..m
                },
                Ok(pdu.take(4)),
            )
        }
    }
}

/// FC 0x0F: write `count` coils, echo start and count.
pub open spec fn write_multi_coils_spec(m: SlaveState, pdu: Seq<u8>) -> (SlaveState, Result<Seq<u8>, u8>) {
    if pdu.len() < 5 {
        (m, Err(exc::ILLEGAL_DATA_VALUE))
    } else {
        let start = be16(pdu[0], pdu[1]);
        let count = be16(pdu[2], pdu[3]);
        let bytecount = pdu[4] as nat;
        if count == 0 || count > 1968 || bytecount != packed_len(count) || pdu.len() != 5 + bytecount {
            (m, Err(exc::ILLEGAL_DATA_VALUE))
        } else if start + count > m.coils.len() {
            (m, Err(exc::ILLEGAL_DATA_ADDRESS))
        } else {
            (
                SlaveState {
                    coils: splice(m.coils, start as int, bytes_to_bits(pdu.skip(5), count)),
                    ..m
                },
                Ok(pdu.take(4)),
            )
        }
    }
}

/// FC 0x11: byte count (the payload length, truncated to a byte), then the payload.
pub open spec fn report_slave_id_spec(m: SlaveState) -> Seq<u8> {
    seq![(m.slave_id.len() % 256) as u8] + m.slave_id
}

/// The response PDU (everything between fc and CRC) or an exception code.
pub open spec fn dispatch_spec(m: SlaveState, fc: u8, pdu: Seq<u8>) -> (SlaveState, Result<Seq<u8>, u8>) {
    if fc == 0x01 {
        (m, read_bits_spec(m.coils, pdu))
    } else if fc == 0x02 {
        (m, read_bits_spec(m.discrete, pdu))
    } else if fc == 0x03 {
        (m, read_regs_spec(m.holding, pdu))
    } else if fc == 0x04 {
        (m, read_regs_spec(m.input, pdu))
    } else if fc == 0x05 {
        write_single_coil_spec(m, pdu)
    } else if fc == 0x06 {
        write_single_reg_spec(m, pdu)
    } else if fc == 0x0F {
        write_multi_coils_spec(m, pdu)
    } else if fc == 0x10 {
        write_multi_regs_spec(m, pdu)
    } else if fc == 0x11 {
        (m, Ok(report_slave_id_spec(m)))
    } else {
        (m, Err(exc::ILLEGAL_FUNCTION))
    }
}

/// The reply frame body for a result: `addr fc data...` or `addr fc|0x80 code`.
pub open spec fn reply_body(address: u8, fc: u8, body: Result<Seq<u8>, u8>) -> Seq<u8> {
    match body {
        Ok(data) => seq![address, fc] + data,
        Err(code) => seq![address, fc | 0x80u8, code],
    }
}

/// One request frame handled: the new state and the reply frame, `None` when
/// a real slave stays silent (injected drop, malformed frame, bad CRC, another
/// slave's address or broadcast).
pub open spec fn handle_spec(m: SlaveState, req: Seq<u8>) -> (SlaveState, Option<Seq<u8>>) {
    if m.drop_next > 0 {
        (SlaveState { drop_next: (m.drop_next - 1) as nat, ..m }, None)
    } else if req.len() < 4 || !frame_valid(req) {
        (m, None)
    } else if req[0] == 0 || req[0] != m.address {
        (m, None)
    } else {
        let fc = req[1];
        let pdu = req.subrange(2, req.len() - 2);
        let (m2, body) = match m.force_exception {
            Some(code) => (m, Err(code)),
            None => dispatch_spec(m, fc, pdu),
        };
        (m2, Some(with_crc(reply_body(m.address, fc, body))))
    }
}

/// A new slave: all data zero, the default Report-Slave-ID payload (run
/// indicator on), no faults injected.
pub open spec fn fresh_slave(address: u8, regs: nat, bits: nat) -> SlaveState {
    SlaveState {
        address,
        holding: Seq::new(regs, |i: int| 0u16),
        input: Seq::new(regs, |i: int| 0u16),
        coils: Seq::new(bits, |i: int| false),
        discrete: Seq::new(bits, |i: int| false),
        slave_id: seq![0xFFu8, 0xFFu8],
        drop_next: 0,
        force_exception: None,
    }
}

impl ModbusSlave {
    /// A slave at `address` with `regs` holding & input registers and `bits`
    /// coils & discrete inputs, all zero.
    pub fn new(address: u8, regs: usize, bits: usize) -> (s: Self)
        ensures
            s@ == fresh_slave(address, regs as nat, bits as nat),
    {
        let s = ModbusSlave {
            address,
            holding: vec![0; regs],
            input: vec![0; regs],
            coils: vec![false; bits],
            discrete: vec![false; bits],
            slave_id: vec![0xFF, 0xFF],  // run-indicator on; arbitrary id byte
            drop_next: 0,
            force_exception: None,
        };
        assert(s@.holding =~= Seq::new(regs as nat, |i: int| 0u16));
        assert(s@.input =~= Seq::new(regs as nat, |i: int| 0u16));
        assert(s@.coils =~= Seq::new(bits as nat, |i: int| false));
        assert(s@.discrete =~= Seq::new(bits as nat, |i: int| false));
        s
    }

    pub fn set_holding(&mut self, addr: usize, v: u16)
        requires
            addr < old(self)@.holding.len(),
        ensures
            final(self)@ == (SlaveState { holding: old(self)@.holding.update(addr as int, v), ..old(self)@ }),
    {
        self.holding.set(addr, v);
    }

    pub fn set_input(&mut self, addr: usize, v: u16)
        requires
            addr < old(self)@.input.len(),
        ensures
            final(self)@ == (SlaveState { input: old(self)@.input.update(addr as int, v), ..old(self)@ }),
    {
        self.input.set(addr, v);
    }

    pub fn set_coil(&mut self, addr: usize, v: bool)
        requires
            addr < old(self)@.coils.len(),
        ensures
            final(self)@ == (SlaveState { coils: old(self)@.coils.update(addr as int, v), ..old(self)@ }),
    {
        self.coils.set(addr, v);
    }

    pub fn set_discrete(&mut self, addr: usize, v: bool)
        requires
            addr < old(self)@.discrete.len(),
        ensures
            final(self)@ == (SlaveState { discrete: old(self)@.discrete.update(addr as int, v), ..old(self)@ }),
    {
        self.discrete.set(addr, v);
    }

    pub fn holding(&self, addr: usize) -> (v: u16)
        requires
            addr < self@.holding.len(),
        ensures
            v == self@.holding[addr as int],
    {
        self.holding[addr]
    }

    pub fn coil(&self, addr: usize) -> (v: bool)
        requires
            addr < self@.coils.len(),
        ensures
            v == self@.coils[addr as int],
    {
        self.coils[addr]
    }

    /// Sizes of the holding, input, coil and discrete-input banks.
    pub fn bank_sizes(&self) -> (r: (usize, usize, usize, usize))
        ensures
            r.0 == self@.holding.len(),
            r.1 == self@.input.len(),
            r.2 == self@.coils.len(),
            r.3 == self@.discrete.len(),
    {
        (self.holding.len(), self.input.len(), self.coils.len(), self.discrete.len())
    }

    /// Set the Report-Slave-ID payload (everything after the byte-count).
    pub fn set_slave_id(&mut self, id: Vec<u8>)
        ensures
            final(self)@ == (SlaveState { slave_id: id@, ..old(self)@ }),
    {
        self.slave_id = id;
    }

    /// Ignore the next `n` requests entirely (no response).
    pub fn drop_next(&mut self, n: usize)
        ensures
            final(self)@ == (SlaveState { drop_next: n as nat, ..old(self)@ }),
    {
        self.drop_next = n;
    }

    /// Answer every request with `code` until [`clear_faults`](Self::clear_faults).
    pub fn force_exception(&mut self, code: u8)
        ensures
            final(self)@ == (SlaveState { force_exception: Some(code), ..old(self)@ }),
    {
        self.force_exception = Some(code);
    }

    pub fn clear_faults(&mut self)
        ensures
            final(self)@ == (SlaveState { drop_next: 0, force_exception: None, ..old(self)@ }),
    {
        self.drop_next = 0;
        self.force_exception = None;
    }
}


/// A result with its byte vector taken by its view.
pub open spec fn res_seq(r: Result<Vec<u8>, u8>) -> Result<Seq<u8>, u8> {
    match r {
        Ok(v) => Ok(v@),
        Err(e) => Err(e),
    }
}

/// Packed bits stay below `2^len`.
proof fn lemma_pack_bound(bits: Seq<bool>)
    ensures
        pack_bits(bits) < bit_weight(bits.len()),
    decreases bits.len(),
{
    if bits.len() > 0 {
        lemma_pack_bound(bits.drop_first());
    }
}

fn weight_of(k: usize) -> (w: u8)
    requires
        k < 8,
    ensures
        w == bit_weight(k as nat),
        w > 0,
{
    proof {
        reveal_with_fuel(bit_weight, 9);
    }
    if k == 0 {
        1
    } else if k == 1 {
        2
    } else if k == 2 {
        4
    } else if k == 3 {
        8
    } else if k == 4 {
        16
    } else if k == 5 {
        32
    } else if k == 6 {
        64
    } else {
        128
    }
}

fn bit_at(b: u8, k: usize) -> (r: bool)
    requires
        k < 8,
    ensures
        r == bit_of(b, k as nat),
{
    let w = weight_of(k);
    (b / w) % 2 == 1
}

/// Pack `bank[lo..hi]` (at most eight bits) into one byte.
fn pack_range(bank: &Vec<bool>, lo: usize, hi: usize) -> (b: u8)
    requires
        lo <= hi <= bank@.len(),
        hi - lo <= 8,
    ensures
        b == pack_bits(bank@.subrange(lo as int, hi as int)),
{
    let mut acc: u8 = 0;
    let mut k: usize = hi;
    proof {
        reveal_with_fuel(bit_weight, 9);
    }
    while k > lo
        invariant
            lo <= k <= hi <= bank@.len(),
            hi - lo <= 8,
            acc == pack_bits(bank@.subrange(k as int, hi as int)),
            acc < bit_weight((hi - k) as nat),
            bit_weight(8) == 256,
        decreases k,
    {
        k -= 1;
        proof {
            let t = bank@.subrange(k as int, hi as int);
            assert(t.drop_first() =~= bank@.subrange(k + 1, hi as int));
            assert(t[0] == bank@[k as int]);
            lemma_pack_bound(t);
            lemma_weight_mono((hi - k) as nat, 8);
        }
        let bit: u8 = if bank[k] {
            1
        } else {
            0
        };
        acc = acc * 2 + bit;
    }
    acc
}

proof fn lemma_weight_mono(a: nat, b: nat)
    requires
        a <= b,
    ensures
        bit_weight(a) <= bit_weight(b),
    decreases b,
{
    if a < b {
        lemma_weight_mono(a, (b - 1) as nat);
    }
}

impl ModbusSlave {
    /// Handle one RTU request frame; return the RTU response frame, or `None`
    /// when a real slave would stay silent (bad CRC, wrong address, broadcast,
    /// or an injected drop).
    pub fn handle_frame(&mut self, req: &[u8]) -> (r: Option<Vec<u8>>)
        ensures
            final(self)@ == handle_spec(old(self)@, req@).0,
            match r {
                Some(f) => handle_spec(old(self)@, req@).1 == Some(f@),
                None => handle_spec(old(self)@, req@).1 is None,
            },
    {
        if self.drop_next > 0 {
            self.drop_next -= 1;
            return None;
        }
        if req.len() < 4 || !crc_ok(req) {
            return None;  // RTU slaves silently discard malformed / bad-CRC frames
        }
        let addr = req[0];
        if addr == 0 || addr != self.address {
            return None;  // not for us, or a broadcast (address 0): no reply either
        }
        let fc = req[1];
        let pdu = vstd::slice::slice_subrange(req, 2, req.len() - 2);  // between address and CRC

        let body = match self.force_exception {
            Some(code) => Err(code),
            None => self.dispatch(fc, pdu),
        };

        let mut frame: Vec<u8> = vec![self.address];
        match body {
            Ok(data) => {
                frame.push(fc);
                let mut data = data;
                frame.append(&mut data);
            },
            Err(code) => {
                frame.push(fc | 0x80);
                frame.push(code);
            },
        }
        assert(frame@ =~= reply_body(old(self)@.address, fc, res_seq(body)));
        append_crc(&mut frame);
        Some(frame)
    }

    /// Build the response PDU (everything between fc and CRC) or an exception.
    fn dispatch(&mut self, fc: u8, pdu: &[u8]) -> (r: Result<Vec<u8>, u8>)
        ensures
            (final(self)@, res_seq(r)) == dispatch_spec(old(self)@, fc, pdu@),
    {
        match fc {
            0x01 => self.read_bits(pdu, false),
            0x02 => self.read_bits(pdu, true),
            0x03 => self.read_regs(pdu, false),
            0x04 => self.read_regs(pdu, true),
            0x05 => self.write_single_coil(pdu),
            0x06 => self.write_single_reg(pdu),
            0x0F => self.write_multi_coils(pdu),
            0x10 => self.write_multi_regs(pdu),
            0x11 => Ok(self.report_slave_id()),
            _ => Err(exc::ILLEGAL_FUNCTION),
        }
    }

    fn read_regs(&self, pdu: &[u8], input: bool) -> (r: Result<Vec<u8>, u8>)
        ensures
            res_seq(r) == read_regs_spec(
                if input {
                    self@.input
                } else {
                    self@.holding
                },
                pdu@,
            ),
    {
        if pdu.len() != 4 {
            return Err(exc::ILLEGAL_DATA_VALUE);
        }
        let start = join_be(pdu[0], pdu[1]) as usize;
        let count = join_be(pdu[2], pdu[3]) as usize;
        if count == 0 || count > 125 {
            return Err(exc::ILLEGAL_DATA_VALUE);
        }
        let bank = if input {
            &self.input
        } else {
            &self.holding
        };
        if start + count > bank.len() {
            return Err(exc::ILLEGAL_DATA_ADDRESS);
        }
        let mut out: Vec<u8> = vec![(count * 2) as u8];
        let mut i: usize = start;
        while i < start + count
            invariant
                start <= i <= start + count <= bank@.len(),
                start < 65536,
                count <= 125,
                out@ == seq![(count * 2) as u8] + regs_to_bytes(bank@.subrange(start as int, i as int)),
            decreases start + count - i,
        {
            let (h, l) = split_be(bank[i]);
            out.push(h);
            out.push(l);
            i += 1;
            assert(regs_to_bytes(bank@.subrange(start as int, i as int)) =~= regs_to_bytes(
                bank@.subrange(start as int, i - 1),
            ).push(h).push(l));
            assert(out@ =~= seq![(count * 2) as u8] + regs_to_bytes(bank@.subrange(start as int, i as int)));
        }
        Ok(out)
    }

    fn read_bits(&self, pdu: &[u8], discrete: bool) -> (r: Result<Vec<u8>, u8>)
        ensures
            res_seq(r) == read_bits_spec(
                if discrete {
                    self@.discrete
                } else {
                    self@.coils
                },
                pdu@,
            ),
    {
        if pdu.len() != 4 {
            return Err(exc::ILLEGAL_DATA_VALUE);
        }
        let start = join_be(pdu[0], pdu[1]) as usize;
        let count = join_be(pdu[2], pdu[3]) as usize;
        if count == 0 || count > 2000 {
            return Err(exc::ILLEGAL_DATA_VALUE);
        }
        let bank = if discrete {
            &self.discrete
        } else {
            &self.coils
        };
        if start + count > bank.len() {
            return Err(exc::ILLEGAL_DATA_ADDRESS);
        }
        let nbytes = (count + 7) / 8;
        let ghost bits = bank@.subrange(start as int, (start + count) as int);
        let mut out: Vec<u8> = vec![nbytes as u8];
        let mut j: usize = 0;
        while j < nbytes
            invariant
                start + count <= bank@.len(),
                start < 65536,
                0 < count <= 2000,
                nbytes == packed_len(count as nat),
                bits == bank@.subrange(start as int, (start + count) as int),
                j <= nbytes,
                out@ == seq![nbytes as u8] + bits_to_bytes(bits).take(j as int),
            decreases nbytes - j,
        {
            let lo = start + 8 * j;
            let hi = if 8 * j + 8 <= count {
                lo + 8
            } else {
                start + count
            };
            let b = pack_range(bank, lo, hi);
            proof {
                let e = if 8 * j + 8 <= count {
                    8 * j + 8
                } else {
                    count as int
                };
                assert(bits.subrange(8 * j, e) =~= bank@.subrange(lo as int, hi as int));
                assert(bits_to_bytes(bits)[j as int] == b);
            }
            out.push(b);
            j += 1;
            assert(out@ =~= seq![nbytes as u8] + bits_to_bytes(bits).take(j as int));
        }
        assert(bits_to_bytes(bits).take(j as int) =~= bits_to_bytes(bits));
        Ok(out)
    }

    fn write_single_reg(&mut self, pdu: &[u8]) -> (r: Result<Vec<u8>, u8>)
        ensures
            (final(self)@, res_seq(r)) == write_single_reg_spec(old(self)@, pdu@),
    {
        if pdu.len() != 4 {
            return Err(exc::ILLEGAL_DATA_VALUE);
        }
        let addr = join_be(pdu[0], pdu[1]) as usize;
        let val = join_be(pdu[2], pdu[3]);
        if addr >= self.holding.len() {
            return Err(exc::ILLEGAL_DATA_ADDRESS);
        }
        self.holding.set(addr, val);
        Ok(vstd::slice::slice_to_vec(pdu))  // echo request PDU
    }

    fn write_single_coil(&mut self, pdu: &[u8]) -> (r: Result<Vec<u8>, u8>)
        ensures
            (final(self)@, res_seq(r)) == write_single_coil_spec(old(self)@, pdu@),
    {
        if pdu.len() != 4 {
            return Err(exc::ILLEGAL_DATA_VALUE);
        }
        let addr = join_be(pdu[0], pdu[1]) as usize;
        let val = join_be(pdu[2], pdu[3]);
        if val != 0x0000 && val != 0xFF00 {
            return Err(exc::ILLEGAL_DATA_VALUE);
        }
        if addr >= self.coils.len() {
            return Err(exc::ILLEGAL_DATA_ADDRESS);
        }
        self.coils.set(addr, val == 0xFF00);
        Ok(vstd::slice::slice_to_vec(pdu))
    }

    fn write_multi_regs(&mut self, pdu: &[u8]) -> (r: Result<Vec<u8>, u8>)
        ensures
            (final(self)@, res_seq(r)) == write_multi_regs_spec(old(self)@, pdu@),
    {
        if pdu.len() < 5 {
            return Err(exc::ILLEGAL_DATA_VALUE);
        }
        let start = join_be(pdu[0], pdu[1]) as usize;
        let count = join_be(pdu[2], pdu[3]) as usize;
        let bytecount = pdu[4] as usize;
        if count == 0 || count > 123 || bytecount != count * 2 || pdu.len() != 5 + bytecount {
            return Err(exc::ILLEGAL_DATA_VALUE);
        }
        if start + count > self.holding.len() {
            return Err(exc::ILLEGAL_DATA_ADDRESS);
        }
        let ghost vals = bytes_to_regs(pdu@.skip(5), count as nat);
        let ghost old_regs = self.holding@;
        let mut i: usize = 0;
        while i < count
            invariant
                0 < count <= 123,
                start < 65536,
                pdu@.len() == 5 + 2 * count,
                start + count <= old_regs.len(),
                vals == bytes_to_regs(pdu@.skip(5), count as nat),
                i <= count,
                self.holding@ == old_regs.take(start as int) + vals.take(i as int) + old_regs.skip(
                    start + i,
                ),
                self.input == old(self).input,
                self.coils == old(self).coils,
                self.discrete == old(self).discrete,
                self.slave_id == old(self).slave_id,
                self.drop_next == old(self).drop_next,
                self.force_exception == old(self).force_exception,
                self.address == old(self).address,
                old_regs == old(self).holding@,
            decreases count - i,
        {
            let v = join_be(pdu[5 + i * 2], pdu[6 + i * 2]);
            assert(v == vals[i as int]);
            self.holding.set(start + i, v);
            i += 1;
            assert(self.holding@ =~= old_regs.take(start as int) + vals.take(i as int) + old_regs.skip(
                start + i,
            ));
        }
        assert(vals.take(i as int) =~= vals);
        let echo = vstd::slice::slice_to_vec(vstd::slice::slice_subrange(pdu, 0, 4));  // echo address + count
        assert(echo@ =~= pdu@.take(4));
        Ok(echo)
    }

    fn write_multi_coils(&mut self, pdu: &[u8]) -> (r: Result<Vec<u8>, u8>)
        ensures
            (final(self)@, res_seq(r)) == write_multi_coils_spec(old(self)@, pdu@),
    {
        if pdu.len() < 5 {
            return Err(exc::ILLEGAL_DATA_VALUE);
        }
        let start = join_be(pdu[0], pdu[1]) as usize;
        let count = join_be(pdu[2], pdu[3]) as usize;
        let bytecount = pdu[4] as usize;
        if count == 0 || count > 1968 || bytecount != (count + 7) / 8 || pdu.len() != 5 + bytecount {
            return Err(exc::ILLEGAL_DATA_VALUE);
        }
        if start + count > self.coils.len() {
            return Err(exc::ILLEGAL_DATA_ADDRESS);
        }
        let ghost vals = bytes_to_bits(pdu@.skip(5), count as nat);
        let ghost old_coils = self.coils@;
        let mut i: usize = 0;
        while i < count
            invariant
                0 < count <= 1968,
                start < 65536,
                pdu@.len() == 5 + packed_len(count as nat),
                start + count <= old_coils.len(),
                vals == bytes_to_bits(pdu@.skip(5), count as nat),
                i <= count,
                self.coils@ == old_coils.take(start as int) + vals.take(i as int) + old_coils.skip(
                    start + i,
                ),
                self.input == old(self).input,
                self.holding == old(self).holding,
                self.discrete == old(self).discrete,
                self.slave_id == old(self).slave_id,
                self.drop_next == old(self).drop_next,
                self.force_exception == old(self).force_exception,
                self.address == old(self).address,
                old_coils == old(self).coils@,
            decreases count - i,
        {
            let v = bit_at(pdu[5 + i / 8], i % 8);
            assert(v == vals[i as int]);
            self.coils.set(start + i, v);
            i += 1;
            assert(self.coils@ =~= old_coils.take(start as int) + vals.take(i as int) + old_coils.skip(
                start + i,
            ));
        }
        assert(vals.take(i as int) =~= vals);
        let echo = vstd::slice::slice_to_vec(vstd::slice::slice_subrange(pdu, 0, 4));
        assert(echo@ =~= pdu@.take(4));
        Ok(echo)
    }

    fn report_slave_id(&self) -> (r: Vec<u8>)
        ensures
            r@ == report_slave_id_spec(self@),
    {
        let n = self.slave_id.len();
        let mut out: Vec<u8> = vec![(n % 256) as u8];
        let mut i: usize = 0;
        while i < n
            invariant
                n == self.slave_id@.len(),
                i <= n,
                out@ == seq![(n % 256) as u8] + self.slave_id@.take(i as int),
            decreases n - i,
        {
            out.push(self.slave_id[i]);
            i += 1;
            assert(out@ =~= seq![(n % 256) as u8] + self.slave_id@.take(i as int));
        }
        assert(self.slave_id@.take(i as int) =~= self.slave_id@);
        out
    }
}


// ---------------------------------------------------------------------------
// Laws of the slave
// ---------------------------------------------------------------------------

/// The PDU a request frame carries, read back from the frame.
proof fn lemma_request_pdu(address: u8, pdu: Seq<u8>)
    requires
        pdu.len() >= 1,
    ensures
        frame_valid(request_spec(address, pdu)),
        request_spec(address, pdu).len() == pdu.len() + 3,
        request_spec(address, pdu)[0] == address,
        request_spec(address, pdu)[1] == pdu[0],
        request_spec(address, pdu).subrange(2, request_spec(address, pdu).len() - 2) == pdu.drop_first(),
{
    let f = request_spec(address, pdu);
    lemma_with_crc_is_valid(seq![address] + pdu);
    assert(f.subrange(2, f.len() - 2) =~= pdu.drop_first());
}

/// Every reply the slave sends is a CRC-valid frame that starts with its own
/// address.
pub proof fn lemma_reply_is_framed(m: SlaveState, req: Seq<u8>)
    ensures
        handle_spec(m, req).1 matches Some(f) ==> frame_valid(f) && f[0] == m.address,
{
    if let Some(f) = handle_spec(m, req).1 {
        let fc = req[1];
        let pdu = req.subrange(2, req.len() - 2);
        let body = match m.force_exception {
            Some(code) => Err(code),
            None => dispatch_spec(m, fc, pdu).1,
        };
        let b = reply_body(m.address, fc, body);
        assert(f == with_crc(b));
        lemma_with_crc_is_valid(b);
    }
}

/// A frame that fails the CRC check, is addressed to another slave, or is a
/// broadcast (address 0) gets no reply and changes nothing (once no injected
/// drop is pending).
pub proof fn lemma_silent_on_foreign_or_corrupt(m: SlaveState, req: Seq<u8>)
    requires
        m.drop_next == 0,
        !frame_valid(req) || req[0] != m.address || req[0] == 0,
    ensures
        handle_spec(m, req) == (m, None::<Seq<u8>>),
{
}

/// While an injected drop is pending, the request is ignored and only the
/// pending count goes down: after `drop_next(n)` exactly the next `n` requests
/// are silent.
pub proof fn lemma_drop_is_silent(m: SlaveState, req: Seq<u8>)
    requires
        m.drop_next > 0,
    ensures
        handle_spec(m, req).1 is None,
        handle_spec(m, req).0 == (SlaveState { drop_next: (m.drop_next - 1) as nat, ..m }),
{
}

/// With an exception forced, every frame for this slave is answered
/// `addr, fc | 0x80, code` and no data changes.
pub proof fn lemma_forced_exception(m: SlaveState, pdu: Seq<u8>, code: u8)
    requires
        m.address != 0,
        m.drop_next == 0,
        m.force_exception == Some(code),
        pdu.len() >= 1,
    ensures
        handle_spec(m, request_spec(m.address, pdu)) == (m, Some(
            with_crc(seq![m.address, pdu[0] | 0x80u8, code]),
        )),
{
    lemma_request_pdu(m.address, pdu);
}

proof fn lemma_be16_split(v: u16)
    ensures
        be16(hi_byte(v), lo_byte(v)) == v,
{
}

/// PDU of a write-single-register request: FC 0x06, address, value.
pub open spec fn write_single_pdu(addr: u16, v: u16) -> Seq<u8> {
    seq![0x06u8, hi_byte(addr), lo_byte(addr), hi_byte(v), lo_byte(v)]
}

/// A read gives back what a write wrote: after FC 0x06 stores `v` at a
/// holding register, the slave echoes the request, the register holds `v`,
/// and an FC 0x03 read of that register returns `v` big-endian.
pub proof fn lemma_write_then_read_holding(m: SlaveState, addr: u16, v: u16)
    requires
        m.address != 0,
        m.drop_next == 0,
        m.force_exception is None,
        addr < m.holding.len(),
    ensures
        ({
            let (m1, r1) = handle_spec(m, request_spec(m.address, write_single_pdu(addr, v)));
            let (m2, r2) = handle_spec(m1, request_spec(m.address, read_holding_pdu(addr, 1)));
            &&& m1.holding == m.holding.update(addr as int, v)
            &&& r1 == Some(with_crc(seq![m.address] + write_single_pdu(addr, v)))
            &&& m2 == m1
            &&& r2 == Some(with_crc(seq![m.address, 0x03u8, 2u8, hi_byte(v), lo_byte(v)]))
        }),
{
    let w = write_single_pdu(addr, v);
    lemma_request_pdu(m.address, w);
    lemma_be16_split(addr);
    lemma_be16_split(v);
    let req1 = request_spec(m.address, w);
    assert(req1.subrange(2, req1.len() - 2) =~= w.drop_first());
    let (m1, r1) = handle_spec(m, req1);
    assert(m1.holding == m.holding.update(addr as int, v));
    assert(seq![m.address, 0x06u8] + w.drop_first() =~= seq![m.address] + w);
    let rp = read_holding_pdu(addr, 1);
    lemma_request_pdu(m.address, rp);
    lemma_be16_split(1);
    let req2 = request_spec(m.address, rp);
    let data = seq![2u8] + regs_to_bytes(m1.holding.subrange(addr as int, addr + 1));
    assert(regs_to_bytes(m1.holding.subrange(addr as int, addr + 1)) =~= seq![hi_byte(v), lo_byte(v)]);
    assert(seq![m.address, 0x03u8] + data =~= seq![m.address, 0x03u8, 2u8, hi_byte(v), lo_byte(v)]);
}

/// PDU of a write-single-coil request: FC 0x05, address, 0xFF00 (on) or 0x0000 (off).
pub open spec fn write_coil_pdu(addr: u16, on: bool) -> Seq<u8> {
    seq![0x05u8, hi_byte(addr), lo_byte(addr), if on { 0xFFu8 } else { 0x00u8 }, 0x00u8]
}

/// PDU of a read-coils request: FC 0x01, start, count.
pub open spec fn read_coils_pdu(start: u16, count: u16) -> Seq<u8> {
    seq![0x01u8, hi_byte(start), lo_byte(start), hi_byte(count), lo_byte(count)]
}

/// A coil read gives back what a coil write wrote: after FC 0x05 switches a
/// coil, it holds the new value and an FC 0x01 read of that one coil answers
/// one byte, 1 for on and 0 for off.
pub proof fn lemma_write_then_read_coil(m: SlaveState, addr: u16, on: bool)
    requires
        m.address != 0,
        m.drop_next == 0,
        m.force_exception is None,
        addr < m.coils.len(),
    ensures
        ({
            let (m1, r1) = handle_spec(m, request_spec(m.address, write_coil_pdu(addr, on)));
            let (m2, r2) = handle_spec(m1, request_spec(m.address, read_coils_pdu(addr, 1)));
            &&& m1.coils == m.coils.update(addr as int, on)
            &&& r1 == Some(with_crc(seq![m.address] + write_coil_pdu(addr, on)))
            &&& m2 == m1
            &&& r2 == Some(with_crc(seq![m.address, 0x01u8, 1u8, if on { 1u8 } else { 0u8 }]))
        }),
{
    let w = write_coil_pdu(addr, on);
    lemma_request_pdu(m.address, w);
    lemma_be16_split(addr);
    let req1 = request_spec(m.address, w);
    assert(req1.subrange(2, req1.len() - 2) =~= w.drop_first());
    assert(seq![m.address, 0x05u8] + w.drop_first() =~= seq![m.address] + w);
    let (m1, r1) = handle_spec(m, req1);
    let rp = read_coils_pdu(addr, 1);
    lemma_request_pdu(m.address, rp);
    lemma_be16_split(1);
    let bits = m1.coils.subrange(addr as int, addr + 1);
    assert(bits =~= seq![on]);
    assert(bits.drop_first() =~= Seq::<bool>::empty());
    assert(pack_bits(Seq::<bool>::empty()) == 0);
    assert(bits[0] == on);
    assert(pack_bits(bits) == if on { 1nat } else { 0nat });
    assert(bits.subrange(0, 1) =~= bits);
    assert(bits_to_bytes(bits) =~= seq![if on { 1u8 } else { 0u8 }]);
    let data = seq![1u8] + bits_to_bytes(bits);
    assert(seq![m.address, 0x01u8] + data =~= seq![m.address, 0x01u8, 1u8, if on { 1u8 } else { 0u8 }]);
}

proof fn lemma_bit_weight_pos(k: nat)
    ensures
        bit_weight(k) > 0,
    decreases k,
{
    if k > 0 {
        lemma_bit_weight_pos((k - 1) as nat);
    }
}

/// Bit `k` of a packed sequence is the `k`-th boolean.
proof fn lemma_pack_bit(b: Seq<bool>, k: nat)
    requires
        k < b.len(),
    ensures
        (pack_bits(b) / bit_weight(k)) % 2 == (if b[k as int] { 1nat } else { 0nat }),
    decreases k,
{
    let c: nat = if b[0] { 1nat } else { 0nat };
    let r = pack_bits(b.drop_first());
    assert(pack_bits(b) == c + 2 * r);
    if k > 0 {
        let w = bit_weight((k - 1) as nat);
        lemma_bit_weight_pos((k - 1) as nat);
        assert(pack_bits(b) / 2 == r);
        vstd::arithmetic::div_mod::lemma_div_denominator(pack_bits(b) as int, 2, w as int);
        assert(bit_weight(k) == 2 * w);
        lemma_pack_bit(b.drop_first(), (k - 1) as nat);
        assert(b.drop_first()[k - 1] == b[k as int]);
        assert(pack_bits(b) / bit_weight(k) == r / w);
    } else {
        assert(bit_weight(0) == 1);
        assert((c + 2 * r) % 2 == c) by (nonlinear_arith)
            requires
                c < 2,
        ;
    }
}

proof fn lemma_bit_weight_byte(n: nat)
    requires
        n <= 8,
    ensures
        bit_weight(n) <= 256,
{
    reveal_with_fuel(bit_weight, 9);
}

/// Coils packed into data bytes, as a coil or input read answers them, unpack
/// by the rule that a write of multiple coils reads its data with, back to the
/// same coils.
pub proof fn lemma_packed_bits_unpack(bits: Seq<bool>)
    ensures
        bytes_to_bits(bits_to_bytes(bits), bits.len()) == bits,
{
    let bytes = bits_to_bytes(bits);
    assert forall|i: int| 0 <= i < bits.len() implies #[trigger] bytes_to_bits(bytes, bits.len())[i]
        == bits[i] by {
        let j = i / 8;
        let hi = if 8 * j + 8 <= bits.len() { 8 * j + 8 } else { bits.len() as int };
        let sub = bits.subrange(8 * j, hi);
        assert(j < packed_len(bits.len()));
        lemma_pack_bound(sub);
        lemma_bit_weight_byte(sub.len());
        assert(bytes[j] as nat == pack_bits(sub));
        lemma_pack_bit(sub, (i % 8) as nat);
        assert(sub[i % 8] == bits[i]);
    }
    assert(bytes_to_bits(bytes, bits.len()) =~= bits);
}

/// PDU of a write-multiple-registers request: FC 0x10, start, count, byte
/// count, then the data bytes (two per register).
pub open spec fn write_multi_pdu(start: u16, data: Seq<u8>) -> Seq<u8> {
    let count = (data.len() / 2) as u16;
    seq![0x10u8, hi_byte(start), lo_byte(start), hi_byte(count), lo_byte(count), data.len() as u8] + data
}

/// The FC 0x10 request for `data` at `start`, handled.
#[verifier::spinoff_prover]
proof fn lemma_write_multi_step(m: SlaveState, start: u16, data: Seq<u8>)
    requires
        m.address != 0,
        m.drop_next == 0,
        m.force_exception is None,
        data.len() % 2 == 0,
        2 <= data.len() <= 246,
        start + data.len() / 2 <= m.holding.len(),
    ensures
        ({
            let count = data.len() / 2;
            handle_spec(m, request_spec(m.address, write_multi_pdu(start, data))) == (
                SlaveState { holding: splice(m.holding, start as int, bytes_to_regs(data, count)), ..m },
                Some(
                    with_crc(
                        seq![m.address, 0x10u8, hi_byte(start), lo_byte(start), hi_byte(count as u16), lo_byte(count as u16)],
                    ),
                ),
            )
        }),
{
    let count = data.len() / 2;
    let p = write_multi_pdu(start, data);
    lemma_request_pdu(m.address, p);
    lemma_be16_split(start);
    lemma_be16_split(count as u16);
    let pdu = p.drop_first();
    assert(pdu.skip(5) =~= data);
    assert(pdu.take(4) =~= seq![hi_byte(start), lo_byte(start), hi_byte(count as u16), lo_byte(count as u16)]);
    assert(seq![m.address, 0x10u8] + pdu.take(4) =~= seq![
        m.address,
        0x10u8,
        hi_byte(start),
        lo_byte(start),
        hi_byte(count as u16),
        lo_byte(count as u16),
    ]);
}

/// Byte pairs read as big-endian registers and written out again are the
/// same bytes.
proof fn lemma_regs_bytes_round_trip(data: Seq<u8>)
    requires
        data.len() % 2 == 0,
    ensures
        regs_to_bytes(bytes_to_regs(data, data.len() / 2)) == data,
{
    let vals = bytes_to_regs(data, data.len() / 2);
    let back = regs_to_bytes(vals);
    assert forall|k: int| 0 <= k < data.len() implies #[trigger] back[k] == data[k] by {
        let i = k / 2;
        let v = vals[i];
        assert(v as int == data[2 * i] as int * 256 + data[2 * i + 1] as int);
        assert(hi_byte(v) == data[2 * i]);
        assert(lo_byte(v) == data[2 * i + 1]);
    }
    assert(back =~= data);
}

/// What a splice keeps and what it replaces.
proof fn lemma_splice<T>(s: Seq<T>, start: int, vals: Seq<T>)
    requires
        0 <= start,
        start + vals.len() <= s.len(),
    ensures
        splice(s, start, vals).len() == s.len(),
        forall|i: int| 0 <= i < vals.len() ==> #[trigger] splice(s, start, vals)[start + i] == vals[i],
        forall|j: int|
            0 <= j < s.len() && !(start <= j < start + vals.len()) ==> #[trigger] splice(s, start, vals)[j]
                == s[j],
        splice(s, start, vals).subrange(start, start + vals.len()) == vals,
{
    assert(splice(s, start, vals).subrange(start, start + vals.len()) =~= vals);
}

/// An FC 0x03 read of `count` holding registers from `start`, handled.
#[verifier::spinoff_prover]
proof fn lemma_read_holding_step(m: SlaveState, start: u16, count: u16)
    requires
        m.address != 0,
        m.drop_next == 0,
        m.force_exception is None,
        1 <= count <= 125,
        start + count <= m.holding.len(),
    ensures
        handle_spec(m, request_spec(m.address, read_holding_pdu(start, count))) == (
            m,
            Some(
                with_crc(
                    seq![m.address, 0x03u8, (count * 2) as u8] + regs_to_bytes(
                        m.holding.subrange(start as int, start + count),
                    ),
                ),
            ),
        ),
{
    let rp = read_holding_pdu(start, count);
    lemma_request_pdu(m.address, rp);
    lemma_be16_split(start);
    lemma_be16_split(count);
    let data = regs_to_bytes(m.holding.subrange(start as int, start + count));
    assert(seq![m.address, 0x03u8] + (seq![(count * 2) as u8] + data) =~= seq![m.address, 0x03u8, (count * 2) as u8]
        + data);
}

/// FC 0x10 stores its data big-endian: after writing data bytes `hi, lo` for
/// register `start + i`, that register holds `hi * 256 + lo`; every other
/// register and bank is unchanged, the reply echoes start and count, and an
/// FC 0x03 read of the same range answers exactly the bytes written.
#[verifier::spinoff_prover]
pub proof fn lemma_write_multiple_registers(m: SlaveState, start: u16, data: Seq<u8>)
    requires
        m.address != 0,
        m.drop_next == 0,
        m.force_exception is None,
        data.len() % 2 == 0,
        2 <= data.len() <= 246,
        start + data.len() / 2 <= m.holding.len(),
    ensures
        ({
            let count = data.len() / 2;
            let (m1, r1) = handle_spec(m, request_spec(m.address, write_multi_pdu(start, data)));
            let (m2, r2) = handle_spec(m1, request_spec(m.address, read_holding_pdu(start, count as u16)));
            &&& m1.holding.len() == m.holding.len()
            &&& forall|i: int|
                0 <= i < count ==> #[trigger] m1.holding[start + i] as int == data[2 * i] as int * 256
                    + data[2 * i + 1] as int
            &&& forall|j: int|
                0 <= j < m.holding.len() && !(start <= j < start + count) ==> #[trigger] m1.holding[j]
                    == m.holding[j]
            &&& m1 == (SlaveState { holding: m1.holding, ..m })
            &&& r1 == Some(
                with_crc(
                    seq![m.address, 0x10u8, hi_byte(start), lo_byte(start), hi_byte(count as u16), lo_byte(count as u16)],
                ),
            )
            &&& m2 == m1
            &&& r2 == Some(with_crc(seq![m.address, 0x03u8, data.len() as u8] + data))
        }),
{
    let count = data.len() / 2;
    lemma_write_multi_step(m, start, data);
    let vals = bytes_to_regs(data, count);
    let m1 = SlaveState { holding: splice(m.holding, start as int, vals), ..m };
    lemma_splice(m.holding, start as int, vals);
    assert forall|i: int| 0 <= i < count implies #[trigger] m1.holding[start + i] as int == data[2 * i] as int
        * 256 + data[2 * i + 1] as int by {
        assert(m1.holding[start + i] == vals[i]);
    }
    lemma_read_holding_step(m1, start, count as u16);
    lemma_regs_bytes_round_trip(data);
    assert(seq![m.address, 0x03u8, (count * 2) as u8] + regs_to_bytes(vals) =~= seq![
        m.address,
        0x03u8,
        data.len() as u8,
    ] + data);
}

/// One bit packs into one byte: 1 for on, 0 for off.
proof fn lemma_one_bit_packs(bits: Seq<bool>)
    requires
        bits.len() == 1,
    ensures
        bits_to_bytes(bits) == seq![if bits[0] { 1u8 } else { 0u8 }],
{
    assert(bits.drop_first() =~= Seq::<bool>::empty());
    assert(pack_bits(Seq::<bool>::empty()) == 0);
    assert(pack_bits(bits) == if bits[0] { 1nat } else { 0nat });
    assert(bits.subrange(0, 1) =~= bits);
    assert(bits_to_bytes(bits) =~= seq![if bits[0] { 1u8 } else { 0u8 }]);
}

/// PDU of a read-discrete-inputs request: FC 0x02, start, count.
pub open spec fn read_discrete_pdu(start: u16, count: u16) -> Seq<u8> {
    seq![0x02u8, hi_byte(start), lo_byte(start), hi_byte(count), lo_byte(count)]
}

/// Reading one discrete input (FC 0x02) answers one data byte, 1 when that
/// input is on and 0 when off, and reading one coil (FC 0x01) does the same
/// for the coil; neither read changes the slave.
pub proof fn lemma_read_one_bit(m: SlaveState, addr: u16)
    requires
        m.address != 0,
        m.drop_next == 0,
        m.force_exception is None,
    ensures
        addr < m.discrete.len() ==> handle_spec(m, request_spec(m.address, read_discrete_pdu(addr, 1))) == (
            m,
            Some(with_crc(seq![m.address, 0x02u8, 1u8, if m.discrete[addr as int] { 1u8 } else { 0u8 }])),
        ),
        addr < m.coils.len() ==> handle_spec(m, request_spec(m.address, read_coils_pdu(addr, 1))) == (
            m,
            Some(with_crc(seq![m.address, 0x01u8, 1u8, if m.coils[addr as int] { 1u8 } else { 0u8 }])),
        ),
{
    lemma_be16_split(addr);
    lemma_be16_split(1);
    if addr < m.discrete.len() {
        let rp = read_discrete_pdu(addr, 1);
        lemma_request_pdu(m.address, rp);
        let bits = m.discrete.subrange(addr as int, addr + 1);
        lemma_one_bit_packs(bits);
        let b = if m.discrete[addr as int] { 1u8 } else { 0u8 };
        assert(seq![m.address, 0x02u8] + (seq![1u8] + bits_to_bytes(bits)) =~= seq![m.address, 0x02u8, 1u8, b]);
    }
    if addr < m.coils.len() {
        let rp = read_coils_pdu(addr, 1);
        lemma_request_pdu(m.address, rp);
        let bits = m.coils.subrange(addr as int, addr + 1);
        lemma_one_bit_packs(bits);
        let b = if m.coils[addr as int] { 1u8 } else { 0u8 };
        assert(seq![m.address, 0x01u8] + (seq![1u8] + bits_to_bytes(bits)) =~= seq![m.address, 0x01u8, 1u8, b]);
    }
}

} // verus!

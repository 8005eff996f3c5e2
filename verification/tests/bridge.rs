use warden_sim::bridge::{
    accumulate, dispatch_pending, handle_control_line, hex, pump_step, Bus, SerialEvent, MAX_PENDING,
};
use warden_sim::modbus::{crc_ok, read_holding};

fn bus() -> Bus {
    let mut b = Bus::new(1, 16, 16);
    b.slave.set_holding(2, 0xbeef);
    b
}

#[test]
fn control_seeds_and_reads_registers() {
    let mut s = bus();
    assert_eq!(handle_control_line("holding 5=1234", &mut s), "ok");
    assert_eq!(handle_control_line("get-holding 5", &mut s), "ok 1234");
    assert_eq!(handle_control_line("coil 3=1", &mut s), "ok");
    assert_eq!(handle_control_line("get-coil 3", &mut s), "ok 1");
    assert_eq!(handle_control_line("holding 0xF=0xff", &mut s), "ok");
    assert_eq!(handle_control_line("get-holding 15", &mut s), "ok 255");
    // Out of range must answer err, never panic the bus (16-reg slave).
    assert!(handle_control_line("holding 0x10=0xff", &mut s).starts_with("err"));
    assert!(handle_control_line("get-holding 16", &mut s).starts_with("err"));
    assert!(handle_control_line("coil 16=1", &mut s).starts_with("err"));
    assert_eq!(handle_control_line("ping", &mut s), "ok");
}

#[test]
fn control_rejects_malformed_lines() {
    let mut s = bus();
    assert!(handle_control_line("", &mut s).starts_with("err"));
    assert!(handle_control_line("drop many", &mut s).starts_with("err"));
    assert!(handle_control_line("holding 5", &mut s).starts_with("err"));
    assert!(handle_control_line("exception 300", &mut s).starts_with("err"));
    assert!(handle_control_line("frobnicate 1", &mut s).starts_with("err"));
    assert!(handle_control_line("drop 1 2", &mut s).starts_with("err"));
}

#[test]
fn control_error_replies_are_exact() {
    let mut s = bus();
    assert_eq!(handle_control_line("   ", &mut s), "err empty command");
    assert_eq!(
        handle_control_line("drop 1 2", &mut s),
        "err trailing arguments after 'drop'"
    );
    assert_eq!(handle_control_line("drop many", &mut s), "err bad count 'many'");
    assert_eq!(
        handle_control_line("exception 300", &mut s),
        "err bad exception code '300'"
    );
    assert_eq!(
        handle_control_line("holding 5", &mut s),
        "err expected <addr>=<value>, got '5'"
    );
    assert_eq!(
        handle_control_line("holding 16=1", &mut s),
        "err address 16 out of range (0..16)"
    );
    assert_eq!(handle_control_line("get-coil x", &mut s), "err bad address 'x'");
    assert_eq!(
        handle_control_line("ping  extra", &mut s),
        "err unknown or malformed command 'ping  extra'"
    );
}

#[test]
fn control_faults_drive_the_slave() {
    let mut s = bus();
    assert_eq!(handle_control_line("exception 0x02", &mut s), "ok");
    let nak = s.slave.handle_frame(&read_holding(1, 2, 1)).unwrap();
    assert_eq!(&nak[..3], &[1, 0x83, 0x02]);
    assert_eq!(handle_control_line("clear", &mut s), "ok");
    let reply = s.slave.handle_frame(&read_holding(1, 2, 1)).unwrap();
    assert_eq!(&reply[..5], &[1, 0x03, 2, 0xbe, 0xef]);
    assert_eq!(handle_control_line("drop 1", &mut s), "ok");
    assert!(s.slave.handle_frame(&read_holding(1, 2, 1)).is_none());
    assert!(s.slave.handle_frame(&read_holding(1, 2, 1)).is_some());
    assert_eq!(handle_control_line("discrete 2=7", &mut s), "ok");
    assert_eq!(handle_control_line("input 0=+9", &mut s), "ok");
    let r = s.slave.handle_frame(&warden_sim::modbus::request(1, &[0x04, 0, 0, 0, 1])).unwrap();
    assert_eq!(&r[1..5], &[0x04, 2, 0, 9]);
}

#[test]
fn pending_bytes_accumulate_and_overflow_is_discarded() {
    let mut buf = Vec::new();
    let req = read_holding(1, 2, 1);
    let (a, b) = req.split_at(3);
    assert!(!accumulate(&mut buf, a));
    assert!(!accumulate(&mut buf, b));
    assert_eq!(buf, req);
    let mut s = bus();
    let reply = dispatch_pending(&mut buf, &mut s.slave).unwrap();
    assert!(buf.is_empty());
    assert!(crc_ok(&reply));
    assert_eq!(&reply[..5], &[1, 0x03, 2, 0xbe, 0xef]);
    let big = vec![0u8; MAX_PENDING];
    assert!(!accumulate(&mut buf, &big));
    assert!(accumulate(&mut buf, &[1]));
    assert!(buf.is_empty());
}

#[test]
fn hex_renders_two_lowercase_digits_per_byte() {
    assert_eq!(hex(&[0x01, 0xab, 0x00, 0xff]), "01ab00ff");
    assert_eq!(hex(&[]), "");
}

#[test]
fn bus_is_consistent_when_built() {
    let b = Bus::new(3, 4, 5);
    assert!(b.is_consistent());
    assert_eq!(b.slave.address, 3);
}

/// One serial cycle as the pump runs it: bytes arrive in chunks, the gap
/// closes the frame, the slave answers it.
fn exchange(bus: &mut Bus, chunks: &[&[u8]]) -> Option<Vec<u8>> {
    let mut buf = Vec::new();
    for c in chunks {
        let out = pump_step(&mut buf, &mut bus.slave, SerialEvent::Bytes(c.to_vec()));
        assert!(out.reply.is_none() && !out.dispatched && !out.discarded && !out.stop);
    }
    let out = pump_step(&mut buf, &mut bus.slave, SerialEvent::Gap);
    assert!(out.dispatched && !out.stop);
    assert!(buf.is_empty());
    out.reply
}

#[test]
fn whole_frame_gets_a_valid_reply() {
    let mut s = bus();
    let reply = exchange(&mut s, &[&read_holding(1, 2, 1)]).unwrap();
    assert!(crc_ok(&reply), "reply must carry a valid CRC");
    // addr, fc, byte count, 0xbeef
    assert_eq!(&reply[..5], &[1, 0x03, 2, 0xbe, 0xef]);
}

#[test]
fn frame_split_across_writes_within_gap_is_one_frame() {
    let mut s = bus();
    let req = read_holding(1, 2, 1);
    let (a, b) = req.split_at(3);
    let reply = exchange(&mut s, &[a, b]).unwrap();
    assert_eq!(&reply[..5], &[1, 0x03, 2, 0xbe, 0xef]);
}

#[test]
fn two_frames_separated_by_gap_get_two_replies() {
    let mut s = bus();
    let first = exchange(&mut s, &[&read_holding(1, 2, 1)]).unwrap();
    assert_eq!(&first[..5], &[1, 0x03, 2, 0xbe, 0xef]);
    let second = exchange(&mut s, &[&read_holding(1, 2, 1)]).unwrap();
    assert_eq!(second, first);
}

#[test]
fn injected_drop_is_silence_then_recovery() {
    let mut s = bus();
    assert_eq!(handle_control_line("drop 1", &mut s), "ok");
    assert!(
        exchange(&mut s, &[&read_holding(1, 2, 1)]).is_none(),
        "dropped request must produce silence"
    );
    let reply = exchange(&mut s, &[&read_holding(1, 2, 1)]).unwrap();
    assert_eq!(&reply[..5], &[1, 0x03, 2, 0xbe, 0xef]);
}

#[test]
fn forced_exception_naks_and_clear_recovers() {
    let mut s = bus();
    assert_eq!(handle_control_line("exception 0x02", &mut s), "ok");
    let nak = exchange(&mut s, &[&read_holding(1, 2, 1)]).unwrap();
    assert_eq!(&nak[..3], &[1, 0x83, 0x02], "fc|0x80 + exception code");
    assert_eq!(handle_control_line("clear", &mut s), "ok");
    let reply = exchange(&mut s, &[&read_holding(1, 2, 1)]).unwrap();
    assert_eq!(&reply[..5], &[1, 0x03, 2, 0xbe, 0xef]);
}

#[test]
fn a_mis_split_frame_is_answered_with_silence() {
    let mut s = bus();
    let req = read_holding(1, 2, 1);
    let (a, _) = req.split_at(5);
    assert!(exchange(&mut s, &[a]).is_none());
}

#[test]
fn an_empty_gap_hands_nothing_to_the_slave() {
    let mut s = bus();
    assert_eq!(handle_control_line("drop 1", &mut s), "ok");
    let mut buf = Vec::new();
    // silence with nothing pending must not use up the injected drop
    let out = pump_step(&mut buf, &mut s.slave, SerialEvent::Gap);
    assert!(!out.dispatched && out.reply.is_none() && !out.stop);
    assert!(exchange(&mut s, &[&read_holding(1, 2, 1)]).is_none());
    assert!(exchange(&mut s, &[&read_holding(1, 2, 1)]).is_some());
}

#[test]
fn end_of_stream_flushes_the_last_frame_then_stops() {
    let mut s = bus();
    let mut buf = Vec::new();
    pump_step(&mut buf, &mut s.slave, SerialEvent::Bytes(read_holding(1, 2, 1)));
    let out = pump_step(&mut buf, &mut s.slave, SerialEvent::Eof);
    assert!(out.stop && out.dispatched);
    assert_eq!(&out.reply.unwrap()[..5], &[1, 0x03, 2, 0xbe, 0xef]);
    let out = pump_step(&mut buf, &mut s.slave, SerialEvent::Eof);
    assert!(out.stop && !out.dispatched && out.reply.is_none());
}

#[test]
fn streaming_past_the_cap_is_discarded() {
    let mut s = bus();
    let mut buf = Vec::new();
    let out = pump_step(&mut buf, &mut s.slave, SerialEvent::Bytes(vec![0u8; MAX_PENDING + 1]));
    assert!(out.discarded && buf.is_empty() && !out.dispatched);
}

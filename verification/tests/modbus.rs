use warden_sim::modbus::exc;
use warden_sim::modbus::{append_crc, crc16, crc_ok, read_holding, request, ModbusSlave};

/// Known Modbus RTU CRC vector: `01 03 00 00 00 01` -> low `84`, high `0A`.
#[test]
fn crc_known_vector() {
    assert_eq!(crc16(&[0x01, 0x03, 0x00, 0x00, 0x00, 0x01]), 0x0A84);
    let f = read_holding(1, 0, 1);
    assert_eq!(&f[f.len() - 2..], &[0x84, 0x0A]);
    assert!(crc_ok(&f));
}

#[test]
fn read_holding_returns_values() {
    let mut s = ModbusSlave::new(0x11, 16, 0);
    s.set_holding(2, 0xABCD);
    s.set_holding(3, 0x1234);
    let resp = s.handle_frame(&read_holding(0x11, 2, 2)).unwrap();
    // addr fc bytecount d d d d crc crc
    assert_eq!(resp[0], 0x11);
    assert_eq!(resp[1], 0x03);
    assert_eq!(resp[2], 4); // 2 regs * 2 bytes
    assert_eq!(&resp[3..7], &[0xAB, 0xCD, 0x12, 0x34]);
    assert!(crc_ok(&resp));
}

#[test]
fn write_single_register_updates_and_echoes() {
    let mut s = ModbusSlave::new(1, 8, 0);
    let req = request(1, &[0x06, 0x00, 0x05, 0x07, 0xD0]); // write 2000 -> reg 5
    let resp = s.handle_frame(&req).unwrap();
    assert_eq!(s.holding(5), 2000);
    assert_eq!(&resp[1..6], &[0x06, 0x00, 0x05, 0x07, 0xD0]); // echo
}

#[test]
fn write_multiple_registers() {
    let mut s = ModbusSlave::new(1, 8, 0);
    // FC10 start=0 count=2 bytecount=4 vals=0x1111,0x2222
    let req = request(1, &[0x10, 0, 0, 0, 2, 4, 0x11, 0x11, 0x22, 0x22]);
    let resp = s.handle_frame(&req).unwrap();
    assert_eq!(s.holding(0), 0x1111);
    assert_eq!(s.holding(1), 0x2222);
    assert_eq!(&resp[1..6], &[0x10, 0, 0, 0, 2]); // echo addr+count
}

#[test]
fn coils_write_then_read() {
    let mut s = ModbusSlave::new(1, 0, 16);
    // FC05 write single coil 3 = ON
    s.handle_frame(&request(1, &[0x05, 0, 3, 0xFF, 0x00])).unwrap();
    assert!(s.coil(3));
    // FC01 read coils 0..8 -> bit 3 set => byte 0x08
    let resp = s.handle_frame(&request(1, &[0x01, 0, 0, 0, 8])).unwrap();
    assert_eq!(resp[2], 1); // 1 byte
    assert_eq!(resp[3], 0x08);
}

#[test]
fn illegal_function_returns_exception() {
    let mut s = ModbusSlave::new(1, 8, 0);
    let resp = s.handle_frame(&request(1, &[0x63, 0, 0])).unwrap();
    assert_eq!(resp[1], 0x63 | 0x80);
    assert_eq!(resp[2], exc::ILLEGAL_FUNCTION);
    assert!(crc_ok(&resp));
}

#[test]
fn out_of_range_read_is_illegal_data_address() {
    let mut s = ModbusSlave::new(1, 4, 0);
    let resp = s.handle_frame(&read_holding(1, 2, 10)).unwrap();
    assert_eq!(resp[1], 0x83);
    assert_eq!(resp[2], exc::ILLEGAL_DATA_ADDRESS);
}

#[test]
fn wrong_address_and_bad_crc_are_silent() {
    let mut s = ModbusSlave::new(0x11, 8, 0);
    assert!(s.handle_frame(&read_holding(0x12, 0, 1)).is_none()); // other slave
    let mut bad = read_holding(0x11, 0, 1);
    *bad.last_mut().unwrap() ^= 0xFF; // corrupt CRC
    assert!(s.handle_frame(&bad).is_none());
}

/// A device that ignores the next request: the master must fall through.
#[test]
fn drop_next_models_a_silent_device() {
    let mut s = ModbusSlave::new(1, 8, 0);
    s.drop_next(1);
    assert!(s.handle_frame(&read_holding(1, 0, 1)).is_none()); // ignored
    assert!(s.handle_frame(&read_holding(1, 0, 1)).is_some()); // recovers
}

/// A device that NAKs everything (forced exception) until cleared.
#[test]
fn force_exception_naks_until_cleared() {
    let mut s = ModbusSlave::new(1, 8, 0);
    s.force_exception(exc::ILLEGAL_FUNCTION);
    let resp = s.handle_frame(&read_holding(1, 0, 1)).unwrap();
    assert_eq!(resp[1], 0x83);
    s.clear_faults();
    let resp = s.handle_frame(&read_holding(1, 0, 1)).unwrap();
    assert_eq!(resp[1], 0x03); // normal again
}

#[test]
fn report_slave_id() {
    let mut s = ModbusSlave::new(7, 4, 0);
    s.set_slave_id(vec![0x42, 0xFF]);
    let resp = s.handle_frame(&request(7, &[0x11])).unwrap();
    assert_eq!(resp[1], 0x11);
    assert_eq!(resp[2], 2); // byte count
    assert_eq!(&resp[3..5], &[0x42, 0xFF]);
}

#[test]
fn append_crc_then_crc_ok_accepts() {
    let mut f = vec![0x01, 0x02];
    append_crc(&mut f);
    assert_eq!(f.len(), 4);
    assert!(crc_ok(&f));
    assert!(!crc_ok(&[0x01, 0x02]));
    assert_eq!(crc16(&[]), 0xFFFF);
}

#[test]
fn write_then_read_holding_law_on_values() {
    let mut s = ModbusSlave::new(9, 4, 0);
    let echo = s.handle_frame(&request(9, &[0x06, 0x00, 0x03, 0xBE, 0xEF])).unwrap();
    assert_eq!(echo, request(9, &[0x06, 0x00, 0x03, 0xBE, 0xEF]));
    let resp = s.handle_frame(&read_holding(9, 3, 1)).unwrap();
    let mut expect = vec![9, 0x03, 2, 0xBE, 0xEF];
    append_crc(&mut expect);
    assert_eq!(resp, expect);
}

#[test]
fn read_input_and_discrete_banks() {
    let mut s = ModbusSlave::new(1, 4, 10);
    s.set_input(1, 0x0102);
    s.set_discrete(0, true);
    s.set_discrete(9, true);
    let resp = s.handle_frame(&request(1, &[0x04, 0, 1, 0, 1])).unwrap();
    assert_eq!(&resp[1..5], &[0x04, 2, 0x01, 0x02]);
    // ten bits -> two bytes, bit 0 of byte 0 and bit 1 of byte 1
    let resp = s.handle_frame(&request(1, &[0x02, 0, 0, 0, 10])).unwrap();
    assert_eq!(&resp[1..5], &[0x02, 2, 0x01, 0x02]);
}

#[test]
fn write_multiple_coils_then_read() {
    let mut s = ModbusSlave::new(1, 0, 16);
    // FC0F start=2 count=10 bytecount=2: bits 0b1010_0101, 0b11
    let resp = s.handle_frame(&request(1, &[0x0F, 0, 2, 0, 10, 2, 0xA5, 0x03])).unwrap();
    assert_eq!(&resp[1..6], &[0x0F, 0, 2, 0, 10]);
    let expect = [true, false, true, false, false, true, false, true, true, true];
    for (i, b) in expect.iter().enumerate() {
        assert_eq!(s.coil(2 + i), *b);
    }
    let resp = s.handle_frame(&request(1, &[0x01, 0, 2, 0, 10])).unwrap();
    assert_eq!(&resp[1..5], &[0x01, 2, 0xA5, 0x03]);
}

#[test]
fn malformed_requests_get_illegal_data_value() {
    let mut s = ModbusSlave::new(1, 8, 8);
    // read with a 3-byte PDU body
    let r = s.handle_frame(&request(1, &[0x03, 0, 0, 1])).unwrap();
    assert_eq!(&r[1..3], &[0x83, exc::ILLEGAL_DATA_VALUE]);
    // count zero
    let r = s.handle_frame(&read_holding(1, 0, 0)).unwrap();
    assert_eq!(&r[1..3], &[0x83, exc::ILLEGAL_DATA_VALUE]);
    // coil value neither ON nor OFF
    let r = s.handle_frame(&request(1, &[0x05, 0, 1, 0x12, 0x34])).unwrap();
    assert_eq!(&r[1..3], &[0x85, exc::ILLEGAL_DATA_VALUE]);
    // FC10 byte count mismatch
    let r = s.handle_frame(&request(1, &[0x10, 0, 0, 0, 2, 3, 1, 2, 3])).unwrap();
    assert_eq!(&r[1..3], &[0x90, exc::ILLEGAL_DATA_VALUE]);
    // FC06 past the bank
    let r = s.handle_frame(&request(1, &[0x06, 0, 8, 0, 1])).unwrap();
    assert_eq!(&r[1..3], &[0x86, exc::ILLEGAL_DATA_ADDRESS]);
}

#[test]
fn short_frames_and_broadcast_are_silent() {
    let mut s = ModbusSlave::new(1, 8, 0);
    assert!(s.handle_frame(&[]).is_none());
    assert!(s.handle_frame(&[1, 3, 0]).is_none());
    assert!(s.handle_frame(&read_holding(0, 0, 1)).is_none());
}

/// A broadcast (address 0) never gets a reply, even at a slave set to address 0.
#[test]
fn broadcast_is_silent() {
    let mut s = ModbusSlave::new(0, 8, 0);
    assert!(s.handle_frame(&read_holding(0, 0, 1)).is_none());
    assert!(s.handle_frame(&request(0, &[0x06, 0, 1, 0, 5])).is_none());
    assert_eq!(s.holding(1), 0);
}

/// Eleven coils read out as packed bytes and written back with FC 0x0F into a
/// blank slave come back as the same coils.
#[test]
fn packed_coils_written_back_are_the_same_coils() {
    let pattern = [true, false, true, true, false, false, true, false, true, true, false];
    let mut a = ModbusSlave::new(1, 0, 16);
    for (i, on) in pattern.iter().enumerate() {
        a.set_coil(i, *on);
    }
    let resp = a.handle_frame(&request(1, &[0x01, 0, 0, 0, 11])).unwrap();
    assert_eq!(resp[2], 2);
    assert_eq!(&resp[3..5], &[0x4D, 0x03]);
    let mut pdu = vec![0x0F, 0, 0, 0, 11, 2];
    pdu.extend_from_slice(&resp[3..5]);
    let mut b = ModbusSlave::new(1, 0, 16);
    b.handle_frame(&request(1, &pdu)).unwrap();
    for (i, on) in pattern.iter().enumerate() {
        assert_eq!(b.coil(i), *on);
    }
    assert!(!b.coil(11));
}

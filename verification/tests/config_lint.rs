use warden_sim::config_lint::{check, parse_ini_mcu_loads, parse_reserved_ranges, McuLoad, Range};

// The exact idblock .ini that bricked c8a3: Hpmcu at 0x40000.
const TB_INI: &str = r#"
[LOADER_OPTION]
NUM=3
LOADER1=FlashData
LOADER2=Hpmcu
LOADER3=FlashBoot
FlashData=bin/rv11/rv1106_ddr.bin
Hpmcu=bin/rv11/rv1106_hpmcu_tb.bin
FlashBoot=bin/rv11/rv1106_spl.bin
[LOADER2_PARAM]
LOAD_ADDR=0x40000
FLAG=0x10007
"#;

// Our board's actual loader: no Hpmcu at all.
const NONTB_INI: &str = "[LOADER_OPTION]\nNUM=2\nLOADER1=FlashData\nLOADER2=FlashBoot\n";

const DT_WITH_RTOS: &str = r#"
    reserved-memory {
        #address-cells = <1>;
        #size-cells = <1>;
        ranges;
        rtos@40000 { reg = <0x40000 0x3c000>; no-map; };
        ramoops@0f000000 { compatible = "ramoops"; reg = <0x0f000000 0x00100000>; };
    };
"#;
const DT_NO_RTOS: &str = r#"
    reserved-memory {
        ranges;
        ramoops@0f000000 { compatible = "ramoops"; reg = <0x0f000000 0x00100000>; };
    };
"#;

#[test]
fn parses_hpmcu_load_addr() {
    let loads = parse_ini_mcu_loads(TB_INI);
    assert_eq!(loads.len(), 1);
    assert_eq!(loads[0].name, "Hpmcu");
    assert_eq!(loads[0].load_addr, 0x40000);
}

#[test]
fn nontb_ini_has_no_mcu_loads() {
    assert!(parse_ini_mcu_loads(NONTB_INI).is_empty());
}

#[test]
fn parses_reserved_ranges() {
    let r = parse_reserved_ranges(DT_WITH_RTOS);
    assert_eq!(r.len(), 2);
    assert!(r.iter().any(|x| x.start == 0x40000 && x.size == 0x3c000));
    assert!(r.iter().any(|x| x.start == 0x0f00_0000));
}

/// The c8a3 brick, prevented: Hpmcu@0x40000 with NO reserving node -> a finding.
#[test]
fn flags_the_c8a3_brick() {
    let loads = parse_ini_mcu_loads(TB_INI);
    let reserved = parse_reserved_ranges(DT_NO_RTOS);
    let f = check(&loads, &reserved);
    assert_eq!(f.len(), 1);
    assert_eq!(f[0].load.load_addr, 0x40000);
}

/// The fix: add the rtos@40000 reservation -> the same config passes.
#[test]
fn passes_when_rtos_reserved() {
    let loads = parse_ini_mcu_loads(TB_INI);
    let reserved = parse_reserved_ranges(DT_WITH_RTOS);
    assert!(check(&loads, &reserved).is_empty());
}

/// Our board (no boot-loaded MCU) always passes, reserved or not.
#[test]
fn nontb_board_always_passes() {
    let loads = parse_ini_mcu_loads(NONTB_INI);
    assert!(check(&loads, &parse_reserved_ranges(DT_NO_RTOS)).is_empty());
}

// A reserving node whose LABEL and a sibling property both contain "reg", with
// an unrelated cell property (`interrupts`) right before the real `reg`.
const DT_REG_SUBSTRING: &str = r#"
    reserved-memory {
        #address-cells = <1>;
        #size-cells = <1>;
        ranges;
        region-a@40000 { interrupts = <0 43 4>; reg-names = "ctrl"; reg = <0x40000 0x3c000>; no-map; };
    };
"#;

/// `reg` must match as a whole property token, not a bare substring.
#[test]
fn reg_token_not_substring() {
    let r = parse_reserved_ranges(DT_REG_SUBSTRING);
    assert_eq!(r.len(), 1, "only the real `reg` property is a range: {r:?}");
    assert_eq!(r[0].start, 0x40000);
    assert_eq!(r[0].size, 0x3c000);
}

// A future coprocessor loader named nothing like hpmcu/mcu/amp, at an
// unreserved DRAM address.
const UNKNOWN_MCU_INI: &str = r#"
[LOADER_OPTION]
NUM=2
LOADER1=FlashData
LOADER2=Rtos
FlashData=bin/rv11/rv1106_ddr.bin
Rtos=bin/rv11/rv1106_rtos.bin
[LOADER2_PARAM]
LOAD_ADDR=0x40000
"#;

/// Fail closed: a loader that isn't a known-safe boot component and declares a
/// LOAD_ADDR is checked, even though its name matches no MCU keyword.
#[test]
fn unknown_coprocessor_name_is_flagged() {
    let loads = parse_ini_mcu_loads(UNKNOWN_MCU_INI);
    assert_eq!(
        loads.len(),
        1,
        "the unknown loader must be checked: {loads:?}"
    );
    assert_eq!(loads[0].load_addr, 0x40000);
    // and it's caught when no reserved-memory node covers it:
    assert_eq!(check(&loads, &parse_reserved_ranges(DT_NO_RTOS)).len(), 1);
}

// Coprocessor names that merely *contain* a safe boot-chain word.
const SUBSTRING_TRAP_INI: &str = r#"
[LOADER_OPTION]
NUM=4
LOADER1=FlashData
LOADER2=AudioLoader
LOADER3=SplRtos
LOADER4=Bl32
FlashData=bin/ddr.bin
AudioLoader=bin/audio.bin
SplRtos=bin/rtos.bin
Bl32=bin/bl32.bin
[LOADER2_PARAM]
LOAD_ADDR=0x50000
[LOADER3_PARAM]
LOAD_ADDR=0x60000
[LOADER4_PARAM]
LOAD_ADDR=0x70000
"#;

/// The safe allowlist matches a WHOLE normalized name, never a substring.
#[test]
fn safe_loader_is_whole_name_not_substring() {
    let loads = parse_ini_mcu_loads(SUBSTRING_TRAP_INI);
    let mut addrs: Vec<u64> = loads.iter().map(|l| l.load_addr).collect();
    addrs.sort();
    assert_eq!(addrs, vec![0x50000, 0x60000, 0x70000], "loads: {loads:?}");
}

#[test]
fn range_contains_is_half_open_to_the_top() {
    let r = Range { start: 0x1000, size: 0x100 };
    assert!(r.contains(0x1000));
    assert!(r.contains(0x10ff));
    assert!(!r.contains(0x1100));
    assert!(!r.contains(0xfff));
    let top = Range { start: u64::MAX - 1, size: 10 };
    assert!(top.contains(u64::MAX - 1));
    assert!(top.contains(u64::MAX));
    let edge = Range { start: u64::MAX - 1, size: 1 };
    assert!(!edge.contains(u64::MAX));
    assert!(!Range { start: 5, size: 0 }.contains(5));
}

#[test]
fn finding_message_names_the_load() {
    let loads = vec![McuLoad {
        loader: "LOADER2".to_string(),
        name: "Hpmcu".to_string(),
        load_addr: 0x40000,
    }];
    let f = check(&loads, &[]);
    assert_eq!(f.len(), 1);
    assert_eq!(f[0].load, loads[0]);
    assert_eq!(
        f[0].msg,
        "LOADER2=Hpmcu loads MCU firmware at 0x40000 but no reserved-memory node covers it: \
         kernel/MCU DRAM collision (the 0x40000 brick class)"
    );
}

#[test]
fn ini_comments_case_and_decimal_addresses() {
    let ini = "[LOADER_OPTION] ; options\nloader2 = Rtos # the coprocessor\n[Loader2_Param]\nload_addr = 327680\n";
    let loads = parse_ini_mcu_loads(ini);
    assert_eq!(loads.len(), 1);
    assert_eq!(loads[0].loader, "LOADER2");
    assert_eq!(loads[0].name, "Rtos");
    assert_eq!(loads[0].load_addr, 327680);
}

#[test]
fn ini_last_load_addr_wins_and_bad_numbers_are_ignored() {
    let ini = "[LOADER_OPTION]\nLOADER1=Mcu\n[LOADER1_PARAM]\nLOAD_ADDR=0x10\nLOAD_ADDR=0x20\nLOAD_ADDR=zz\n";
    let loads = parse_ini_mcu_loads(ini);
    assert_eq!(loads.len(), 1);
    assert_eq!(loads[0].load_addr, 0x20);
    // a loader without a LOAD_ADDR produces nothing
    assert!(parse_ini_mcu_loads("[LOADER_OPTION]\r\nLOADER1=Mcu\r\n").is_empty());
}

#[test]
fn unbalanced_reserved_block_runs_to_the_end() {
    let dt = "reserved-memory { a { reg = <0x1 0x2>; ";
    let r = parse_reserved_ranges(dt);
    assert_eq!(r, vec![Range { start: 1, size: 2 }]);
    // regs outside any reserved-memory node are ignored
    let dt2 = "memory { reg = <0x5 0x6>; }; reserved-memory { x { reg = <7 8>; }; }; y { reg = <9 10>; };";
    assert_eq!(parse_reserved_ranges(dt2), vec![Range { start: 7, size: 8 }]);
    // no reserved-memory node at all
    assert!(parse_reserved_ranges("reg = <1 2>;").is_empty());
}

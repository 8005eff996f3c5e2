# warden_sim

Host-side models of the RV1106 (Luckfox Pico 86 Panel) hardware and the
tooling around them, written in Verus: the library's functions in `src/`
carry contracts that Verus proves; the command-line front ends in `app/`
(sockets, files, arguments) are ordinary, unverified Rust.

Modules (`src/`):

- `membus`: the 32-bit register/SRAM bus seam (`MemBus`) and an in-memory
  word map (`SimBus`), modelled as a map from address to word. The two sides
  of a mailbox share one bus by borrowing it in turn (each model step takes
  `&mut B`); there are no aliasing handles.
- `cru`: the CRU reset ladder (global software reset, DesignWare watchdog
  backstop) and the boot-mode register that survives a warm reset.
- `hpmcu`: the HPMCU watchdog firmware's poll loop (boot grace, heartbeat
  timeout, disarm).
- `modbus`: a Modbus RTU slave: CRC-16 framing, the data-plane function codes,
  exception replies and injected faults.
- `npu`: the `/proc/rknpu/load` text and its parser.
- `rga`: a recording model of the RGA `improcess` call.
- `config_lint`: loader `.ini` and devicetree parsing, and the check that
  every MCU firmware load sits inside a `reserved-memory` range.
- `bridge`: the RS-485 bridge's decisions (the serial pump step: frame
  accumulation, hand-off on a gap or the end of the stream; the
  control-channel commands).
- `text`: the character-level helpers the parsers and formatters share.

`app/` holds the command-line front ends (`rs485-bridge`, `config-lint`):
argument handling, sockets, files, logging and the read loop that feeds the
pump step.

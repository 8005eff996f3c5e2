//! config-lint: static target-config checks the behavioural sim cannot cover.
//!
//! The boot-loaded MCU's load address (`0x40000`) is a `reserved-memory`
//! carve-out on some boards but plain kernel RAM on others, so the coprocessor
//! firmware and the kernel can fight over the same DRAM and hang the board. No
//! sim catches that; it needs a static check against the target devicetree:
//! **every address the idblock loader drops MCU firmware to must sit inside a
//! `reserved-memory` node.**
//!
//! This module parses the two authoritative artifacts (the rkbin loader
//! `.ini` and the built/target devicetree) and reports any MCU load that would
//! collide.

use vstd::prelude::*;
use crate::text::{
    chars_eq, chars_eq_str, chars_of, hex, is_alnum, is_ascii_alnum, lower, parse_uint,
    parse_unsigned, push_chars, push_hex, push_str, string_of, to_lower, trim, trim_chars,
    words,
};

verus! {

broadcast use vstd::string::group_string_axioms;

/// One MCU/coprocessor firmware load declared by the loader `.ini`.
#[derive(Debug, Clone, PartialEq, Eq)]
pub struct McuLoad {
    /// e.g. "LOADER2"
    pub loader: String,
    /// e.g. "Hpmcu"
    pub name: String,
    pub load_addr: u64,
}

impl View for McuLoad {
    type V = (Seq<char>, Seq<char>, u64);

    open spec fn view(&self) -> (Seq<char>, Seq<char>, u64) {
        (self.loader@, self.name@, self.load_addr)
    }
}

/// A `reserved-memory` range `[start, start+size)`.
#[derive(Debug, Clone, Copy, PartialEq, Eq, Structural)]
pub struct Range {
    pub start: u64,
    pub size: u64,
}

/// Whether `r` covers `addr`: the half-open `[start, start + size)`, taken
/// over the integers so a range that reaches the top of the address space
/// covers `u64::MAX` too.
pub open spec fn range_contains(r: Range, addr: u64) -> bool {
    addr >= r.start && (addr as int) < (r.start as int) + (r.size as int)
}

impl Range {
    pub fn contains(&self, addr: u64) -> (b: bool)
        ensures
            b == range_contains(*self, addr),
    {
        addr >= self.start && addr - self.start < self.size
    }
}

#[derive(Debug, Clone, PartialEq, Eq)]
pub struct Finding {
    pub load: McuLoad,
    pub msg: String,
}

/// Whether some range of `reserved` covers `addr`.
pub open spec fn covered(reserved: Seq<Range>, addr: u64) -> bool {
    exists|i: int| 0 <= i < reserved.len() && range_contains(#[trigger] reserved[i], addr)
}

/// The message of a finding for `loader=name` loading at `addr`.
pub open spec fn finding_msg(loader: Seq<char>, name: Seq<char>, addr: u64) -> Seq<char> {
    loader + "="@ + name + " loads MCU firmware at 0x"@ + hex(addr as nat)
        + " but no reserved-memory node covers it: kernel/MCU DRAM collision (the 0x40000 brick class)"@
}

/// The loads no reserved range covers, in their order.
pub open spec fn uncovered(loads: Seq<(Seq<char>, Seq<char>, u64)>, reserved: Seq<Range>) -> Seq<
    (Seq<char>, Seq<char>, u64),
>
    decreases loads.len(),
{
    if loads.len() == 0 {
        Seq::empty()
    } else {
        let l = loads.last();
        if covered(reserved, l.2) {
            uncovered(loads.drop_last(), reserved)
        } else {
            uncovered(loads.drop_last(), reserved).push(l)
        }
    }
}

fn covered_exec(reserved: &[Range], addr: u64) -> (b: bool)
    ensures
        b == covered(reserved@, addr),
{
    let mut i: usize = 0;
    while i < reserved.len()
        invariant
            i <= reserved@.len(),
            forall|j: int| 0 <= j < i ==> !range_contains(#[trigger] reserved@[j], addr),
        decreases reserved@.len() - i,
    {
        if reserved[i].contains(addr) {
            return true;
        }
        i += 1;
    }
    false
}

fn finding_message(loader: &String, name: &String, addr: u64) -> (m: String)
    ensures
        m@ == finding_msg(loader@, name@, addr),
{
    let mut m = String::new();
    push_str(&mut m, loader.as_str());
    push_str(&mut m, "=");
    push_str(&mut m, name.as_str());
    push_str(&mut m, " loads MCU firmware at 0x");
    push_hex(&mut m, addr);
    push_str(
        &mut m,
        " but no reserved-memory node covers it: kernel/MCU DRAM collision (the 0x40000 brick class)",
    );
    assert(m@ =~= finding_msg(loader@, name@, addr));
    m
}

/// The check: every MCU load must land inside a reserved-memory range. One
/// finding per load that no range covers, in the loads' order.
pub fn check(loads: &[McuLoad], reserved: &[Range]) -> (f: Vec<Finding>)
    ensures
        ({
            let u = uncovered(Seq::new(loads@.len(), |i: int| loads@[i]@), reserved@);
            &&& f@.len() == u.len()
            &&& forall|k: int|
                0 <= k < f@.len() ==> {
                    &&& (#[trigger] f@[k]).load@ == u[k]
                    &&& f@[k].msg@ == finding_msg(u[k].0, u[k].1, u[k].2)
                }
        }),
{
    let ghost lv = Seq::new(loads@.len(), |i: int| loads@[i]@);
    let mut f: Vec<Finding> = Vec::new();
    let mut i: usize = 0;
    while i < loads.len()
        invariant
            i <= loads@.len(),
            lv == Seq::new(loads@.len(), |i: int| loads@[i]@),
            ({
                let u = uncovered(lv.take(i as int), reserved@);
                &&& f@.len() == u.len()
                &&& forall|k: int|
                    0 <= k < f@.len() ==> {
                        &&& (#[trigger] f@[k]).load@ == u[k]
                        &&& f@[k].msg@ == finding_msg(u[k].0, u[k].1, u[k].2)
                    }
            }),
        decreases loads@.len() - i,
    {
        let l = &loads[i];
        proof {
            assert(lv.take(i + 1).drop_last() =~= lv.take(i as int));
            assert(lv.take(i + 1).last() == l@);
        }
        if !covered_exec(reserved, l.load_addr) {
            let load = McuLoad { loader: l.loader.clone(), name: l.name.clone(), load_addr: l.load_addr };
            let msg = finding_message(&l.loader, &l.name, l.load_addr);
            f.push(Finding { load, msg });
        }
        i += 1;
    }
    assert(lv.take(i as int) =~= lv);
    f
}

// ---------------------------------------------------------------------------
// Names and numbers
// ---------------------------------------------------------------------------

/// A character that can appear inside a devicetree node/property identifier.
pub open spec fn is_ident(c: char) -> bool {
    is_alnum(c) || c == '_' || c == '-'
}

fn is_ident_char(c: char) -> (b: bool)
    ensures
        b == is_ident(c),
{
    is_ascii_alnum(c) || c == '_' || c == '-'
}

/// A number as the loader `.ini` and the devicetree write it: surrounding
/// whitespace ignored, `0x`/`0X` for hexadecimal, decimal otherwise.
pub open spec fn parse_addr_spec(s: Seq<char>) -> Option<u64> {
    let t = trim(s);
    let r = if t.len() >= 2 && t[0] == '0' && (t[1] == 'x' || t[1] == 'X') {
        parse_unsigned(t.skip(2), 16, u64::MAX as nat)
    } else {
        parse_unsigned(t, 10, u64::MAX as nat)
    };
    match r {
        Some(v) => Some(v as u64),
        None => None,
    }
}

fn parse_addr(s: &[char]) -> (r: Option<u64>)
    ensures
        r == parse_addr_spec(s@),
{
    let t = trim_chars(s);
    if t.len() >= 2 && t[0] == '0' && (t[1] == 'x' || t[1] == 'X') {
        let h = crate::text::slice_of(t.as_slice(), 2, t.len());
        assert(h@ =~= t@.skip(2));
        parse_uint(h.as_slice(), 16, u64::MAX)
    } else {
        parse_uint(t.as_slice(), 10, u64::MAX)
    }
}

/// A loader name reduced to its ASCII letters and digits, lower-cased.
pub open spec fn normalize(s: Seq<char>) -> Seq<char>
    decreases s.len(),
{
    if s.len() == 0 {
        Seq::empty()
    } else if is_alnum(s.last()) {
        normalize(s.drop_last()).push(lower(s.last()))
    } else {
        normalize(s.drop_last())
    }
}

/// The normal RK boot-chain components (DDR init, SPL/miniloader, the secure
/// monitor, U-Boot), by normalized whole name.
pub open spec fn is_safe_name(n: Seq<char>) -> bool {
    ||| n == "flashdata"@
    ||| n == "flashboot"@
    ||| n == "nandboot"@
    ||| n == "nandboot1"@
    ||| n == "nandboot2"@
    ||| n == "sdboot"@
    ||| n == "emmcboot"@
    ||| n == "spinorboot"@
    ||| n == "ddr"@
    ||| n == "usbplug"@
    ||| n == "spl"@
    ||| n == "uboot"@
    ||| n == "loader"@
    ||| n == "miniloader"@
    ||| n == "trust"@
    ||| n == "tee"@
    ||| n == "atf"@
    ||| n == "bl31"@
    ||| n == "fsbl"@
    ||| n == "idblock"@
}

/// Whether a loader is part of the normal boot chain rather than boot-loaded
/// coprocessor firmware: its whole normalized name is on the allowlist (never
/// a substring match). Anything else that declares a LOAD_ADDR is checked
/// (fail closed).
pub open spec fn known_safe_loader(name: Seq<char>) -> bool {
    is_safe_name(normalize(name))
}

fn is_known_safe_loader(name: &[char]) -> (b: bool)
    ensures
        b == known_safe_loader(name@),
{
    let mut n: Vec<char> = Vec::new();
    let mut i: usize = 0;
    while i < name.len()
        invariant
            i <= name@.len(),
            n@ == normalize(name@.take(i as int)),
        decreases name@.len() - i,
    {
        proof {
            assert(name@.take(i + 1).drop_last() =~= name@.take(i as int));
            assert(name@.take(i + 1).last() == name@[i as int]);
        }
        if is_ascii_alnum(name[i]) {
            n.push(to_lower(name[i]));
        }
        i += 1;
    }
    assert(name@.take(i as int) =~= name@);
    let n = n.as_slice();
    chars_eq_str(n, "flashdata") || chars_eq_str(n, "flashboot") || chars_eq_str(n, "nandboot")
        || chars_eq_str(n, "nandboot1") || chars_eq_str(n, "nandboot2") || chars_eq_str(n, "sdboot")
        || chars_eq_str(n, "emmcboot") || chars_eq_str(n, "spinorboot") || chars_eq_str(n, "ddr")
        || chars_eq_str(n, "usbplug") || chars_eq_str(n, "spl") || chars_eq_str(n, "uboot")
        || chars_eq_str(n, "loader") || chars_eq_str(n, "miniloader") || chars_eq_str(n, "trust")
        || chars_eq_str(n, "tee") || chars_eq_str(n, "atf") || chars_eq_str(n, "bl31")
        || chars_eq_str(n, "fsbl") || chars_eq_str(n, "idblock")
}


// ---------------------------------------------------------------------------
// The loader .ini
// ---------------------------------------------------------------------------

/// The lines of a text: the pieces between `\n` separators.
#[verifier::opaque]
pub open spec fn split_lines(s: Seq<char>) -> Seq<Seq<char>>
    decreases s.len(),
{
    match crate::text::first_index(s, '\n') {
        Some(i) => if 0 <= i < s.len() {
            seq![s.take(i)] + split_lines(s.skip(i + 1))
        } else {
            seq![s]
        },
        None => seq![s],
    }
}

/// Length of a raw line before its comment (from the first `#` or `;`).
pub open spec fn comment_free_len(s: Seq<char>) -> nat
    decreases s.len(),
{
    if s.len() == 0 || s[0] == '#' || s[0] == ';' {
        0
    } else {
        1 + comment_free_len(s.drop_first())
    }
}

/// A raw line with its comment cut and surrounding whitespace trimmed.
pub open spec fn clean_line(raw: Seq<char>) -> Seq<char> {
    trim(raw.take(comment_free_len(raw) as int))
}

/// What the scan of a loader `.ini` has gathered so far: the current section,
/// the `LOADERn=<name>` entries of `[LOADER_OPTION]` (key upper-cased), and
/// every `LOAD_ADDR` seen with its section name upper-cased, in order.
pub struct IniState {
    pub section: Seq<char>,
    pub loaders: Seq<(Seq<char>, Seq<char>)>,
    pub addrs: Seq<(Seq<char>, u64)>,
}

pub open spec fn ini_start() -> IniState {
    IniState { section: Seq::empty(), loaders: Seq::empty(), addrs: Seq::empty() }
}

/// One raw line of the `.ini` read into the scan state.
#[verifier::opaque]
pub open spec fn ini_step(st: IniState, raw: Seq<char>) -> IniState {
    let line = clean_line(raw);
    if line.len() == 0 {
        st
    } else if line.len() >= 2 && line[0] == '[' && line.last() == ']' {
        IniState { section: trim(line.subrange(1, line.len() - 1)), ..st }
    } else {
        match crate::text::split_once(line, '=') {
            None => st,
            Some((k0, v0)) => {
                let k = trim(k0);
                let v = trim(v0);
                let ku = crate::text::upper_seq(k);
                if st.section == "LOADER_OPTION"@ && "LOADER"@.len() <= ku.len() && ku.take(
                    "LOADER"@.len() as int,
                ) == "LOADER"@ {
                    IniState { loaders: st.loaders.push((ku, v)), ..st }
                } else if crate::text::lower_seq(k) == crate::text::lower_seq("LOAD_ADDR"@) {
                    match parse_addr_spec(v) {
                        Some(a) => IniState {
                            addrs: st.addrs.push((crate::text::upper_seq(st.section), a)),
                            ..st
                        },
                        None => st,
                    }
                } else {
                    st
                }
            },
        }
    }
}

/// The scan state after reading `lines` in order from `st`.
#[verifier::opaque]
pub open spec fn fold_lines(st: IniState, lines: Seq<Seq<char>>) -> IniState
    decreases lines.len(),
{
    if lines.len() == 0 {
        st
    } else {
        fold_lines(ini_step(st, lines[0]), lines.drop_first())
    }
}

/// The `LOAD_ADDR` last recorded for section `key`, if any.
pub open spec fn lookup_last(addrs: Seq<(Seq<char>, u64)>, key: Seq<char>) -> Option<u64>
    decreases addrs.len(),
{
    if addrs.len() == 0 {
        None
    } else if addrs.last().0 == key {
        Some(addrs.last().1)
    } else {
        lookup_last(addrs.drop_last(), key)
    }
}

/// The MCU loads the scan found: each `LOADERn=<name>` whose name is not a
/// known boot-chain component and whose `[LOADERn_PARAM]` section declared a
/// `LOAD_ADDR`, in `[LOADER_OPTION]` order.
pub open spec fn mcu_loads(loaders: Seq<(Seq<char>, Seq<char>)>, addrs: Seq<(Seq<char>, u64)>) -> Seq<
    (Seq<char>, Seq<char>, u64),
>
    decreases loaders.len(),
{
    if loaders.len() == 0 {
        Seq::empty()
    } else {
        let rest = mcu_loads(loaders.drop_last(), addrs);
        let (l, n) = loaders.last();
        if known_safe_loader(n) {
            rest
        } else {
            match lookup_last(addrs, l + "_PARAM"@) {
                Some(a) => rest.push((l, n, a)),
                None => rest,
            }
        }
    }
}

/// The MCU firmware loads a loader `.ini` declares.
pub open spec fn ini_mcu_loads(ini: Seq<char>) -> Seq<(Seq<char>, Seq<char>, u64)> {
    let st = fold_lines(ini_start(), split_lines(ini));
    mcu_loads(st.loaders, st.addrs)
}

pub open spec fn pairs_view(v: Seq<(Vec<char>, Vec<char>)>) -> Seq<(Seq<char>, Seq<char>)> {
    Seq::new(v.len(), |i: int| (v[i].0@, v[i].1@))
}

pub open spec fn addrs_view(v: Seq<(Vec<char>, u64)>) -> Seq<(Seq<char>, u64)> {
    Seq::new(v.len(), |i: int| (v[i].0@, v[i].1))
}

struct IniScan {
    section: Vec<char>,
    loaders: Vec<(Vec<char>, Vec<char>)>,
    addrs: Vec<(Vec<char>, u64)>,
}

impl View for IniScan {
    type V = IniState;

    closed spec fn view(&self) -> IniState {
        IniState {
            section: self.section@,
            loaders: pairs_view(self.loaders@),
            addrs: addrs_view(self.addrs@),
        }
    }
}

fn clean(raw: &[char]) -> (line: Vec<char>)
    ensures
        line@ == clean_line(raw@),
{
    let mut n: usize = 0;
    assert(raw@.skip(0) =~= raw@);
    while n < raw.len() && raw[n] != '#' && raw[n] != ';'
        invariant
            n <= raw@.len(),
            comment_free_len(raw@) == n + comment_free_len(raw@.skip(n as int)),
        decreases raw@.len() - n,
    {
        assert(raw@.skip(n as int).drop_first() =~= raw@.skip(n + 1));
        n += 1;
    }
    proof {
        if n < raw@.len() {
            assert(raw@.skip(n as int)[0] == raw@[n as int]);
        }
        assert(comment_free_len(raw@.skip(n as int)) == 0);
    }
    let body = crate::text::slice_of(raw, 0, n);
    assert(body@ =~= raw@.take(n as int));
    trim_chars(body.as_slice())
}

impl IniScan {
    fn process_line(&mut self, raw: &[char])
        ensures
            final(self)@ == ini_step(old(self)@, raw@),
    {
        reveal(ini_step);
        let line = clean(raw);
        let n = line.len();
        if n == 0 {
            return;
        }
        if n >= 2 && line[0] == '[' && line[n - 1] == ']' {
            let inner = crate::text::slice_of(line.as_slice(), 1, n - 1);
            self.section = trim_chars(inner.as_slice());
            return;
        }
        let (k0, v0) = match crate::text::split_once_chars(line.as_slice(), '=') {
            Some(kv) => kv,
            None => return,
        };
        let k = trim_chars(k0.as_slice());
        let v = trim_chars(v0.as_slice());
        let ku = crate::text::upper_chars(k.as_slice());
        if chars_eq_str(self.section.as_slice(), "LOADER_OPTION") && crate::text::starts_with_str(
            ku.as_slice(),
            "LOADER",
        ) {
            let ghost old_loaders = self.loaders@;
            let ghost item = (ku@, v@);
            self.loaders.push((ku, v));
            assert(pairs_view(self.loaders@) =~= pairs_view(old_loaders).push(item));
        } else if eq_ignore_case(k.as_slice(), "LOAD_ADDR") {
            match parse_addr(v.as_slice()) {
                Some(a) => {
                    let su = crate::text::upper_chars(self.section.as_slice());
                    let ghost old_addrs = self.addrs@;
                    let ghost item = (su@, a);
                    self.addrs.push((su, a));
                    assert(addrs_view(self.addrs@) =~= addrs_view(old_addrs).push(item));
                },
                None => {},
            }
        }
    }
}

/// `str::eq_ignore_ascii_case`: equal once both sides are ASCII lower-cased.
fn eq_ignore_case(a: &[char], b: &str) -> (r: bool)
    ensures
        r == (crate::text::lower_seq(a@) == crate::text::lower_seq(b@)),
{
    let bv = chars_of(b);
    let al = lower_chars(a);
    let bl = lower_chars(bv.as_slice());
    chars_eq(al.as_slice(), bl.as_slice())
}

fn lower_chars(s: &[char]) -> (r: Vec<char>)
    ensures
        r@ == crate::text::lower_seq(s@),
{
    let mut r: Vec<char> = Vec::new();
    let mut i: usize = 0;
    while i < s.len()
        invariant
            i <= s@.len(),
            r@ == crate::text::lower_seq(s@.take(i as int)),
        decreases s@.len() - i,
    {
        r.push(to_lower(s[i]));
        i += 1;
        assert(r@ =~= crate::text::lower_seq(s@.take(i as int)));
    }
    assert(s@.take(i as int) =~= s@);
    r
}

fn lookup_last_exec(addrs: &Vec<(Vec<char>, u64)>, key: &[char]) -> (r: Option<u64>)
    ensures
        r == lookup_last(addrs_view(addrs@), key@),
{
    let mut i: usize = addrs.len();
    assert(addrs_view(addrs@).take(i as int) =~= addrs_view(addrs@));
    while i > 0
        invariant
            i <= addrs@.len(),
            lookup_last(addrs_view(addrs@), key@) == lookup_last(addrs_view(addrs@).take(i as int), key@),
        decreases i,
    {
        let ghost t = addrs_view(addrs@).take(i as int);
        assert(t.drop_last() =~= addrs_view(addrs@).take(i - 1));
        if chars_eq(addrs[i - 1].0.as_slice(), key) {
            return Some(addrs[i - 1].1);
        }
        i -= 1;
    }
    assert(addrs_view(addrs@).take(0) =~= Seq::<(Seq<char>, u64)>::empty());
    None
}

proof fn lemma_lines_step(st: IniState, rest: Seq<char>, i: int)
    requires
        crate::text::first_index(rest, '\n') == Some(i),
        0 <= i < rest.len(),
    ensures
        fold_lines(st, split_lines(rest)) == fold_lines(ini_step(st, rest.take(i)), split_lines(rest.skip(i + 1))),
{
    reveal(split_lines);
    reveal(fold_lines);
    let ls = split_lines(rest);
    assert(ls == seq![rest.take(i)] + split_lines(rest.skip(i + 1)));
    assert(ls.drop_first() =~= split_lines(rest.skip(i + 1)));
}

proof fn lemma_lines_last(st: IniState, rest: Seq<char>)
    requires
        crate::text::first_index(rest, '\n') is None,
    ensures
        fold_lines(st, split_lines(rest)) == ini_step(st, rest),
{
    reveal(split_lines);
    reveal(fold_lines);
    let ls = split_lines(rest);
    assert(ls == seq![rest]);
    assert(ls.drop_first() =~= Seq::<Seq<char>>::empty());
    assert(fold_lines(st, ls) == fold_lines(ini_step(st, rest), ls.drop_first()));
}

/// Position of the first line break in `s`, if any.
fn newline_in(s: &[char]) -> (r: Option<usize>)
    ensures
        r matches Some(i) ==> i < s@.len() && crate::text::first_index(s@, '\n') == Some(i as int),
        r is None ==> crate::text::first_index(s@, '\n') is None,
{
    crate::text::find_char(s, '\n')
}

/// Read every line of the `.ini` text into a scan state.
#[verifier::spinoff_prover]
fn scan_lines(chars: &[char]) -> (st: IniScan)
    ensures
        st@ == fold_lines(ini_start(), split_lines(chars@)),
{
    let mut st = IniScan { section: Vec::new(), loaders: Vec::new(), addrs: Vec::new() };
    assert(st@.loaders =~= Seq::<(Seq<char>, Seq<char>)>::empty());
    assert(st@.addrs =~= Seq::<(Seq<char>, u64)>::empty());
    let mut pos: usize = 0;
    assert(chars@.skip(0) =~= chars@);
    loop
        invariant_except_break
            pos <= chars@.len(),
            fold_lines(st@, split_lines(chars@.skip(pos as int))) == fold_lines(
                ini_start(),
                split_lines(chars@),
            ),
        ensures
            st@ == fold_lines(ini_start(), split_lines(chars@)),
        decreases chars@.len() - pos,
    {
        let rest = vstd::slice::slice_subrange(chars, pos, chars.len());
        assert(rest@ =~= chars@.skip(pos as int));
        match newline_in(rest) {
            Some(i) => {
                let line = crate::text::slice_of(rest, 0, i);
                proof {
                    lemma_lines_step(st@, rest@, i as int);
                    assert(rest@.skip(i + 1) =~= chars@.skip(pos + i + 1));
                }
                st.process_line(line.as_slice());
                pos = pos + i + 1;
            },
            None => {
                proof {
                    lemma_lines_last(st@, rest@);
                }
                st.process_line(rest);
                break ;
            },
        }
    }
    st
}

/// Extract MCU firmware loads from an rkbin loader `.ini`: for each
/// `LOADERn=<name>` in `[LOADER_OPTION]` that is not a known boot-chain
/// component, read `LOAD_ADDR` from the matching `[LOADERn_PARAM]` section.
pub fn parse_ini_mcu_loads(ini: &str) -> (loads: Vec<McuLoad>)
    ensures
        loads@.len() == ini_mcu_loads(ini@).len(),
        forall|k: int| 0 <= k < loads@.len() ==> (#[trigger] loads@[k])@ == ini_mcu_loads(ini@)[k],
{
    let chars = chars_of(ini);
    let st = scan_lines(chars.as_slice());
    collect_loads(&st)
}

fn collect_loads(st: &IniScan) -> (out: Vec<McuLoad>)
    ensures
        out@.len() == mcu_loads(st@.loaders, st@.addrs).len(),
        forall|k: int| 0 <= k < out@.len() ==> (#[trigger] out@[k])@ == mcu_loads(st@.loaders, st@.addrs)[k],
{
    let ghost fin = st@;
    let param = chars_of("_PARAM");
    let mut out: Vec<McuLoad> = Vec::new();
    let mut j: usize = 0;
    while j < st.loaders.len()
        invariant
            fin == st@,
            j <= st.loaders@.len(),
            param@ == "_PARAM"@,
            out@.len() == mcu_loads(fin.loaders.take(j as int), fin.addrs).len(),
            forall|k: int|
                0 <= k < out@.len() ==> (#[trigger] out@[k])@ == mcu_loads(
                    fin.loaders.take(j as int),
                    fin.addrs,
                )[k],
        decreases st.loaders@.len() - j,
    {
        let l = &st.loaders[j].0;
        let n = &st.loaders[j].1;
        proof {
            let t = fin.loaders.take(j + 1);
            assert(t.drop_last() =~= fin.loaders.take(j as int));
            assert(t.last() == (l@, n@));
        }
        if !is_known_safe_loader(n.as_slice()) {
            let mut key: Vec<char> = crate::text::slice_of(l.as_slice(), 0, l.len());
            let mut p: Vec<char> = crate::text::slice_of(param.as_slice(), 0, param.len());
            assert(key@ =~= l@);
            assert(p@ =~= param@);
            key.append(&mut p);
            match lookup_last_exec(&st.addrs, key.as_slice()) {
                Some(a) => {
                    let item = McuLoad {
                        loader: string_of(l.as_slice()),
                        name: string_of(n.as_slice()),
                        load_addr: a,
                    };
                    out.push(item);
                },
                None => {},
            }
        }
        j += 1;
    }
    assert(fin.loaders.take(j as int) =~= fin.loaders);
    out
}

// ---------------------------------------------------------------------------
// The devicetree
// ---------------------------------------------------------------------------

/// The text `reserved-memory`.
pub open spec fn reserved_memory_pat() -> Seq<char> {
    seq!['r', 'e', 's', 'e', 'r', 'v', 'e', 'd', '-', 'm', 'e', 'm', 'o', 'r', 'y']
}

/// The text `reg`.
pub open spec fn reg_pat() -> Seq<char> {
    seq!['r', 'e', 'g']
}

/// Position of the first occurrence of `pat` (non-empty) in `s` at or after `k`.
pub open spec fn find_from(s: Seq<char>, k: int, pat: Seq<char>) -> Option<int>
    decreases s.len() - k,
{
    if k < 0 || pat.len() == 0 || k + pat.len() > s.len() {
        None
    } else if s.subrange(k, k + pat.len()) == pat {
        Some(k)
    } else {
        find_from(s, k + 1, pat)
    }
}

/// Position of the first `c` in `s` at or after `k`.
pub open spec fn find_char_from(s: Seq<char>, k: int, c: char) -> Option<int>
    decreases s.len() - k,
{
    if k < 0 || k >= s.len() {
        None
    } else if s[k] == c {
        Some(k)
    } else {
        find_char_from(s, k + 1, c)
    }
}

/// An ASCII blank: space, tab, carriage return or line feed.
pub open spec fn is_blank(c: char) -> bool {
    c == ' ' || c == '\t' || c == '\r' || c == '\n'
}

/// The first position at or after `k` that is not an ASCII blank (or the end).
pub open spec fn skip_blanks(s: Seq<char>, k: int) -> int
    decreases s.len() - k,
{
    if k < 0 || k >= s.len() || !is_blank(s[k]) {
        k
    } else {
        skip_blanks(s, k + 1)
    }
}

/// The position just after the `}` that closes the brace opened before `j`
/// (`depth` braces are open), or the end of the text if none does.
pub open spec fn block_end(s: Seq<char>, j: int, depth: int) -> int
    decreases s.len() - j,
{
    if j < 0 || j >= s.len() {
        s.len() as int
    } else if s[j] == '{' {
        block_end(s, j + 1, depth + 1)
    } else if s[j] == '}' {
        if depth - 1 == 0 {
            j + 1
        } else {
            block_end(s, j + 1, depth - 1)
        }
    } else {
        block_end(s, j + 1, depth)
    }
}

/// The range a `reg = <addr size ...>` property at `p` (the `r` of `reg`)
/// declares, if it is one: `reg` as a whole token (no identifier character
/// right before it), `=` after optional blanks, then the first `<...>` after
/// that, whose first two words are numbers.
pub open spec fn reg_range_at(b: Seq<char>, p: int) -> Option<Range> {
    let end = p + 3;
    let before_ok = p == 0 || !is_ident(b[p - 1]);
    let a = skip_blanks(b, end);
    if !(before_ok && a < b.len() && b[a] == '=') {
        None
    } else {
        match find_char_from(b, a, '<') {
            None => None,
            Some(lt) => match find_char_from(b, lt, '>') {
                None => None,
                Some(gt) => {
                    let nums = words(b.subrange(lt + 1, gt));
                    if nums.len() >= 2 {
                        match (parse_addr_spec(nums[0]), parse_addr_spec(nums[1])) {
                            (Some(addr), Some(sz)) => Some(Range { start: addr, size: sz }),
                            _ => None,
                        }
                    } else {
                        None
                    }
                },
            },
        }
    }
}

pub proof fn lemma_find_from_bounds(s: Seq<char>, k: int, pat: Seq<char>)
    ensures
        find_from(s, k, pat) matches Some(p) ==> k <= p && p + pat.len() <= s.len() && pat.len() > 0
            && s.subrange(p, p + pat.len()) == pat,
    decreases s.len() - k,
{
    if !(k < 0 || pat.len() == 0 || k + pat.len() > s.len()) && s.subrange(k, k + pat.len()) != pat {
        lemma_find_from_bounds(s, k + 1, pat);
    }
}

pub proof fn lemma_find_char_from_bounds(s: Seq<char>, k: int, c: char)
    ensures
        find_char_from(s, k, c) matches Some(p) ==> k <= p < s.len() && s[p] == c,
    decreases s.len() - k,
{
    if !(k < 0 || k >= s.len()) && s[k] != c {
        lemma_find_char_from_bounds(s, k + 1, c);
    }
}

pub proof fn lemma_block_end_bounds(s: Seq<char>, j: int, depth: int)
    requires
        0 <= j,
    ensures
        j < s.len() ==> j + 1 <= block_end(s, j, depth),
        block_end(s, j, depth) <= s.len(),
    decreases s.len() - j,
{
    if j < s.len() {
        lemma_block_end_bounds(s, j + 1, depth + 1);
        lemma_block_end_bounds(s, j + 1, depth - 1);
        lemma_block_end_bounds(s, j + 1, depth);
    }
}

/// The ranges of the `reg` properties in `b` from position `k` on, in order.
pub open spec fn regs_in_block(b: Seq<char>, k: int) -> Seq<Range>
    decreases b.len() - k,
{
    if k < 0 {
        Seq::empty()
    } else {
        match find_from(b, k, reg_pat()) {
            None => Seq::empty(),
            Some(p) => {
                proof {
                    lemma_find_from_bounds(b, k, reg_pat());
                }
                match reg_range_at(b, p) {
                    Some(r) => seq![r] + regs_in_block(b, p + 3),
                    None => regs_in_block(b, p + 3),
                }
            },
        }
    }
}

/// The `reserved-memory` ranges of a devicetree text from position `i` on:
/// each `reserved-memory` node's brace-matched block, scanned for `reg`s.
pub open spec fn ranges_from(dt: Seq<char>, i: int) -> Seq<Range>
    decreases dt.len() - i,
{
    if i < 0 {
        Seq::empty()
    } else {
        match find_from(dt, i, reserved_memory_pat()) {
            None => Seq::empty(),
            Some(pos) => match find_char_from(dt, pos, '{') {
                None => Seq::empty(),
                Some(j) => {
                    proof {
                        lemma_find_from_bounds(dt, i, reserved_memory_pat());
                        lemma_find_char_from_bounds(dt, pos, '{');
                        lemma_block_end_bounds(dt, j, 0);
                    }
                    let e = block_end(dt, j, 0);
                    regs_in_block(dt.subrange(j, e), 0) + ranges_from(dt, e)
                },
            },
        }
    }
}

fn find_from_exec(s: &[char], k: usize, pat: &[char]) -> (r: Option<usize>)
    ensures
        match find_from(s@, k as int, pat@) {
            Some(p) => r == Some(p as usize),
            None => r is None,
        },
{
    if pat.len() == 0 {
        return None;
    }
    let mut i = k;
    while i <= s.len() && pat.len() <= s.len() - i
        invariant
            k <= i,
            pat@.len() > 0,
            find_from(s@, k as int, pat@) == find_from(s@, i as int, pat@),
        decreases s@.len() + 1 - i,
    {
        let piece = vstd::slice::slice_subrange(s, i, i + pat.len());
        if chars_eq(piece, pat) {
            return Some(i);
        }
        i += 1;
    }
    None
}

fn find_char_from_exec(s: &[char], k: usize, c: char) -> (r: Option<usize>)
    ensures
        match find_char_from(s@, k as int, c) {
            Some(p) => r == Some(p as usize),
            None => r is None,
        },
{
    let mut i = k;
    while i < s.len()
        invariant
            k <= i,
            find_char_from(s@, k as int, c) == find_char_from(s@, i as int, c),
        decreases s@.len() - i,
    {
        if s[i] == c {
            return Some(i);
        }
        i += 1;
    }
    None
}

fn skip_blanks_exec(s: &[char], k: usize) -> (r: usize)
    ensures
        r == skip_blanks(s@, k as int),
{
    let mut a = k;
    while a < s.len() && (s[a] == ' ' || s[a] == '\t' || s[a] == '\r' || s[a] == '\n')
        invariant
            k <= a,
            skip_blanks(s@, k as int) == skip_blanks(s@, a as int),
        decreases s@.len() - a,
    {
        a += 1;
    }
    a
}

fn block_end_exec(s: &[char], j: usize) -> (e: usize)
    requires
        j < s@.len(),
        s@[j as int] == '{',
    ensures
        e == block_end(s@, j as int, 0),
{
    let mut depth: usize = 0;
    let mut k = j;
    while k < s.len()
        invariant
            j <= k,
            j < s@.len(),
            s@[j as int] == '{',
            depth <= k - j,
            k == j ==> depth == 0,
            k > j ==> depth >= 1,
            block_end(s@, j as int, 0) == block_end(s@, k as int, depth as int),
        decreases s@.len() - k,
    {
        if s[k] == '{' {
            depth += 1;
        } else if s[k] == '}' {
            if depth == 1 {
                return k + 1;
            }
            depth -= 1;
        }
        k += 1;
    }
    s.len()
}

fn reg_range_at_exec(b: &[char], p: usize) -> (r: Option<Range>)
    requires
        p + 3 <= b@.len(),
    ensures
        r == reg_range_at(b@, p as int),
{
    let n = b.len();
    assert(p + 3 <= n);
    let end = p + 3;
    let before_ok = p == 0 || !is_ident_char(b[p - 1]);
    let a = skip_blanks_exec(b, end);
    proof {
        lemma_skip_blanks_bounds(b@, end as int);
    }
    if !(before_ok && a < b.len() && b[a] == '=') {
        return None;
    }
    let lt = match find_char_from_exec(b, a, '<') {
        Some(x) => x,
        None => return None,
    };
    proof {
        lemma_find_char_from_bounds(b@, a as int, '<');
    }
    let gt = match find_char_from_exec(b, lt, '>') {
        Some(x) => x,
        None => return None,
    };
    proof {
        lemma_find_char_from_bounds(b@, lt as int, '>');
    }
    let inner = crate::text::slice_of(b, lt + 1, gt);
    let nums = crate::text::split_words(inner.as_slice());
    if nums.len() >= 2 {
        match (parse_addr(nums[0].as_slice()), parse_addr(nums[1].as_slice())) {
            (Some(addr), Some(sz)) => Some(Range { start: addr, size: sz }),
            _ => None,
        }
    } else {
        None
    }
}

proof fn lemma_skip_blanks_bounds(s: Seq<char>, k: int)
    requires
        0 <= k,
    ensures
        k <= skip_blanks(s, k),
        k <= s.len() ==> skip_blanks(s, k) <= s.len(),
    decreases s.len() - k,
{
    if !(k >= s.len() || !is_blank(s[k])) {
        lemma_skip_blanks_bounds(s, k + 1);
    }
}

fn regs_in_block_exec(b: &[char]) -> (out: Vec<Range>)
    ensures
        out@ == regs_in_block(b@, 0),
{
    let pat = chars_of("reg");
    proof {
        reveal_strlit("reg");
        assert(pat@ =~= reg_pat());
    }
    let mut out: Vec<Range> = Vec::new();
    let mut k: usize = 0;
    loop
        invariant_except_break
            pat@ == reg_pat(),
            out@ + regs_in_block(b@, k as int) == regs_in_block(b@, 0),
        ensures
            out@ == regs_in_block(b@, 0),
        decreases b@.len() - k,
    {
        match find_from_exec(b, k, pat.as_slice()) {
            None => {
                assert(regs_in_block(b@, k as int) =~= Seq::<Range>::empty());
                assert(out@ + Seq::<Range>::empty() =~= out@);
                break ;
            },
            Some(p) => {
                proof {
                    lemma_find_from_bounds(b@, k as int, reg_pat());
                }
                let n = b.len();
                assert(p + 3 <= n);
                let r = reg_range_at_exec(b, p);
                assert(regs_in_block(b@, k as int) == match r {
                    Some(x) => seq![x] + regs_in_block(b@, p + 3),
                    None => regs_in_block(b@, p + 3),
                });
                match r {
                    Some(x) => {
                        assert(out@.push(x) + regs_in_block(b@, p + 3) =~= out@ + (seq![x] + regs_in_block(b@, p + 3)));
                        out.push(x);
                    },
                    None => {},
                }
                k = p + 3;
            },
        }
    }
    out
}

/// Extract `reserved-memory` child ranges from devicetree source (a
/// `.dts`/`.dtsi`, or the flattened output of `dtc -I dtb -O dts`).
/// Brace-tracked so only `reg`s inside a `reserved-memory { ... }` node are
/// taken; each `reg = <addr size>` is one range.
pub fn parse_reserved_ranges(dt: &str) -> (out: Vec<Range>)
    ensures
        out@ == ranges_from(dt@, 0),
{
    let s = chars_of(dt);
    let pat = chars_of("reserved-memory");
    proof {
        reveal_strlit("reserved-memory");
        assert(pat@ =~= reserved_memory_pat());
    }
    let mut out: Vec<Range> = Vec::new();
    let mut i: usize = 0;
    loop
        invariant_except_break
            s@ == dt@,
            pat@ == reserved_memory_pat(),
            out@ + ranges_from(s@, i as int) == ranges_from(s@, 0),
        ensures
            out@ == ranges_from(dt@, 0),
        decreases s@.len() - i,
    {
        let pos = match find_from_exec(s.as_slice(), i, pat.as_slice()) {
            Some(x) => x,
            None => {
                assert(out@ + Seq::<Range>::empty() =~= out@);
                break ;
            },
        };
        proof {
            lemma_find_from_bounds(s@, i as int, reserved_memory_pat());
        }
        let j = match find_char_from_exec(s.as_slice(), pos, '{') {
            Some(x) => x,
            None => {
                assert(out@ + Seq::<Range>::empty() =~= out@);
                break ;
            },
        };
        proof {
            lemma_find_char_from_bounds(s@, pos as int, '{');
            lemma_block_end_bounds(s@, j as int, 0);
        }
        let e = block_end_exec(s.as_slice(), j);
        let block = vstd::slice::slice_subrange(s.as_slice(), j, e);
        let mut found = regs_in_block_exec(block);
        assert(out@ + found@ + ranges_from(s@, e as int) =~= out@ + (found@ + ranges_from(s@, e as int)));
        out.append(&mut found);
        i = e;
    }
    out
}

// ---------------------------------------------------------------------------
// Laws of the reservation check
// ---------------------------------------------------------------------------

/// The check reports exactly the uncovered loads: every finding is a declared
/// load that no reserved range covers, and every such load is reported.
pub proof fn lemma_findings_are_the_uncovered_loads(
    loads: Seq<(Seq<char>, Seq<char>, u64)>,
    reserved: Seq<Range>,
)
    ensures
        forall|k: int|
            0 <= k < uncovered(loads, reserved).len() ==> {
                &&& !covered(reserved, (#[trigger] uncovered(loads, reserved)[k]).2)
                &&& loads.contains(uncovered(loads, reserved)[k])
            },
        forall|i: int|
            0 <= i < loads.len() && !covered(reserved, (#[trigger] loads[i]).2) ==> uncovered(
                loads,
                reserved,
            ).contains(loads[i]),
    decreases loads.len(),
{
    if loads.len() > 0 {
        let init = loads.drop_last();
        lemma_findings_are_the_uncovered_loads(init, reserved);
        let u = uncovered(loads, reserved);
        let ui = uncovered(init, reserved);
        assert forall|k: int| 0 <= k < u.len() implies {
            &&& !covered(reserved, (#[trigger] u[k]).2)
            &&& loads.contains(u[k])
        } by {
            if k < ui.len() {
                assert(u[k] == ui[k]);
                let j = choose|j: int| 0 <= j < init.len() && init[j] == ui[k];
                assert(loads[j] == init[j]);
            } else {
                assert(u[k] == loads.last());
                assert(loads[loads.len() - 1] == loads.last());
            }
        }
        assert forall|i: int| 0 <= i < loads.len() && !covered(reserved, (#[trigger] loads[i]).2) implies u.contains(
            loads[i],
        ) by {
            if i < loads.len() - 1 {
                assert(init[i] == loads[i]);
                let j = choose|j: int| 0 <= j < ui.len() && ui[j] == init[i];
                assert(u[j] == ui[j]);
            } else {
                assert(u[u.len() - 1] == loads[i]);
            }
        }
    }
}

/// A board with no boot-loaded MCU firmware always passes the check.
pub proof fn lemma_no_loads_pass(reserved: Seq<Range>)
    ensures
        uncovered(Seq::empty(), reserved).len() == 0,
{
}

/// The normal RK boot chain by normalized name: DDR init, the SPL and
/// miniloader stages, the secure monitor and TEE, U-Boot, and the flash and
/// boot-media loaders.
pub open spec fn boot_chain_names() -> Set<Seq<char>> {
    set![
        "flashdata"@, "flashboot"@, "nandboot"@, "nandboot1"@, "nandboot2"@, "sdboot"@, "emmcboot"@,
        "spinorboot"@, "ddr"@, "usbplug"@, "spl"@, "uboot"@, "loader"@, "miniloader"@, "trust"@,
        "tee"@, "atf"@, "bl31"@, "fsbl"@, "idblock"@
    ]
}

proof fn lemma_safe_is_boot_chain(n: Seq<char>)
    ensures
        is_safe_name(n) <==> boot_chain_names().contains(n),
{
}

/// The scan fails closed, over every loader table and address table: each
/// loader whose normalized name is not a boot-chain component and whose
/// `[<loader>_PARAM]` section declared a `LOAD_ADDR` is reported with that
/// address, and each reported load is such a loader.
pub proof fn lemma_mcu_loads_fail_closed(loaders: Seq<(Seq<char>, Seq<char>)>, addrs: Seq<(Seq<char>, u64)>)
    ensures
        forall|i: int|
            0 <= i < loaders.len() && !boot_chain_names().contains(normalize((#[trigger] loaders[i]).1))
                && lookup_last(addrs, loaders[i].0 + "_PARAM"@) is Some ==> mcu_loads(loaders, addrs).contains(
                (loaders[i].0, loaders[i].1, lookup_last(addrs, loaders[i].0 + "_PARAM"@)->Some_0),
            ),
        forall|k: int|
            0 <= k < mcu_loads(loaders, addrs).len() ==> {
                let e = #[trigger] mcu_loads(loaders, addrs)[k];
                &&& !boot_chain_names().contains(normalize(e.1))
                &&& lookup_last(addrs, e.0 + "_PARAM"@) == Some(e.2)
                &&& loaders.contains((e.0, e.1))
            },
    decreases loaders.len(),
{
    if loaders.len() > 0 {
        let init = loaders.drop_last();
        lemma_mcu_loads_fail_closed(init, addrs);
        let r = mcu_loads(loaders, addrs);
        let ri = mcu_loads(init, addrs);
        let (l, n) = loaders.last();
        lemma_safe_is_boot_chain(normalize(n));
        assert forall|i: int|
            0 <= i < loaders.len() && !boot_chain_names().contains(normalize((#[trigger] loaders[i]).1))
                && lookup_last(addrs, loaders[i].0 + "_PARAM"@) is Some implies r.contains(
            (loaders[i].0, loaders[i].1, lookup_last(addrs, loaders[i].0 + "_PARAM"@)->Some_0),
        ) by {
            if i < loaders.len() - 1 {
                assert(init[i] == loaders[i]);
                let t = (loaders[i].0, loaders[i].1, lookup_last(addrs, loaders[i].0 + "_PARAM"@)->Some_0);
                let j = choose|j: int| 0 <= j < ri.len() && ri[j] == t;
                assert(r[j] == ri[j]);
            } else {
                assert(loaders[i] == loaders.last());
                assert(r[r.len() - 1] == (l, n, lookup_last(addrs, l + "_PARAM"@)->Some_0));
            }
        }
        assert forall|k: int| 0 <= k < r.len() implies {
            let e = #[trigger] r[k];
            &&& !boot_chain_names().contains(normalize(e.1))
            &&& lookup_last(addrs, e.0 + "_PARAM"@) == Some(e.2)
            &&& loaders.contains((e.0, e.1))
        } by {
            if k < ri.len() {
                assert(r[k] == ri[k]);
                let e = ri[k];
                let j = choose|j: int| 0 <= j < init.len() && init[j] == (e.0, e.1);
                assert(loaders[j] == init[j]);
            } else {
                assert(r[k] == (l, n, lookup_last(addrs, l + "_PARAM"@)->Some_0));
                assert(loaders[loaders.len() - 1] == (l, n));
            }
        }
    }
}

/// What `parse_ini_mcu_loads` returns for a loader `.ini` fails closed: every
/// `LOADERn` entry of its `[LOADER_OPTION]` table that is not a boot-chain
/// component and whose `[LOADERn_PARAM]` section declared a `LOAD_ADDR` is
/// among the loads, and every load is such an entry.
pub proof fn lemma_ini_fails_closed(ini: Seq<char>)
    ensures
        ({
            let st = fold_lines(ini_start(), split_lines(ini));
            &&& forall|i: int|
                0 <= i < st.loaders.len() && !boot_chain_names().contains(normalize((#[trigger] st.loaders[i]).1))
                    && lookup_last(st.addrs, st.loaders[i].0 + "_PARAM"@) is Some ==> ini_mcu_loads(ini).contains(
                    (st.loaders[i].0, st.loaders[i].1, lookup_last(st.addrs, st.loaders[i].0 + "_PARAM"@)->Some_0),
                )
            &&& forall|k: int|
                0 <= k < ini_mcu_loads(ini).len() ==> !boot_chain_names().contains(
                    normalize((#[trigger] ini_mcu_loads(ini)[k]).1),
                )
        }),
{
    let st = fold_lines(ini_start(), split_lines(ini));
    lemma_mcu_loads_fail_closed(st.loaders, st.addrs);
}

} // verus!

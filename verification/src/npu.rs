//! NPU load model: the `/proc/rknpu/load` surface.
//!
//! The rknpu driver exposes utilisation at `/proc/rknpu/load` as
//! `"NPU load:  N%"`, and the file exists only once `rknpu.ko` is loaded, so a
//! *missing* file means the driver is absent, not idle. This models both a
//! present NPU at a chosen load and an absent one, and mirrors sysmon's parse
//! (the text after the first ':' then the leading integer) so the driver's
//! reader can be exercised against realistic text.
//!
//! (Only `/proc/rknpu/load` is modelled. `/proc/rknpu/volt` is deliberately
//! NOT: reading it crashes the reader on this board.)

use vstd::prelude::*;
use crate::text::{
    chars_of, dec, digit_value, first_index, is_ws, lemma_dec_parses, is_ascii_digit, is_digit, parse_uint, parse_unsigned, push_dec, push_str,
    slice_of, split_once, split_once_chars, trim_start, trim_start_chars,
};

verus! {

broadcast use vstd::string::group_string_axioms;

/// A modelled NPU. `present == false` models rknpu.ko not loaded (no proc file).
#[derive(Clone, Copy, Debug)]
pub struct NpuSim {
    present: bool,
    load: u8,
}

impl View for NpuSim {
    type V = (bool, u8);

    /// Whether the driver is loaded, and the load it reports.
    closed spec fn view(&self) -> (bool, u8) {
        (self.present, self.load)
    }
}

/// The text of `/proc/rknpu/load` for a load of `load` percent.
pub open spec fn proc_text(load: u8) -> Seq<char> {
    "NPU load:  "@ + dec(load as nat) + "%\n"@
}

/// Length of the run of ASCII digits that starts `s`.
pub open spec fn digit_run(s: Seq<char>) -> nat
    decreases s.len(),
{
    if s.len() > 0 && is_digit(s[0]) {
        1 + digit_run(s.drop_first())
    } else {
        0
    }
}

/// sysmon's parse: the text after the first ':', leading whitespace skipped,
/// then the leading decimal integer, if it fits a `u8`.
pub open spec fn parse_load_spec(text: Seq<char>) -> Option<u8> {
    match split_once(text, ':') {
        None => None,
        Some((_, after)) => {
            let rest = trim_start(after);
            match parse_unsigned(rest.take(digit_run(rest) as int), 10, 255) {
                Some(v) => Some(v as u8),
                None => None,
            }
        },
    }
}

impl NpuSim {
    /// A present NPU reporting 0% load.
    pub fn new() -> (n: Self)
        ensures
            n@ == (true, 0u8),
    {
        NpuSim { present: true, load: 0 }
    }

    /// An absent NPU (rknpu.ko not loaded): `/proc/rknpu/load` does not exist.
    pub fn absent() -> (n: Self)
        ensures
            n@ == (false, 0u8),
    {
        NpuSim { present: false, load: 0 }
    }

    /// Set the reported load, clamped to 0..=100.
    pub fn set_load(&mut self, pct: u8)
        ensures
            final(self)@ == (old(self)@.0, if pct > 100 {
                100u8
            } else {
                pct
            }),
    {
        self.load = if pct > 100 {
            100
        } else {
            pct
        };
    }

    /// Contents of `/proc/rknpu/load`, or `None` when the NPU is absent (the
    /// file would not exist, so the reader fails soft to "NPU absent").
    pub fn proc_load(&self) -> (r: Option<String>)
        ensures
            match r {
                Some(s) => self@.0 && s@ == proc_text(self@.1),
                None => !self@.0,
            },
    {
        if self.present {
            let mut s = String::new();
            push_str(&mut s, "NPU load:  ");
            push_dec(&mut s, self.load as u64);
            push_str(&mut s, "%\n");
            Some(s)
        } else {
            None
        }
    }

    /// Parse a load percent out of a `/proc/rknpu/load` line the way sysmon
    /// does: the text after the first ':' then the leading integer. `None` if
    /// there is no colon or no number (which the driver treats as "report 0 /
    /// absent").
    pub fn parse_load(text: &str) -> (r: Option<u8>)
        ensures
            r == parse_load_spec(text@),
    {
        let chars = chars_of(text);
        let after = match split_once_chars(chars.as_slice(), ':') {
            Some((_, after)) => after,
            None => return None,
        };
        let rest = trim_start_chars(after.as_slice());
        let mut n: usize = 0;
        assert(rest@.skip(0) =~= rest@);
        while n < rest.len() && is_ascii_digit(rest[n])
            invariant
                n <= rest@.len(),
                digit_run(rest@) == n + digit_run(rest@.skip(n as int)),
            decreases rest@.len() - n,
        {
            proof {
                assert(rest@.skip(n as int).drop_first() =~= rest@.skip(n + 1));
            }
            n += 1;
        }
        proof {
            if n < rest@.len() {
                assert(rest@.skip(n as int)[0] == rest@[n as int]);
            }
            assert(digit_run(rest@.skip(n as int)) == 0);
        }
        let digits = slice_of(rest.as_slice(), 0, n);
        assert(digits@ =~= rest@.take(n as int));
        match parse_uint(digits.as_slice(), 10, 255) {
            Some(v) => Some(v as u8),
            None => None,
        }
    }
}

impl Default for NpuSim {
    fn default() -> (n: Self)
        ensures
            n@ == (true, 0u8),
    {
        NpuSim::new()
    }
}


proof fn lemma_digit_run_prefix(d: Seq<char>, rest: Seq<char>)
    requires
        forall|i: int| 0 <= i < d.len() ==> is_digit(#[trigger] d[i]),
    ensures
        digit_run(d + rest) == d.len() + digit_run(rest),
    decreases d.len(),
{
    if d.len() > 0 {
        assert((d + rest).drop_first() =~= d.drop_first() + rest);
        lemma_digit_run_prefix(d.drop_first(), rest);
    } else {
        assert(d + rest =~= rest);
    }
}

/// What a present NPU reports parses back to its load: the reader and the
/// model agree on every load value.
pub proof fn lemma_proc_text_round_trips(load: u8)
    ensures
        parse_load_spec(proc_text(load)) == Some(load),
{
    reveal_strlit("NPU load:  ");
    reveal_strlit("%\n");
    let d = dec(load as nat);
    lemma_dec_parses(load as nat);
    let head = "NPU load:  "@;
    let tail = "%\n"@;
    let t = proc_text(load);
    assert(t == head + d + tail);
    assert(t[8] == ':');
    assert forall|j: int| 0 <= j < 8 implies t[j] != ':' by {
        assert(t[j] == head[j]);
    }
    let k = choose|i: int| 0 <= i < t.len() && t[i] == ':' && forall|j: int| 0 <= j < i ==> t[j] != ':';
    assert(0 <= 8 < t.len() && t[8] == ':' && forall|j: int| 0 <= j < 8 ==> t[j] != ':');
    if k < 8 {
        assert(t[k] != ':');
    } else if k > 8 {
        assert(t[8] != ':');
    }
    assert(first_index(t, ':') == Some(8int));
    let after = t.skip(9);
    assert(after =~= seq![' ', ' '] + (d + tail));
    assert(after.drop_first().drop_first() =~= d + tail);
    assert(digit_value(d[0], 10) is Some);
    assert(is_digit(d[0]));
    assert((d + tail)[0] == d[0]);
    assert(!is_ws(d[0]));
    assert(trim_start(after.drop_first().drop_first()) == d + tail);
    assert(after[0] == ' ');
    assert(after.drop_first()[0] == ' ');
    assert(is_ws(' '));
    assert(trim_start(after.drop_first()) == d + tail);
    assert(trim_start(after) == d + tail);
    assert forall|i: int| 0 <= i < d.len() implies is_digit(#[trigger] d[i]) by {
        assert(digit_value(d[i], 10) is Some);
    }
    lemma_digit_run_prefix(d, tail);
    assert(digit_run(tail) == 0);
    assert((d + tail).take(d.len() as int) =~= d);
}

} // verus!

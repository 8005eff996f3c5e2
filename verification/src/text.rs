//! Character-level text helpers shared by the parsers and the formatters:
//! Unicode whitespace, ASCII classes and case mapping, trimming, splitting,
//! unsigned-integer parsing (with the `+` sign std accepts) and decimal / hex
//! rendering. Everything works on `Seq<char>` models of the text.

use vstd::prelude::*;

verus! {

broadcast use vstd::string::group_string_axioms;

/// `String::push` appends one character to the end of the string.
pub assume_specification[ String::push ](s: &mut String, ch: char)
    ensures
        final(s)@ == old(s)@.push(ch),
;

// ---------------------------------------------------------------------------
// Character classes
// ---------------------------------------------------------------------------

/// Unicode `White_Space`: what `char::is_whitespace` (and so `trim`,
/// `trim_start` and `split_whitespace`) treats as whitespace.
pub open spec fn is_ws(c: char) -> bool {
    let u = c as u32;
    ||| 0x09 <= u <= 0x0d
    ||| u == 0x20
    ||| u == 0x85
    ||| u == 0xa0
    ||| u == 0x1680
    ||| 0x2000 <= u <= 0x200a
    ||| u == 0x2028
    ||| u == 0x2029
    ||| u == 0x202f
    ||| u == 0x205f
    ||| u == 0x3000
}

pub fn is_whitespace(c: char) -> (r: bool)
    ensures
        r == is_ws(c),
{
    let u = c as u32;
    (0x09 <= u && u <= 0x0d) || u == 0x20 || u == 0x85 || u == 0xa0 || u == 0x1680 || (0x2000
        <= u && u <= 0x200a) || u == 0x2028 || u == 0x2029 || u == 0x202f || u == 0x205f || u
        == 0x3000
}

pub open spec fn is_digit(c: char) -> bool {
    '0' <= c <= '9'
}

pub open spec fn is_lower(c: char) -> bool {
    'a' <= c <= 'z'
}

pub open spec fn is_upper(c: char) -> bool {
    'A' <= c <= 'Z'
}

pub open spec fn is_alnum(c: char) -> bool {
    is_digit(c) || is_lower(c) || is_upper(c)
}

pub fn is_ascii_digit(c: char) -> (r: bool)
    ensures
        r == is_digit(c),
{
    '0' <= c && c <= '9'
}

pub fn is_ascii_alnum(c: char) -> (r: bool)
    ensures
        r == is_alnum(c),
{
    ('0' <= c && c <= '9') || ('a' <= c && c <= 'z') || ('A' <= c && c <= 'Z')
}

/// ASCII upper-casing of one character (`char::to_ascii_uppercase`).
pub open spec fn upper(c: char) -> char {
    if is_lower(c) {
        ((c as u32) - 32) as char
    } else {
        c
    }
}

/// ASCII lower-casing of one character (`char::to_ascii_lowercase`).
pub open spec fn lower(c: char) -> char {
    if is_upper(c) {
        ((c as u32) + 32) as char
    } else {
        c
    }
}

pub fn to_upper(c: char) -> (r: char)
    ensures
        r == upper(c),
{
    if 'a' <= c && c <= 'z' {
        let u = (c as u32) - 32;
        // every ASCII code is a char
        char_from_ascii(u)
    } else {
        c
    }
}

pub fn to_lower(c: char) -> (r: char)
    ensures
        r == lower(c),
{
    if 'A' <= c && c <= 'Z' {
        let u = (c as u32) + 32;
        char_from_ascii(u)
    } else {
        c
    }
}

/// The ASCII character with code `u`.
fn char_from_ascii(u: u32) -> (r: char)
    requires
        u < 128,
    ensures
        r == u as char,
        r as u32 == u,
{
    let b = u as u8;
    b as char
}

/// The whole sequence ASCII upper-cased (`str::to_ascii_uppercase`).
pub open spec fn upper_seq(s: Seq<char>) -> Seq<char> {
    Seq::new(s.len(), |i: int| upper(s[i]))
}

/// The whole sequence ASCII lower-cased (`str::to_ascii_lowercase`).
pub open spec fn lower_seq(s: Seq<char>) -> Seq<char> {
    Seq::new(s.len(), |i: int| lower(s[i]))
}

pub fn upper_chars(s: &[char]) -> (r: Vec<char>)
    ensures
        r@ == upper_seq(s@),
{
    let mut r: Vec<char> = Vec::new();
    let mut i: usize = 0;
    while i < s.len()
        invariant
            i <= s@.len(),
            r@ == upper_seq(s@.take(i as int)),
        decreases s@.len() - i,
    {
        r.push(to_upper(s[i]));
        i += 1;
        assert(r@ =~= upper_seq(s@.take(i as int)));
    }
    assert(s@.take(i as int) =~= s@);
    r
}

// ---------------------------------------------------------------------------
// Slices of text
// ---------------------------------------------------------------------------

/// A copy of `s[lo..hi]`.
pub fn slice_of(s: &[char], lo: usize, hi: usize) -> (r: Vec<char>)
    requires
        lo <= hi <= s@.len(),
    ensures
        r@ == s@.subrange(lo as int, hi as int),
{
    let mut r: Vec<char> = Vec::new();
    let mut i: usize = lo;
    while i < hi
        invariant
            lo <= i <= hi <= s@.len(),
            r@ == s@.subrange(lo as int, i as int),
        decreases hi - i,
    {
        r.push(s[i]);
        i += 1;
        assert(r@ =~= s@.subrange(lo as int, i as int));
    }
    r
}

/// Whether the two character sequences are equal.
pub fn chars_eq(a: &[char], b: &[char]) -> (r: bool)
    ensures
        r == (a@ == b@),
{
    if a.len() != b.len() {
        return false;
    }
    let mut i: usize = 0;
    while i < a.len()
        invariant
            a@.len() == b@.len(),
            i <= a@.len(),
            forall|j: int| 0 <= j < i ==> a@[j] == b@[j],
        decreases a@.len() - i,
    {
        if a[i] != b[i] {
            return false;
        }
        i += 1;
    }
    assert(a@ =~= b@);
    true
}

/// Whether the characters of `a` spell out the string `b`.
pub fn chars_eq_str(a: &[char], b: &str) -> (r: bool)
    ensures
        r == (a@ == b@),
{
    let bv = chars_of(b);
    chars_eq(a, bv.as_slice())
}

/// Whether `a` begins with the characters of `p`.
pub fn starts_with_str(a: &[char], p: &str) -> (r: bool)
    ensures
        r == (p@.len() <= a@.len() && a@.take(p@.len() as int) == p@),
{
    let pv = chars_of(p);
    if pv.len() > a.len() {
        return false;
    }
    let head = slice_of(a, 0, pv.len());
    assert(head@ =~= a@.take(pv@.len() as int));
    chars_eq(head.as_slice(), pv.as_slice())
}

/// The characters of `s`, in order.
pub fn chars_of(s: &str) -> (v: Vec<char>)
    ensures
        v@ == s@,
{
    let mut v: Vec<char> = Vec::new();
    for c in it: s.chars()
        invariant
            v@ == it.seq().take(it.index() as int),
            it.seq() == s@,
    {
        v.push(c);
    }
    v
}

/// A `String` holding exactly the characters `s`.
pub fn string_of(s: &[char]) -> (r: String)
    ensures
        r@ == s@,
{
    let mut r = String::new();
    push_chars(&mut r, s);
    r
}

/// Append the characters `s` to `out`.
pub fn push_chars(out: &mut String, s: &[char])
    ensures
        final(out)@ == old(out)@ + s@,
{
    let mut i: usize = 0;
    while i < s.len()
        invariant
            i <= s@.len(),
            out@ == old(out)@ + s@.take(i as int),
        decreases s@.len() - i,
    {
        out.push(s[i]);
        i += 1;
        assert(out@ =~= old(out)@ + s@.take(i as int));
    }
    assert(s@.take(i as int) =~= s@);
}

/// Append the string `s` to `out`.
pub fn push_str(out: &mut String, s: &str)
    ensures
        final(out)@ == old(out)@ + s@,
{
    let v = chars_of(s);
    push_chars(out, v.as_slice());
}

// ---------------------------------------------------------------------------
// Trimming and splitting
// ---------------------------------------------------------------------------

/// `str::trim_start`: leading whitespace removed.
pub open spec fn trim_start(s: Seq<char>) -> Seq<char>
    decreases s.len(),
{
    if s.len() > 0 && is_ws(s[0]) {
        trim_start(s.drop_first())
    } else {
        s
    }
}

/// `str::trim_end`: trailing whitespace removed.
pub open spec fn trim_end(s: Seq<char>) -> Seq<char>
    decreases s.len(),
{
    if s.len() > 0 && is_ws(s.last()) {
        trim_end(s.drop_last())
    } else {
        s
    }
}

/// `str::trim`: whitespace removed at both ends.
pub open spec fn trim(s: Seq<char>) -> Seq<char> {
    trim_end(trim_start(s))
}

/// `trim_start` of a suffix, taken from its first position on.
proof fn lemma_trim_start_step(s: Seq<char>, i: int)
    requires
        0 <= i < s.len(),
        is_ws(s[i]),
    ensures
        trim_start(s.subrange(i, s.len() as int)) == trim_start(s.subrange(i + 1, s.len() as int)),
{
    assert(s.subrange(i, s.len() as int).drop_first() =~= s.subrange(i + 1, s.len() as int));
}

proof fn lemma_trim_end_step(s: Seq<char>, j: int)
    requires
        0 < j <= s.len(),
        is_ws(s[j - 1]),
    ensures
        trim_end(s.subrange(0, j)) == trim_end(s.subrange(0, j - 1)),
{
    assert(s.subrange(0, j).drop_last() =~= s.subrange(0, j - 1));
}

/// `trim` of `s`, returned as a copy.
pub fn trim_chars(s: &[char]) -> (r: Vec<char>)
    ensures
        r@ == trim(s@),
{
    let n = s.len();
    let mut lo: usize = 0;
    assert(s@ =~= s@.subrange(0, n as int));
    while lo < n && is_whitespace(s[lo])
        invariant
            lo <= n == s@.len(),
            trim_start(s@) == trim_start(s@.subrange(lo as int, n as int)),
        decreases n - lo,
    {
        proof {
            lemma_trim_start_step(s@, lo as int);
        }
        lo += 1;
    }
    assert(s@ =~= s@.subrange(0, n as int));
    let ghost t = s@.subrange(lo as int, n as int);
    assert(trim_start(s@) == t);
    let mut hi: usize = n;
    assert(t =~= t.subrange(0, (n - lo) as int));
    while hi > lo && is_whitespace(s[hi - 1])
        invariant
            lo <= hi <= n == s@.len(),
            t == s@.subrange(lo as int, n as int),
            trim_end(t) == trim_end(t.subrange(0, hi - lo)),
        decreases hi,
    {
        proof {
            lemma_trim_end_step(t, hi - lo);
        }
        hi -= 1;
    }
    proof {
        assert(t =~= t.subrange(0, (n - lo) as int));
        let u = t.subrange(0, hi - lo);
        if u.len() > 0 {
            assert(u.last() == s@[hi - 1]);
        }
        assert(trim_end(u) == u);
        assert(u =~= s@.subrange(lo as int, hi as int));
    }
    slice_of(s, lo, hi)
}

/// `trim_start` of `s`, returned as a copy.
pub fn trim_start_chars(s: &[char]) -> (r: Vec<char>)
    ensures
        r@ == trim_start(s@),
{
    let n = s.len();
    let mut lo: usize = 0;
    assert(s@ =~= s@.subrange(0, n as int));
    while lo < n && is_whitespace(s[lo])
        invariant
            lo <= n == s@.len(),
            trim_start(s@) == trim_start(s@.subrange(lo as int, n as int)),
        decreases n - lo,
    {
        proof {
            lemma_trim_start_step(s@, lo as int);
        }
        lo += 1;
    }
    assert(s@ =~= s@.subrange(0, n as int));
    slice_of(s, lo, n)
}

/// Index of the first occurrence of `c` in `s`, if any.
pub open spec fn first_index(s: Seq<char>, c: char) -> Option<int> {
    if exists|i: int| 0 <= i < s.len() && s[i] == c {
        Some(choose|i: int| 0 <= i < s.len() && s[i] == c && forall|j: int| 0 <= j < i ==> s[j] != c)
    } else {
        None
    }
}

/// Position of the first `c` in `s`.
pub fn find_char(s: &[char], c: char) -> (r: Option<usize>)
    ensures
        match r {
            Some(i) => i < s@.len() && s@[i as int] == c && forall|j: int| 0 <= j < i ==> s@[j] != c,
            None => forall|j: int| 0 <= j < s@.len() ==> s@[j] != c,
        },
        r matches Some(i) ==> first_index(s@, c) == Some(i as int),
        r is None ==> first_index(s@, c) is None,
{
    let mut i: usize = 0;
    while i < s.len()
        invariant
            i <= s@.len(),
            forall|j: int| 0 <= j < i ==> s@[j] != c,
        decreases s@.len() - i,
    {
        if s[i] == c {
            proof {
                let k = choose|k: int| 0 <= k < s@.len() && s@[k] == c && forall|j: int| 0 <= j < k ==> s@[j] != c;
                assert(0 <= k < s@.len() && s@[k] == c && forall|j: int| 0 <= j < k ==> s@[j] != c) by {
                    assert(0 <= i < s@.len() && s@[i as int] == c && forall|j: int| 0 <= j < i ==> s@[j] != c);
                }
                if k < i {
                    assert(s@[k] != c);
                } else if k > i {
                    assert(s@[i as int] != c);
                }
            }
            return Some(i);
        }
        i += 1;
    }
    None
}

/// The text before the first `c` and the text after it (`str::split_once`).
pub open spec fn split_once(s: Seq<char>, c: char) -> Option<(Seq<char>, Seq<char>)> {
    match first_index(s, c) {
        Some(i) => Some((s.take(i), s.skip(i + 1))),
        None => None,
    }
}

pub fn split_once_chars(s: &[char], c: char) -> (r: Option<(Vec<char>, Vec<char>)>)
    ensures
        match r {
            Some((a, b)) => split_once(s@, c) == Some((a@, b@)),
            None => split_once(s@, c) is None,
        },
{
    match find_char(s, c) {
        Some(i) => {
            assert(i + 1 <= s.len());
            let a = slice_of(s, 0, i);
            let b = slice_of(s, i + 1, s.len());
            assert(a@ =~= s@.take(i as int));
            assert(b@ =~= s@.skip(i + 1));
            Some((a, b))
        },
        None => None,
    }
}

/// The whitespace-separated words of `s` (`str::split_whitespace`).
pub open spec fn words(s: Seq<char>) -> Seq<Seq<char>> {
    words_from(s, 0, 0)
}

/// Words of `s` from position `i` on, where the current word began at
/// `word_start` (`word_start == i` means no word is open).
pub open spec fn words_from(s: Seq<char>, word_start: int, i: int) -> Seq<Seq<char>>
    decreases s.len() - i,
{
    if i < 0 || word_start < 0 || word_start > i {
        Seq::empty()
    } else if i >= s.len() {
        if word_start < s.len() {
            seq![s.subrange(word_start, s.len() as int)]
        } else {
            Seq::empty()
        }
    } else if is_ws(s[i]) {
        if word_start < i {
            seq![s.subrange(word_start, i)] + words_from(s, i + 1, i + 1)
        } else {
            words_from(s, i + 1, i + 1)
        }
    } else {
        words_from(s, word_start, i + 1)
    }
}

pub fn split_words(s: &[char]) -> (r: Vec<Vec<char>>)
    ensures
        r@.len() == words(s@).len(),
        forall|k: int| 0 <= k < r@.len() ==> #[trigger] r@[k]@ == words(s@)[k],
{
    let mut r: Vec<Vec<char>> = Vec::new();
    let mut start: usize = 0;
    let mut i: usize = 0;
    let ghost done: Seq<Seq<char>> = Seq::empty();
    while i < s.len()
        invariant
            start <= i <= s@.len(),
            r@.len() == done.len(),
            forall|k: int| 0 <= k < r@.len() ==> #[trigger] r@[k]@ == done[k],
            words(s@) == done + words_from(s@, start as int, i as int),
        decreases s@.len() - i,
    {
        if is_whitespace(s[i]) {
            if start < i {
                let w = slice_of(s, start, i);
                proof {
                    done = done.push(w@);
                    assert(words(s@) == done + words_from(s@, (i + 1) as int, (i + 1) as int)) by {
                        assert(done =~= done.drop_last() + seq![s@.subrange(start as int, i as int)]);
                        assert(done.drop_last() + (seq![s@.subrange(start as int, i as int)]
                            + words_from(s@, (i + 1) as int, (i + 1) as int)) =~= done + words_from(
                            s@,
                            (i + 1) as int,
                            (i + 1) as int,
                        ));
                    }
                }
                r.push(w);
            }
            i += 1;
            start = i;
        } else {
            i += 1;
        }
    }
    if start < i {
        let w = slice_of(s, start, i);
        proof {
            assert(words_from(s@, start as int, i as int) == seq![s@.subrange(start as int, i as int)]);
            done = done.push(w@);
            assert(words(s@) =~= done);
        }
        r.push(w);
    } else {
        proof {
            assert(words(s@) =~= done);
        }
    }
    r
}

// ---------------------------------------------------------------------------
// Unsigned integers
// ---------------------------------------------------------------------------

/// Value of one digit in `radix` (10 or 16), if it is one.
pub open spec fn digit_value(c: char, radix: nat) -> Option<nat> {
    if is_digit(c) && (c as u32) - ('0' as u32) < radix {
        Some(((c as u32) - ('0' as u32)) as nat)
    } else if radix == 16 && 'a' <= c <= 'f' {
        Some(((c as u32) - ('a' as u32) + 10) as nat)
    } else if radix == 16 && 'A' <= c <= 'F' {
        Some(((c as u32) - ('A' as u32) + 10) as nat)
    } else {
        None
    }
}

pub open spec fn all_digits(s: Seq<char>, radix: nat) -> bool {
    forall|i: int| 0 <= i < s.len() ==> (#[trigger] digit_value(s[i], radix)) is Some
}

/// The number that the digits `s` spell in `radix` (most significant first).
pub open spec fn digits_value(s: Seq<char>, radix: nat) -> nat
    decreases s.len(),
{
    if s.len() == 0 {
        0
    } else {
        digits_value(s.drop_last(), radix) * radix + match digit_value(s.last(), radix) {
            Some(d) => d,
            None => 0,
        }
    }
}

/// What std's unsigned-integer parsing (`str::parse`, `from_str_radix`)
/// gives for `s` with the type's maximum `max`: an optional leading `+`,
/// then at least one digit, all digits valid, and the value in range.
pub open spec fn parse_unsigned(s: Seq<char>, radix: nat, max: nat) -> Option<nat> {
    if s.len() == 0 {
        None
    } else {
        let d = if s[0] == '+' {
            s.drop_first()
        } else {
            s
        };
        if d.len() == 0 || !all_digits(d, radix) || digits_value(d, radix) > max {
            None
        } else {
            Some(digits_value(d, radix))
        }
    }
}

fn digit_of(c: char, radix: u32) -> (r: Option<u32>)
    requires
        radix == 10 || radix == 16,
    ensures
        match digit_value(c, radix as nat) {
            Some(d) => r == Some(d as u32),
            None => r is None,
        },
{
    let u = c as u32;
    if '0' <= c && c <= '9' && u - 48 < radix {
        Some(u - 48)
    } else if radix == 16 && 'a' <= c && c <= 'f' {
        Some(u - 97 + 10)
    } else if radix == 16 && 'A' <= c && c <= 'F' {
        Some(u - 65 + 10)
    } else {
        None
    }
}

proof fn lemma_digits_value_grows(s: Seq<char>, i: int, radix: nat)
    requires
        0 <= i <= s.len(),
        radix >= 1,
    ensures
        digits_value(s.take(i), radix) <= digits_value(s, radix),
    decreases s.len() - i,
{
    if i < s.len() {
        lemma_digits_value_grows(s, i + 1, radix);
        let t = s.take(i + 1);
        assert(t.drop_last() =~= s.take(i));
        let a = digits_value(s.take(i), radix);
        assert(a * radix >= a) by (nonlinear_arith)
            requires
                radix >= 1,
        ;
    } else {
        assert(s.take(i) =~= s);
    }
}

proof fn lemma_take_step(d: Seq<char>, k: int, radix: nat)
    requires
        0 <= k < d.len(),
        all_digits(d.take(k), radix),
        digit_value(d[k], radix) is Some,
    ensures
        all_digits(d.take(k + 1), radix),
        digits_value(d.take(k + 1), radix) == digits_value(d.take(k), radix) * radix
            + digit_value(d[k], radix)->0,
{
    let t = d.take(k + 1);
    assert(t.drop_last() =~= d.take(k));
    assert(t.last() == d[k]);
    assert forall|j: int| 0 <= j < t.len() implies (#[trigger] digit_value(t[j], radix)) is Some by {
        if j < k {
            assert(t[j] == d.take(k)[j]);
        }
    }
}

/// Whether every character of `s[lo..]` is a digit in `radix`.
fn digits_ok(s: &[char], lo: usize, radix: u32) -> (r: bool)
    requires
        lo <= s@.len(),
        radix == 10 || radix == 16,
    ensures
        r == all_digits(s@.subrange(lo as int, s@.len() as int), radix as nat),
{
    let ghost d = s@.subrange(lo as int, s@.len() as int);
    let mut i: usize = lo;
    while i < s.len()
        invariant
            lo <= i <= s@.len(),
            d == s@.subrange(lo as int, s@.len() as int),
            radix == 10 || radix == 16,
            forall|j: int| lo <= j < i ==> (#[trigger] digit_value(s@[j], radix as nat)) is Some,
        decreases s@.len() - i,
    {
        if digit_of(s[i], radix).is_none() {
            assert(digit_value(d[i - lo], radix as nat) is None);
            return false;
        }
        i += 1;
    }
    assert forall|k: int| 0 <= k < d.len() implies (#[trigger] digit_value(d[k], radix as nat)) is Some by {
        assert(d[k] == s@[lo + k]);
    }
    true
}

/// The value of the digits `s[lo..]`, or `None` when it exceeds `max`.
fn digits_value_capped(s: &[char], lo: usize, radix: u32, max: u64) -> (r: Option<u64>)
    requires
        lo <= s@.len(),
        radix == 10 || radix == 16,
        all_digits(s@.subrange(lo as int, s@.len() as int), radix as nat),
    ensures
        ({
            let v = digits_value(s@.subrange(lo as int, s@.len() as int), radix as nat);
            if v <= max {
                r == Some(v as u64)
            } else {
                r is None
            }
        }),
{
    let ghost d = s@.subrange(lo as int, s@.len() as int);
    let mut acc: u128 = 0;
    let mut i: usize = lo;
    assert(d.take(0) =~= Seq::<char>::empty());
    while i < s.len()
        invariant
            lo <= i <= s@.len(),
            d == s@.subrange(lo as int, s@.len() as int),
            radix == 10 || radix == 16,
            all_digits(d, radix as nat),
            acc == digits_value(d.take(i - lo), radix as nat),
            acc <= max,
        decreases s@.len() - i,
    {
        let dv = match digit_of(s[i], radix) {
            Some(v) => v,
            None => {
                assert(digit_value(d[i - lo], radix as nat) is Some);
                return None;
            },
        };
        proof {
            lemma_take_step(d, i - lo, radix as nat);
        }
        let scaled: u128 = if radix == 10 {
            acc * 10
        } else {
            acc * 16
        };
        let next = scaled + (dv as u128);
        if next > max as u128 {
            proof {
                lemma_digits_value_grows(d, i + 1 - lo, radix as nat);
            }
            return None;
        }
        acc = next;
        i += 1;
    }
    assert(d.take(i - lo) =~= d);
    Some(acc as u64)
}

/// `parse_unsigned` for `radix` 10 or 16 and a maximum of at most `u64::MAX`.
pub fn parse_uint(s: &[char], radix: u32, max: u64) -> (r: Option<u64>)
    requires
        radix == 10 || radix == 16,
    ensures
        match parse_unsigned(s@, radix as nat, max as nat) {
            Some(v) => r == Some(v as u64),
            None => r is None,
        },
{
    if s.len() == 0 {
        return None;
    }
    let start: usize = if s[0] == '+' {
        1
    } else {
        0
    };
    let ghost d = if s@[0] == '+' {
        s@.drop_first()
    } else {
        s@
    };
    assert(d =~= s@.subrange(start as int, s@.len() as int));
    if start == s.len() {
        return None;
    }
    if !digits_ok(s, start, radix) {
        return None;
    }
    digits_value_capped(s, start, radix, max)
}

// ---------------------------------------------------------------------------
// Rendering numbers
// ---------------------------------------------------------------------------

/// The digit character for `d < 16` (lower-case for values above nine).
pub open spec fn digit_char(d: nat) -> char {
    if d < 10 {
        ((d + 48) as u32) as char
    } else {
        ((d - 10 + 97) as u32) as char
    }
}

/// Decimal rendering of `n`, as `{}` prints an unsigned integer.
pub open spec fn dec(n: nat) -> Seq<char>
    decreases n,
{
    if n < 10 {
        seq![digit_char(n)]
    } else {
        dec(n / 10).push(digit_char(n % 10))
    }
}

/// Lower-case hexadecimal rendering of `n` without prefix, as `{:x}` prints it.
pub open spec fn hex(n: nat) -> Seq<char>
    decreases n,
{
    if n < 16 {
        seq![digit_char(n)]
    } else {
        hex(n / 16).push(digit_char(n % 16))
    }
}

fn digit_to_char(d: u64) -> (c: char)
    requires
        d < 16,
    ensures
        c == digit_char(d as nat),
{
    if d < 10 {
        char_from_ascii((d + 48) as u32)
    } else {
        char_from_ascii((d - 10 + 97) as u32)
    }
}

/// Append the digit character for `d < 16`.
pub fn push_hex_digit(out: &mut String, d: u64)
    requires
        d < 16,
    ensures
        final(out)@ == old(out)@.push(digit_char(d as nat)),
{
    out.push(digit_to_char(d));
}

/// Append the decimal rendering of `n`.
pub fn push_dec(out: &mut String, n: u64)
    ensures
        final(out)@ == old(out)@ + dec(n as nat),
    decreases n,
{
    if n >= 10 {
        push_dec(out, n / 10);
    }
    out.push(digit_to_char(n % 10));
    proof {
        if n < 10 {
            assert(dec(n as nat) == seq![digit_char(n as nat)]);
        }
    }
    assert(final(out)@ =~= old(out)@ + dec(n as nat)) by {
        if n >= 10 {
            assert(dec(n as nat) == dec((n / 10) as nat).push(digit_char((n % 10) as nat)));
        }
    };
}

/// Append the lower-case hexadecimal rendering of `n` (no prefix).
pub fn push_hex(out: &mut String, n: u64)
    ensures
        final(out)@ == old(out)@ + hex(n as nat),
    decreases n,
{
    if n >= 16 {
        push_hex(out, n / 16);
    }
    out.push(digit_to_char(n % 16));
    assert(final(out)@ =~= old(out)@ + hex(n as nat)) by {
        if n >= 16 {
            assert(hex(n as nat) == hex((n / 16) as nat).push(digit_char((n % 16) as nat)));
        }
    };
}

/// Decimal digits parse back to the number they render.
pub proof fn lemma_dec_parses(n: nat)
    ensures
        all_digits(dec(n), 10),
        digits_value(dec(n), 10) == n,
        dec(n).len() > 0,
        dec(n)[0] != '+',
    decreases n,
{
    if n >= 10 {
        lemma_dec_parses(n / 10);
        let s = dec(n);
        assert(s.drop_last() =~= dec(n / 10));
        assert(s.last() == digit_char(n % 10));
        assert(digit_value(digit_char(n % 10), 10) == Some(n % 10));
        assert(digits_value(s, 10) == digits_value(dec(n / 10), 10) * 10 + n % 10);
        assert(n == (n / 10) * 10 + n % 10);
        assert(digits_value(s, 10) == n);
        assert(all_digits(s, 10)) by {
            assert forall|i: int| 0 <= i < s.len() implies (#[trigger] digit_value(s[i], 10)) is Some by {
                if i < s.len() - 1 {
                    assert(s[i] == dec(n / 10)[i]);
                }
            }
        }
        assert(s[0] == dec(n / 10)[0]);
    } else {
        let s = dec(n);
        assert(s.drop_last() =~= Seq::<char>::empty());
        assert(digit_value(digit_char(n), 10) == Some(n));
        assert(digits_value(s.drop_last(), 10) == 0);
        assert(s.last() == digit_char(n));
        assert(digits_value(s, 10) == n);
    }
}

} // verus!

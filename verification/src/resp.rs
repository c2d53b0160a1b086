//! RESP (Redis wire protocol) parser.
//!
//! One call scans a byte buffer from left to right and extracts the command
//! names of the complete frames it holds: arrays (`*<count>\r\n` followed by
//! bulk strings) whose first element names the command, and inline commands
//! (a space-separated line ended by CR LF). A trailing incomplete frame
//! stops the scan without being an error.
//!
//! The spec model mirrors the scan exactly: `spec_parse` says which command
//! names (as raw bytes) come out of a buffer, where the scan stops, and
//! whether it stalled inside the trailing elements of an array.

use vstd::prelude::*;
use crate::text::lossy_text_of;
use crate::text::bytes_to_text;
use vstd::slice::slice_subrange;
use vstd::slice::slice_index_get;

verus! {

/// A decimal digit byte, `0`..`9`.
pub open spec fn is_digit(b: u8) -> bool {
    48 <= b && b <= 57
}

/// The terminator pair CR LF stands at index `i`.
pub open spec fn crlf_at(buf: Seq<u8>, i: int) -> bool {
    0 <= i && i + 1 < buf.len() && buf[i] == 13u8 && buf[i + 1] == 10u8
}

/// Index of the first CR LF pair, if any.
pub open spec fn spec_find_crlf(buf: Seq<u8>) -> Option<nat>
    decreases buf.len(),
{
    if buf.len() < 2 {
        None
    } else if buf[0] == 13u8 && buf[1] == 10u8 {
        Some(0nat)
    } else {
        match spec_find_crlf(buf.skip(1)) {
            None => None,
            Some(i) => Some((i + 1) as nat),
        }
    }
}

/// `spec_find_crlf` returns the first CR LF position and nothing else.
pub proof fn lemma_find_crlf(buf: Seq<u8>)
    ensures
        match spec_find_crlf(buf) {
            Some(i) => crlf_at(buf, i as int) && (forall|j: int|
                0 <= j < i ==> !crlf_at(buf, j)),
            None => forall|j: int| !crlf_at(buf, j),
        },
    decreases buf.len(),
{
    if buf.len() < 2 {
    } else if buf[0] == 13u8 && buf[1] == 10u8 {
    } else {
        lemma_find_crlf(buf.skip(1));
        assert forall|j: int| 1 <= j implies crlf_at(buf, j) == crlf_at(
            buf.skip(1),
            j - 1,
        ) by {
            assert(buf.skip(1).len() == buf.len() - 1);
            if 0 <= j - 1 && j < buf.len() - 1 {
                assert(buf.skip(1)[j - 1] == buf[j]);
                assert(buf.skip(1)[j] == buf[j + 1]);
            }
        }
        assert(!crlf_at(buf, 0));
    }
}

/// Where `spec_find_crlf` finds a terminator, it lies within the buffer.
pub proof fn lemma_find_crlf_bounds(buf: Seq<u8>)
    ensures
        match spec_find_crlf(buf) {
            Some(i) => i + 2 <= buf.len(),
            None => true,
        },
{
    lemma_find_crlf(buf);
}

/// From first occurrence to `spec_find_crlf`'s value.
pub proof fn lemma_find_crlf_exact(buf: Seq<u8>, i: int)
    requires
        crlf_at(buf, i),
        forall|j: int| 0 <= j < i ==> !crlf_at(buf, j),
    ensures
        spec_find_crlf(buf) == Some(i as nat),
{
    lemma_find_crlf(buf);
    match spec_find_crlf(buf) {
        Some(k) => {
            if k < i {
                assert(!crlf_at(buf, k as int));
            }
            if k > i {
                assert(!crlf_at(buf, i));
            }
        },
        None => {
            assert(!crlf_at(buf, i));
        },
    }
}

/// The bytes form a signed decimal integer: an optional sign, then at
/// least one digit, and nothing else.
pub open spec fn is_dec_int(s: Seq<u8>) -> bool {
    if s.len() == 0 {
        false
    } else if s[0] == 43u8 || s[0] == 45u8 {
        s.len() > 1 && (forall|i: int| 1 <= i < s.len() ==> is_digit(s[i]))
    } else {
        forall|i: int| 0 <= i < s.len() ==> is_digit(s[i])
    }
}

/// Value of unsigned decimal digit text, most significant digit first.
pub open spec fn dec_value(s: Seq<u8>) -> int
    decreases s.len(),
{
    if s.len() == 0 {
        0
    } else {
        dec_value(s.drop_last()) * 10 + (s.last() - 48)
    }
}

/// Value of the full signed field.
pub open spec fn dec_int_value(s: Seq<u8>) -> int {
    if s.len() > 0 && s[0] == 45u8 {
        -dec_value(s.skip(1))
    } else if s.len() > 0 && s[0] == 43u8 {
        dec_value(s.skip(1))
    } else {
        dec_value(s)
    }
}

/// Reading an integer field `<decimal>\r\n`: its value and the bytes
/// consumed including the terminator. `None` when the terminator is
/// missing, the text is not a decimal integer, or the value does not fit
/// a 64-bit signed integer.
pub open spec fn spec_parse_int(s: Seq<u8>) -> Option<(int, nat)> {
    match spec_find_crlf(s) {
        None => None,
        Some(p) => {
            let digits = s.take(p as int);
            if is_dec_int(digits) && i64::MIN <= dec_int_value(digits) <= i64::MAX {
                Some((dec_int_value(digits), (p + 2) as nat))
            } else {
                None
            }
        },
    }
}

/// A successful integer field consumes at least the terminator and no
/// more than the buffer.
pub proof fn lemma_parse_int_bounds(s: Seq<u8>)
    ensures
        match spec_parse_int(s) {
            Some(r) => 2 <= r.1 <= s.len(),
            None => true,
        },
{
    lemma_find_crlf(s);
}

/// Index of the first space, or the length when there is none.
pub open spec fn spec_first_space(s: Seq<u8>) -> nat
    decreases s.len(),
{
    if s.len() == 0 {
        0
    } else if s[0] == 32u8 {
        0
    } else {
        (1 + spec_first_space(s.skip(1))) as nat
    }
}

/// `spec_first_space` returns the first space position, or the length.
pub proof fn lemma_first_space(s: Seq<u8>)
    ensures
        spec_first_space(s) <= s.len(),
        forall|j: int| 0 <= j < spec_first_space(s) ==> s[j] != 32u8,
        spec_first_space(s) < s.len() ==> s[spec_first_space(s) as int] == 32u8,
    decreases s.len(),
{
    if s.len() == 0 {
    } else if s[0] == 32u8 {
    } else {
        lemma_first_space(s.skip(1));
        assert forall|j: int| 0 <= j < spec_first_space(s) implies s[j] != 32u8 by {
            if j >= 1 {
                assert(s.skip(1)[j - 1] == s[j]);
            }
        }
        if spec_first_space(s) < s.len() {
            assert(s.skip(1)[spec_first_space(s) - 1] == s[spec_first_space(s) as int]);
        }
    }
}

/// Reading an inline command: the name runs to the first space of the
/// line (or the whole line), the line ends at the first CR LF. `None`
/// when the terminator is missing or the name would be empty.
pub open spec fn spec_parse_inline(s: Seq<u8>) -> Option<(Seq<u8>, nat)> {
    match spec_find_crlf(s) {
        None => None,
        Some(p) => {
            let line = s.take(p as int);
            let name = line.take(spec_first_space(line) as int);
            if name.len() == 0 {
                None
            } else {
                Some((name, (p + 2) as nat))
            }
        },
    }
}

/// A successful inline command consumes at least the terminator and no
/// more than the buffer.
pub proof fn lemma_parse_inline_bounds(s: Seq<u8>)
    ensures
        match spec_parse_inline(s) {
            Some(r) => 2 <= r.1 <= s.len(),
            None => true,
        },
{
    lemma_find_crlf(s);
}

/// Outcome of skipping the trailing elements of an array.
pub enum SkipOut {
    /// The elements were passed over (or the scan left the array early on
    /// an unknown lead byte or the end of the buffer): `0` bytes used.
    Done(nat),
    /// An element was begun but its bytes are not all present: the whole
    /// scan stops and reports nothing consumed.
    Stalled,
}

/// Skip `remaining` array elements at the start of `s`: bulk strings by
/// their declared length, simple strings, error replies and integer
/// replies up to their terminator. An unknown lead byte or the end of the
/// buffer leaves the array early; a begun but incomplete element stalls.
pub open spec fn spec_skip_elems(s: Seq<u8>, remaining: int) -> SkipOut
    decreases remaining,
{
    if remaining <= 0 {
        SkipOut::Done(0)
    } else if s.len() == 0 {
        SkipOut::Done(0)
    } else if s[0] == 36u8 {
        match spec_parse_int(s.skip(1)) {
            None => SkipOut::Stalled,
            Some((l, c)) => {
                if l < 0 {
                    match spec_skip_elems(s.skip(1 + c as int), remaining - 1) {
                        SkipOut::Done(d) => SkipOut::Done((1 + c + d) as nat),
                        SkipOut::Stalled => SkipOut::Stalled,
                    }
                } else if 1 + c as int + l + 2 > s.len() {
                    SkipOut::Stalled
                } else {
                    match spec_skip_elems(s.skip(1 + c as int + l + 2), remaining - 1) {
                        SkipOut::Done(d) => SkipOut::Done((1 + c + l + 2 + d) as nat),
                        SkipOut::Stalled => SkipOut::Stalled,
                    }
                }
            },
        }
    } else if s[0] == 43u8 || s[0] == 45u8 || s[0] == 58u8 {
        match spec_find_crlf(s.skip(1)) {
            None => SkipOut::Stalled,
            Some(e) => match spec_skip_elems(s.skip(1 + e as int + 2), remaining - 1) {
                SkipOut::Done(d) => SkipOut::Done((1 + e + 2 + d) as nat),
                SkipOut::Stalled => SkipOut::Stalled,
            },
        }
    } else {
        SkipOut::Done(0)
    }
}

/// Skipping uses no more bytes than the buffer holds.
pub proof fn lemma_skip_elems_bounds(s: Seq<u8>, remaining: int)
    ensures
        match spec_skip_elems(s, remaining) {
            SkipOut::Done(d) => d <= s.len(),
            SkipOut::Stalled => true,
        },
    decreases remaining,
{
    if remaining <= 0 {
    } else if s.len() == 0 {
    } else if s[0] == 36u8 {
        lemma_parse_int_bounds(s.skip(1));
        match spec_parse_int(s.skip(1)) {
            None => {},
            Some((l, c)) => {
                if l < 0 {
                    lemma_skip_elems_bounds(s.skip(1 + c as int), remaining - 1);
                } else if 1 + c as int + l + 2 > s.len() {
                } else {
                    lemma_skip_elems_bounds(s.skip(1 + c as int + l + 2), remaining - 1);
                }
            },
        }
    } else if s[0] == 43u8 || s[0] == 45u8 || s[0] == 58u8 {
        lemma_find_crlf_bounds(s.skip(1));
        match spec_find_crlf(s.skip(1)) {
            None => {},
            Some(e) => {
                lemma_skip_elems_bounds(s.skip(1 + e as int + 2), remaining - 1);
            },
        }
    } else {
    }
}

/// What one scan of a buffer yields.
pub struct ParseOut {
    /// The command names found, as raw bytes, in buffer order.
    pub cmds: Seq<Seq<u8>>,
    /// Where the scan stopped; `0` when it stalled.
    pub end: nat,
    /// The scan stalled inside the trailing elements of an array.
    pub stalled: bool,
}

/// Prefix one step's findings onto the outcome of the rest of the scan.
pub open spec fn parse_step(name: Option<Seq<u8>>, used: nat, sub: ParseOut) -> ParseOut {
    ParseOut {
        cmds: (match name {
            Some(n) => seq![n],
            None => Seq::empty(),
        }) + sub.cmds,
        end: if sub.stalled {
            0
        } else {
            (used + sub.end) as nat
        },
        stalled: sub.stalled,
    }
}

/// The whole scan. Mirrors one pass of the parser: arrays yield the text
/// of their first bulk string, inline lines yield their first token, a
/// count of zero or less is passed over, an array whose first element is
/// a null bulk string is passed over whole and silently (its remaining
/// elements are skipped without being read as commands), and an
/// incomplete or unsupported frame stops the scan.
pub open spec fn spec_parse(s: Seq<u8>) -> ParseOut
    decreases s.len(),
{
    if s.len() == 0 {
        ParseOut { cmds: Seq::empty(), end: 0, stalled: false }
    } else if s[0] != 42u8 {
        match spec_parse_inline(s) {
            None => ParseOut { cmds: Seq::empty(), end: 0, stalled: false },
            Some((name, c)) => {
                proof {
                    lemma_parse_inline_bounds(s);
                }
                parse_step(Some(name), c, spec_parse(s.skip(c as int)))
            },
        }
    } else {
        match spec_parse_int(s.skip(1)) {
            None => ParseOut { cmds: Seq::empty(), end: 0, stalled: false },
            Some((alen, c)) => {
                let h: int = 1 + c as int;
                if alen <= 0 {
                    proof {
                        lemma_parse_int_bounds(s.skip(1));
                    }
                    parse_step(None, h as nat, spec_parse(s.skip(h as int)))
                } else if h >= s.len() || s[h] != 36u8 {
                    ParseOut { cmds: Seq::empty(), end: h as nat, stalled: false }
                } else {
                    match spec_parse_int(s.skip(h + 1)) {
                        None => ParseOut { cmds: Seq::empty(), end: h as nat, stalled: false },
                        Some((slen, c2)) => {
                            let q: int = h + 1 + c2 as int;
                            if slen < 0 {
                                match spec_skip_elems(s.skip(q as int), alen - 1) {
                                    SkipOut::Stalled => ParseOut {
                                        cmds: Seq::empty(),
                                        end: 0,
                                        stalled: true,
                                    },
                                    SkipOut::Done(d) => {
                                        proof {
                                            lemma_parse_int_bounds(s.skip(1));
                                            lemma_parse_int_bounds(s.skip(h + 1));
                                            lemma_skip_elems_bounds(s.skip(q as int), alen - 1);
                                        }
                                        parse_step(
                                            None,
                                            (q + d) as nat,
                                            spec_parse(s.skip(q + d)),
                                        )
                                    },
                                }
                            } else if q + slen + 2 > s.len() {
                                ParseOut { cmds: Seq::empty(), end: q as nat, stalled: false }
                            } else {
                                let name = s.subrange(q as int, q + slen);
                                let r: int = q + slen + 2;
                                match spec_skip_elems(s.skip(r as int), alen - 1) {
                                    SkipOut::Stalled => ParseOut {
                                        cmds: seq![name],
                                        end: 0,
                                        stalled: true,
                                    },
                                    SkipOut::Done(d) => {
                                        proof {
                                            lemma_parse_int_bounds(s.skip(1));
                                            lemma_parse_int_bounds(s.skip(h + 1));
                                            lemma_skip_elems_bounds(s.skip(r as int), alen - 1);
                                        }
                                        parse_step(
                                            Some(name),
                                            (r + d) as nat,
                                            spec_parse(s.skip(r + d)),
                                        )
                                    },
                                }
                            }
                        },
                    }
                }
            },
        }
    }
}

/// Digit text has a nonnegative value.
proof fn lemma_dec_value_nonneg(s: Seq<u8>)
    requires
        forall|j: int| 0 <= j < s.len() ==> is_digit(s[j]),
    ensures
        dec_value(s) >= 0,
    decreases s.len(),
{
    if s.len() > 0 {
        lemma_dec_value_nonneg(s.drop_last());
    }
}

/// Extending digit text by one digit multiplies its value by ten and adds
/// the digit.
proof fn lemma_dec_value_snoc(s: Seq<u8>, k: int)
    requires
        0 <= k < s.len(),
    ensures
        dec_value(s.take(k + 1)) == dec_value(s.take(k)) * 10 + (s[k] - 48),
{
    assert(s.take(k + 1).drop_last() =~= s.take(k));
    assert(s.take(k + 1).last() == s[k]);
}

/// A prefix of digit text has a value no larger than the whole.
proof fn lemma_dec_value_prefix(s: Seq<u8>, k: int)
    requires
        0 <= k <= s.len(),
        forall|j: int| 0 <= j < s.len() ==> is_digit(s[j]),
    ensures
        dec_value(s.take(k)) <= dec_value(s),
    decreases s.len(),
{
    if k == s.len() {
        assert(s.take(k) =~= s);
    } else {
        let dl = s.drop_last();
        assert(s.take(k) =~= dl.take(k));
        lemma_dec_value_prefix(dl, k);
        lemma_dec_value_nonneg(dl);
    }
}

/// Read a decimal integer field ended by CR LF; returns the value and the
/// bytes consumed including the terminator.
pub fn parse_integer(buf: &[u8]) -> (r: Option<(i64, usize)>)
    ensures
        match r {
            Some(v) => spec_parse_int(buf@) == Some((v.0 as int, v.1 as nat)),
            None => spec_parse_int(buf@) is None,
        },
{
    let p = match find_crlf(buf) {
        Some(p) => p,
        None => {
            return None;
        },
    };
    proof {
        lemma_find_crlf(buf@);
    }
    let n = buf.len();
    proof {
        assert(p + 2 <= n);
    }
    let ghost digits = buf@.take(p as int);
    if p == 0 {
        return None;
    }
    let mut neg = false;
    let mut start: usize = 0;
    if buf[0] == 43u8 {
        start = 1;
    } else if buf[0] == 45u8 {
        neg = true;
        start = 1;
    }
    if start >= p {
        return None;
    }
    let ghost ud = digits.skip(start as int);
    proof {
        assert(forall|j: int| 0 <= j < ud.len() ==> ud[j] == digits[j + start]);
    }
    let mut acc: u64 = 0;
    let mut i: usize = start;
    let mut overflowed = false;
    while i < p
        invariant
            start <= i <= p,
            p + 1 < buf@.len(),
            spec_find_crlf(buf@) == Some(p as nat),
            start == 0 || start == 1,
            p > start,
            digits == buf@.take(p as int),
            ud == digits.skip(start as int),
            start == 1 ==> (digits[0] == 43u8 || digits[0] == 45u8),
            start == 0 ==> !(digits[0] == 43u8 || digits[0] == 45u8),
            neg <==> (start == 1 && digits[0] == 45u8),
            forall|j: int| start <= j < i ==> is_digit(buf@[j]),
            !overflowed ==> acc as int == dec_value(ud.take(i - start)),
            overflowed ==> dec_value(ud.take(i - start)) > u64::MAX,
            forall|j: int| 0 <= j < ud.len() ==> ud[j] == digits[j + start],
        decreases p - i,
    {
        let b = buf[i];
        if b < 48 || b > 57 {
            proof {
                assert(digits.len() == p);
                assert(digits[i as int] == buf@[i as int]);
                assert(!is_digit(digits[i as int]));
                assert(!is_dec_int(digits));
            }
            return None;
        }
        proof {
            lemma_dec_value_snoc(ud, i - start);
            assert(ud[i - start] == buf@[i as int]);
        }
        if !overflowed {
            let wide = match acc.checked_mul(10) {
                Some(x) => x.checked_add((b - 48) as u64),
                None => None,
            };
            match wide {
                Some(x) => {
                    acc = x;
                },
                None => {
                    overflowed = true;
                },
            }
        }
        i += 1;
    }
    proof {
        assert(ud.take(p - start) =~= ud);
        assert(forall|j: int| 0 <= j < ud.len() ==> is_digit(ud[j]));
        assert(is_dec_int(digits));
    }
    if overflowed {
        proof {
            assert(dec_value(ud) > u64::MAX);
            assert(dec_int_value(digits) == if neg {
                -dec_value(ud)
            } else {
                dec_value(ud)
            }) by {
                if start == 0 {
                    assert(ud =~= digits);
                }
            }
        }
        return None;
    }
    proof {
        assert(acc as int == dec_value(ud));
        assert(dec_int_value(digits) == if neg {
            -dec_value(ud)
        } else {
            dec_value(ud)
        }) by {
            if start == 0 {
                assert(ud =~= digits);
            }
        }
    }
    if neg {
        if acc > 9223372036854775808u64 {
            return None;
        } else if acc == 9223372036854775808u64 {
            return Some((i64::MIN, p + 2));
        } else {
            return Some((-(acc as i64), p + 2));
        }
    } else {
        if acc > i64::MAX as u64 {
            return None;
        } else {
            return Some((acc as i64, p + 2));
        }
    }
}

/// Read an inline command: the first token of a line ended by CR LF.
pub fn parse_inline_command(buf: &[u8]) -> (r: Option<(String, usize)>)
    ensures
        match spec_parse_inline(buf@) {
            Some(sv) => match r {
                Some(v) => v.0@ == lossy_text_of(sv.0) && v.1 as nat == sv.1,
                None => false,
            },
            None => r is None,
        },
{
    let p = match find_crlf(buf) {
        Some(p) => p,
        None => {
            return None;
        },
    };
    proof {
        lemma_find_crlf(buf@);
        lemma_first_space(buf@.take(p as int));
    }
    let ghost line = buf@.take(p as int);
    let mut e: usize = 0;
    while e < p && buf[e] != 32u8
        invariant
            0 <= e <= p,
            p + 1 < buf@.len(),
            forall|j: int| 0 <= j < e ==> buf@[j] != 32u8,
        decreases p - e,
    {
        e += 1;
    }
    proof {
        lemma_first_space(line);
        assert(forall|j: int| 0 <= j < p ==> line[j] == buf@[j]);
        if e < p {
            assert(line[e as int] == 32u8);
        }
        assert(spec_first_space(line) == e) by {
            let fs = spec_first_space(line) as int;
            if fs < e {
                assert(line[fs] == 32u8);
                assert(buf@[fs] != 32u8);
            }
            if fs > e {
                assert(e < p);
                assert(line[e as int] != 32u8);
            }
        }
    }
    if e == 0 {
        return None;
    }
    let name_slice = slice_subrange(buf, 0, e);
    proof {
        assert(line.take(e as int) =~= buf@.subrange(0, e as int));
    }
    let n = buf.len();
    proof {
        assert(p + 2 <= n);
    }
    let cmd = bytes_to_text(name_slice);
    Some((cmd, p + 2))
}

/// Find the position of the first CR LF pair in the buffer.
pub fn find_crlf(buf: &[u8]) -> (r: Option<usize>)
    ensures
        match r {
            Some(i) => spec_find_crlf(buf@) == Some(i as nat),
            None => spec_find_crlf(buf@) is None,
        },
{
    proof {
        lemma_find_crlf(buf@);
    }
    let n = buf.len();
    if n < 2 {
        return None;
    }
    let mut i: usize = 0;
    while i + 1 < n
        invariant
            n == buf@.len(),
            2 <= n,
            i + 1 <= n,
            forall|j: int| 0 <= j < i ==> !crlf_at(buf@, j),
        decreases n - i,
    {
        if buf[i] == 13u8 && buf[i + 1] == 10u8 {
            proof {
                lemma_find_crlf(buf@);
                assert(crlf_at(buf@, i as int));
                match spec_find_crlf(buf@) {
                    Some(k) => {
                        if k < i {
                            assert(crlf_at(buf@, k as int));
                        }
                        if k > i {
                            assert(!crlf_at(buf@, i as int));
                        }
                    },
                    None => {
                        assert(!crlf_at(buf@, i as int));
                    },
                }
            }
            return Some(i);
        }
        i += 1;
    }
    proof {
        lemma_find_crlf(buf@);
        match spec_find_crlf(buf@) {
            Some(k) => {
                assert(crlf_at(buf@, k as int));
            },
            None => {},
        }
    }
    None
}


/// A stalled scan reports no bytes consumed.
pub proof fn lemma_parse_stalled_end(s: Seq<u8>)
    ensures
        spec_parse(s).stalled ==> spec_parse(s).end == 0,
{
}

/// Skipping twice is skipping the sum.
proof fn lemma_skip_skip(s: Seq<u8>, a: int, b: int)
    requires
        0 <= a,
        0 <= b,
        a + b <= s.len(),
    ensures
        s.skip(a).skip(b) == s.skip(a + b),
{
    assert(s.skip(a).skip(b) =~= s.skip(a + b));
}


/// Pass over the trailing elements of an array of `alen` declared
/// elements whose bytes begin at `rstart`. Returns where the scan of
/// this array ended, or `None` when an element was begun but its bytes
/// are not all present.
fn skip_array_elems(buf: &[u8], rstart: usize, alen: i64) -> (r: Option<usize>)
    requires
        rstart <= buf@.len(),
        1 <= alen,
    ensures
        match r {
            Some(cur) => rstart <= cur <= buf@.len() && spec_skip_elems(
                buf@.skip(rstart as int),
                alen - 1,
            ) == SkipOut::Done((cur - rstart) as nat),
            None => spec_skip_elems(buf@.skip(rstart as int), alen - 1) == SkipOut::Stalled,
        },
{
    let n = buf.len();
    let ghost sr = buf@.skip(rstart as int);
    let mut k: i64 = 1;
    let mut cur: usize = rstart;
    while k < alen
        invariant
            n == buf@.len(),
            rstart <= cur <= n,
            1 <= k <= alen,
            sr == buf@.skip(rstart as int),
            match spec_skip_elems(buf@.skip(cur as int), alen - k) {
                SkipOut::Done(d) => spec_skip_elems(sr, alen - 1) == SkipOut::Done(
                    (cur - rstart + d) as nat,
                ),
                SkipOut::Stalled => spec_skip_elems(sr, alen - 1) == SkipOut::Stalled,
            },
        decreases alen - k,
    {
        let ghost sc = buf@.skip(cur as int);
        if cur >= n {
            proof {
                assert(sc.len() == 0);
            }
            return Some(cur);
        }
        proof {
            assert(sc[0] == buf@[cur as int]);
        }
        let lead = *slice_index_get(buf, cur);
        if lead == 36u8 {
            let t = slice_subrange(buf, cur + 1, n);
            proof {
                lemma_skip_skip(buf@, cur as int, 1);
                assert(t@ =~= sc.skip(1));
            }
            match parse_integer(t) {
                None => {
                    return None;
                },
                Some(lv) => {
                    let (l, cc) = lv;
                    proof {
                        lemma_parse_int_bounds(sc.skip(1));
                    }
                    let nc = cur + 1 + cc;
                    if l < 0 {
                        proof {
                            lemma_skip_skip(buf@, cur as int, (1 + cc) as int);
                        }
                        cur = nc;
                        k = k + 1;
                    } else if n - nc < 2 || (l as u64) > ((n - nc - 2) as u64) {
                        proof {
                            assert(1 + cc + l + 2 > sc.len());
                        }
                        return None;
                    } else {
                        proof {
                            lemma_skip_skip(buf@, cur as int, 1 + cc + l + 2);
                        }
                        cur = nc + (l as usize) + 2;
                        k = k + 1;
                    }
                },
            }
        } else if lead == 43u8 || lead == 45u8 || lead == 58u8 {
            let t = slice_subrange(buf, cur + 1, n);
            proof {
                lemma_skip_skip(buf@, cur as int, 1);
                assert(t@ =~= sc.skip(1));
            }
            match find_crlf(t) {
                None => {
                    return None;
                },
                Some(e) => {
                    proof {
                        lemma_find_crlf_bounds(sc.skip(1));
                        lemma_skip_skip(buf@, cur as int, (1 + e + 2) as int);
                    }
                    cur = cur + 1 + e + 2;
                    k = k + 1;
                },
            }
        } else {
            return Some(cur);
        }
    }
    proof {
        assert(spec_skip_elems(buf@.skip(cur as int), alen - k) == SkipOut::Done(0));
    }
    Some(cur)
}

/// What one look at an array frame did to the scan.
enum ArrayStep {
    /// The array was passed over without yielding a command (a count of
    /// zero or less, or a whole array whose first element is a null bulk
    /// string).
    Advance(usize),
    /// The command name was taken; the scan continues at the position.
    AdvanceWith(String, usize),
    /// The scan stops at the position (an incomplete or unsupported
    /// frame).
    Stop(usize),
    /// A trailing element is incomplete: the whole scan stops and
    /// reports nothing consumed. The command name, when the array named
    /// one before stalling.
    StalledStop(Option<String>),
}

/// Handle one array frame standing at `pos`.
#[verifier::rlimit(100)]
fn parse_array_at(buf: &[u8], pos: usize) -> (r: ArrayStep)
    requires
        pos < buf@.len(),
        buf@[pos as int] == 42u8,
    ensures
        ({
            let out = spec_parse(buf@.skip(pos as int));
            match r {
                ArrayStep::Advance(np) => pos < np <= buf@.len() && out.cmds == spec_parse(
                    buf@.skip(np as int),
                ).cmds && out.stalled == spec_parse(buf@.skip(np as int)).stalled && (!out.stalled
                    ==> out.end == np - pos + spec_parse(buf@.skip(np as int)).end) && (out.stalled
                    ==> out.end == 0),
                ArrayStep::AdvanceWith(cmd, np) => pos < np <= buf@.len() && out.cmds.len() >= 1
                    && out.cmds == seq![out.cmds[0]] + spec_parse(buf@.skip(np as int)).cmds
                    && cmd@ == lossy_text_of(out.cmds[0]) && out.stalled == spec_parse(
                    buf@.skip(np as int),
                ).stalled && (!out.stalled ==> out.end == np - pos + spec_parse(
                    buf@.skip(np as int),
                ).end) && (out.stalled ==> out.end == 0),
                ArrayStep::Stop(e) => pos <= e <= buf@.len() && out == (ParseOut {
                    cmds: Seq::<Seq<u8>>::empty(),
                    end: (e - pos) as nat,
                    stalled: false,
                }),
                ArrayStep::StalledStop(copt) => out.stalled && out.end == 0 && match copt {
                    Some(cmd) => out.cmds.len() == 1 && out.cmds == seq![out.cmds[0]] && cmd@
                        == lossy_text_of(out.cmds[0]),
                    None => out.cmds == Seq::<Seq<u8>>::empty(),
                },
            }
        }),
{
    let n = buf.len();
    let ghost s = buf@.skip(pos as int);
    let ghost rest = spec_parse(s);
    proof {
        assert(s.len() == n - pos);
        assert(s[0] == buf@[pos as int]);
    }
    let header_tail = slice_subrange(buf, pos + 1, n);
    proof {
        lemma_skip_skip(buf@, pos as int, 1);
        assert(header_tail@ =~= s.skip(1));
    }
    match parse_integer(header_tail) {
        None => {
            return ArrayStep::Stop(pos);
        },
        Some(av) => {
            let (alen, c) = av;
            proof {
                lemma_parse_int_bounds(s.skip(1));
            }
            let h = pos + 1 + c;
            if alen <= 0 {
                proof {
                    lemma_skip_skip(buf@, pos as int, (1 + c) as int);
                    assert(rest == parse_step(
                        None,
                        (1 + c) as nat,
                        spec_parse(buf@.skip(h as int)),
                    ));
                }
                return ArrayStep::Advance(h);
            }
            if h >= n || *slice_index_get(buf, h) != 36u8 {
                proof {
                    assert(h < n ==> s[1 + c as int] == buf@[h as int]);
                    assert(rest.end == 1 + c);
                }
                return ArrayStep::Stop(h);
            }
            let bulk_tail = slice_subrange(buf, h + 1, n);
            proof {
                lemma_skip_skip(buf@, pos as int, (1 + c + 1) as int);
                assert(bulk_tail@ =~= s.skip(1 + c as int + 1));
                assert(s[1 + c as int] == buf@[h as int]);
            }
            match parse_integer(bulk_tail) {
                None => {
                    proof {
                        assert(rest.end == 1 + c);
                    }
                    return ArrayStep::Stop(h);
                },
                Some(sv) => {
                    let (slen, c2) = sv;
                    proof {
                        lemma_parse_int_bounds(s.skip(1 + c as int + 1));
                    }
                    let q = h + 1 + c2;
                    if slen < 0 {
                        proof {
                            lemma_skip_skip(buf@, pos as int, q - pos);
                        }
                        match skip_array_elems(buf, q, alen) {
                            None => {
                                proof {
                                    assert(rest == ParseOut {
                                        cmds: Seq::<Seq<u8>>::empty(),
                                        end: 0,
                                        stalled: true,
                                    });
                                }
                                return ArrayStep::StalledStop(None);
                            },
                            Some(cur) => {
                                proof {
                                    assert(spec_skip_elems(buf@.skip(q as int), alen - 1)
                                        == SkipOut::Done((cur - q) as nat));
                                    lemma_skip_skip(buf@, pos as int, cur - pos);
                                    assert(rest == parse_step(
                                        None,
                                        (cur - pos) as nat,
                                        spec_parse(buf@.skip(cur as int)),
                                    ));
                                }
                                return ArrayStep::Advance(cur);
                            },
                        }
                    }
                    if n - q < 2 || (slen as u64) > ((n - q - 2) as u64) {
                        proof {
                            assert(q - pos + slen + 2 > s.len());
                            assert(rest.end == q - pos);
                        }
                        return ArrayStep::Stop(q);
                    }
                    let sl = slen as usize;
                    let name_slice = slice_subrange(buf, q, q + sl);
                    let ghost name = s.subrange(q - pos, q - pos + slen as int);
                    proof {
                        assert(name_slice@ =~= name);
                    }
                    let cmd = bytes_to_text(name_slice);
                    let rstart = q + sl + 2;
                    let ghost sr = buf@.skip(rstart as int);
                    proof {
                        lemma_skip_skip(buf@, pos as int, rstart - pos);
                    }
                    match skip_array_elems(buf, rstart, alen) {
                        None => {
                            proof {
                                assert(rest == ParseOut {
                                    cmds: seq![name],
                                    end: 0,
                                    stalled: true,
                                });
                            }
                            ArrayStep::StalledStop(Some(cmd))
                        },
                        Some(cur) => {
                            proof {
                                let d = cur - rstart;
                                assert(spec_skip_elems(sr, alen - 1) == SkipOut::Done(d as nat));
                                lemma_skip_skip(buf@, pos as int, cur - pos);
                                assert(rest == parse_step(
                                    Some(name),
                                    (cur - pos) as nat,
                                    spec_parse(buf@.skip(cur as int)),
                                ));
                                assert(rest.cmds[0] == name);
                                assert(rest.cmds == seq![rest.cmds[0]] + spec_parse(
                                    buf@.skip(cur as int),
                                ).cmds) by {
                                    assert(seq![name] + spec_parse(buf@.skip(cur as int)).cmds
                                        == rest.cmds);
                                    assert(seq![rest.cmds[0]] =~= seq![name]);
                                }
                            }
                            ArrayStep::AdvanceWith(cmd, cur)
                        },
                    }
                },
            }
        },
    }
}

/// Scan a buffer and extract the command names of the complete frames in
/// it, in buffer order, with the position where the scan stopped. The
/// position is advisory telemetry: it is `0` when the scan stalled inside
/// the trailing elements of an array it had already begun to pass over.
#[verifier::rlimit(100)]
pub fn parse_commands(buf: &[u8]) -> (r: (Vec<String>, usize))
    ensures
        r.0@.len() == spec_parse(buf@).cmds.len(),
        forall|i: int| 0 <= i < r.0@.len() ==> r.0@[i]@ == lossy_text_of(
            spec_parse(buf@).cmds[i],
        ),
        r.1 as nat == spec_parse(buf@).end,
        r.1 <= buf@.len(),
{
    let n = buf.len();
    let mut commands: Vec<String> = Vec::new();
    let mut pos: usize = 0;
    let ghost whole = spec_parse(buf@);
    let ghost done: Seq<Seq<u8>> = Seq::empty();
    proof {
        lemma_parse_stalled_end(buf@);
        assert(buf@.skip(0) =~= buf@);
    }
    while pos < n
        invariant
            n == buf@.len(),
            pos <= n,
            whole == spec_parse(buf@),
            whole.cmds == done + spec_parse(buf@.skip(pos as int)).cmds,
            whole.stalled == spec_parse(buf@.skip(pos as int)).stalled,
            !spec_parse(buf@.skip(pos as int)).stalled ==> whole.end == pos + spec_parse(
                buf@.skip(pos as int),
            ).end,
            spec_parse(buf@.skip(pos as int)).stalled ==> whole.end == 0,
            commands@.len() == done.len(),
            forall|i: int| 0 <= i < done.len() ==> commands@[i]@ == lossy_text_of(done[i]),
        decreases n - pos,
    {
        let ghost s = buf@.skip(pos as int);
        let ghost rest = spec_parse(s);
        proof {
            assert(s.len() == n - pos);
            assert(s[0] == buf@[pos as int]);
        }
        if *slice_index_get(buf, pos) != 42u8 {
            let tail = slice_subrange(buf, pos, n);
            proof {
                assert(tail@ =~= s);
            }
            match parse_inline_command(tail) {
                Some(cv) => {
                    let (cmd, used) = cv;
                    proof {
                        lemma_parse_inline_bounds(s);
                    }
                    let ghost name = spec_parse_inline(s).unwrap().0;
                    commands.push(cmd);
                    proof {
                        lemma_skip_skip(buf@, pos as int, used as int);
                        assert(rest == parse_step(
                            Some(name),
                            used as nat,
                            spec_parse(buf@.skip(pos + used)),
                        ));
                        assert(whole.cmds == (done + seq![name]) + spec_parse(
                            buf@.skip(pos + used),
                        ).cmds) by {
                            assert(done + (seq![name] + spec_parse(buf@.skip(pos + used)).cmds)
                                =~= (done + seq![name]) + spec_parse(buf@.skip(pos + used)).cmds);
                        }
                    }
                    let ghost done2 = done + seq![name];
                    proof {
                        done = done2;
                    }
                    pos = pos + used;
                },
                None => {
                    proof {
                        assert(rest.cmds =~= Seq::<Seq<u8>>::empty());
                        assert(whole.cmds =~= done);
                    }
                    return (commands, pos);
                },
            }
        } else {
            match parse_array_at(buf, pos) {
                ArrayStep::Advance(np) => {
                    pos = np;
                },
                ArrayStep::AdvanceWith(cmd, np) => {
                    commands.push(cmd);
                    proof {
                        let name = rest.cmds[0];
                        assert(whole.cmds == (done + seq![name]) + spec_parse(
                            buf@.skip(np as int),
                        ).cmds) by {
                            assert(done + (seq![name] + spec_parse(buf@.skip(np as int)).cmds)
                                =~= (done + seq![name]) + spec_parse(buf@.skip(np as int)).cmds);
                        }
                    }
                    let ghost done2 = done + seq![rest.cmds[0]];
                    proof {
                        done = done2;
                    }
                    pos = np;
                },
                ArrayStep::Stop(e) => {
                    proof {
                        assert(whole.cmds =~= done);
                    }
                    return (commands, e);
                },
                ArrayStep::StalledStop(copt) => {
                    match copt {
                        Some(cmd) => {
                            commands.push(cmd);
                            proof {
                                let name = rest.cmds[0];
                                assert(whole.cmds == done + seq![name]) by {
                                    assert(done + seq![name] =~= done + rest.cmds);
                                }
                            }
                        },
                        None => {
                            proof {
                                assert(whole.cmds =~= done);
                            }
                        },
                    }
                    proof {
                        assert(whole.end == 0);
                    }
                    return (commands, 0);
                },
            }
        }
    }
    proof {
        assert(buf@.skip(pos as int).len() == 0);
        assert(spec_parse(buf@.skip(pos as int)) == ParseOut {
            cmds: Seq::<Seq<u8>>::empty(),
            end: 0nat,
            stalled: false,
        });
        assert(whole.cmds =~= done);
    }
    (commands, pos)
}


/// More bytes after a buffer leave its first terminator where it was.
proof fn lemma_find_crlf_append(s: Seq<u8>, t: Seq<u8>)
    requires
        spec_find_crlf(s) is Some,
    ensures
        spec_find_crlf(s + t) == spec_find_crlf(s),
{
    lemma_find_crlf(s);
    let i = spec_find_crlf(s).unwrap() as int;
    assert(crlf_at(s + t, i));
    assert forall|j: int| 0 <= j < i implies !crlf_at(s + t, j) by {
        assert(!crlf_at(s, j));
        assert(j + 1 < s.len());
        assert((s + t)[j] == s[j] && (s + t)[j + 1] == s[j + 1]);
    }
    lemma_find_crlf_exact(s + t, i);
}

/// More bytes after a buffer leave a complete integer field unchanged.
proof fn lemma_parse_int_append(s: Seq<u8>, t: Seq<u8>)
    requires
        spec_parse_int(s) is Some,
    ensures
        spec_parse_int(s + t) == spec_parse_int(s),
{
    lemma_find_crlf_append(s, t);
    lemma_find_crlf(s);
    let p = spec_find_crlf(s).unwrap() as int;
    assert((s + t).take(p) =~= s.take(p));
}

/// More bytes after a buffer leave a complete inline command unchanged.
proof fn lemma_parse_inline_append(s: Seq<u8>, t: Seq<u8>)
    requires
        spec_parse_inline(s) is Some,
    ensures
        spec_parse_inline(s + t) == spec_parse_inline(s),
{
    lemma_find_crlf_append(s, t);
    lemma_find_crlf(s);
    let p = spec_find_crlf(s).unwrap() as int;
    assert((s + t).take(p) =~= s.take(p));
}

/// More bytes after a buffer change nothing about element-skipping that
/// came to rest strictly inside the buffer.
proof fn lemma_skip_elems_append(s: Seq<u8>, t: Seq<u8>, remaining: int)
    ensures
        match spec_skip_elems(s, remaining) {
            SkipOut::Done(d) => d < s.len() ==> spec_skip_elems(s + t, remaining) == SkipOut::Done(
                d,
            ),
            SkipOut::Stalled => true,
        },
    decreases remaining,
{
    if remaining <= 0 {
    } else if s.len() == 0 {
    } else {
        assert((s + t)[0] == s[0]);
        if s[0] == 36u8 {
            match spec_parse_int(s.skip(1)) {
                None => {},
                Some((l, c)) => {
                    lemma_parse_int_append(s.skip(1), t);
                    assert((s + t).skip(1) =~= s.skip(1) + t);
                    lemma_parse_int_bounds(s.skip(1));
                    if l < 0 {
                        lemma_skip_elems_append(s.skip(1 + c as int), t, remaining - 1);
                        assert((s + t).skip(1 + c as int) =~= s.skip(1 + c as int) + t);
                    } else if 1 + c as int + l + 2 > s.len() {
                    } else {
                        lemma_skip_elems_append(s.skip(1 + c as int + l + 2), t, remaining - 1);
                        assert((s + t).skip(1 + c as int + l + 2) =~= s.skip(
                            1 + c as int + l + 2,
                        ) + t);
                    }
                },
            }
        } else if s[0] == 43u8 || s[0] == 45u8 || s[0] == 58u8 {
            match spec_find_crlf(s.skip(1)) {
                None => {},
                Some(e) => {
                    lemma_find_crlf_append(s.skip(1), t);
                    assert((s + t).skip(1) =~= s.skip(1) + t);
                    lemma_find_crlf_bounds(s.skip(1));
                    lemma_skip_elems_append(s.skip(1 + e as int + 2), t, remaining - 1);
                    assert((s + t).skip(1 + e as int + 2) =~= s.skip(1 + e as int + 2) + t);
                },
            }
        } else {
        }
    }
}

/// The empty run of names begins every run.
proof fn lemma_empty_prefix(b: Seq<Seq<u8>>)
    ensures
        Seq::<Seq<u8>>::empty().is_prefix_of(b),
{
    assert(b.subrange(0, 0) =~= Seq::<Seq<u8>>::empty());
}

/// A run of names begins itself with more appended.
proof fn lemma_prefix_of_extension(a: Seq<Seq<u8>>, b: Seq<Seq<u8>>)
    ensures
        a.is_prefix_of(a + b),
{
    assert((a + b).subrange(0, a.len() as int) =~= a);
}

/// A shared first name keeps a prefix a prefix.
proof fn lemma_prefix_cons(x: Seq<u8>, a: Seq<Seq<u8>>, b: Seq<Seq<u8>>)
    requires
        a.is_prefix_of(b),
    ensures
        (seq![x] + a).is_prefix_of(seq![x] + b),
{
    assert((seq![x] + b).subrange(0, 1 + a.len() as int) =~= seq![x] + a);
}

/// Extending a buffer never takes back a command already extracted: what
/// the scan returns for a buffer is a prefix of what it returns for that
/// buffer with any further bytes appended. The stream may be split into
/// reads anywhere; frames that were already complete keep their names.
#[verifier::rlimit(100)]
pub proof fn lemma_parse_prefix_monotonic(s: Seq<u8>, t: Seq<u8>)
    ensures
        spec_parse(s).cmds.is_prefix_of(spec_parse(s + t).cmds),
    decreases s.len(), 1int,
{
    let b = s + t;
    if s.len() == 0 {
        assert(spec_parse(s).cmds =~= Seq::<Seq<u8>>::empty());
        lemma_empty_prefix(spec_parse(b).cmds);
    } else {
        assert(b[0] == s[0]);
        if s[0] != 42u8 {
            match spec_parse_inline(s) {
                None => {
                    lemma_empty_prefix(spec_parse(b).cmds);
                },
                Some((name, c)) => {
                    lemma_parse_inline_append(s, t);
                    lemma_parse_inline_bounds(s);
                    assert(b.skip(c as int) =~= s.skip(c as int) + t);
                    lemma_parse_prefix_monotonic(s.skip(c as int), t);
                    lemma_prefix_cons(
                        name,
                        spec_parse(s.skip(c as int)).cmds,
                        spec_parse(b.skip(c as int)).cmds,
                    );
                },
            }
        } else {
            match spec_parse_int(s.skip(1)) {
                None => {
                    lemma_empty_prefix(spec_parse(b).cmds);
                },
                Some((alen, c)) => {
                    lemma_parse_int_append(s.skip(1), t);
                    assert(b.skip(1) =~= s.skip(1) + t);
                    lemma_parse_int_bounds(s.skip(1));
                    let h: int = 1 + c as int;
                    if alen <= 0 {
                        assert(b.skip(h) =~= s.skip(h) + t);
                        lemma_parse_prefix_monotonic(s.skip(h), t);
                        assert(spec_parse(s).cmds =~= spec_parse(s.skip(h)).cmds);
                        assert(spec_parse(b).cmds =~= spec_parse(b.skip(h)).cmds);
                    } else if h >= s.len() || s[h] != 36u8 {
                        lemma_empty_prefix(spec_parse(b).cmds);
                    } else {
                        assert(b[h] == s[h]);
                        match spec_parse_int(s.skip(h + 1)) {
                            None => {
                                lemma_empty_prefix(spec_parse(b).cmds);
                            },
                            Some((slen, c2)) => {
                                lemma_parse_int_append(s.skip(h + 1), t);
                                assert(b.skip(h + 1) =~= s.skip(h + 1) + t);
                                lemma_parse_int_bounds(s.skip(h + 1));
                                let q: int = h + 1 + c2 as int;
                                if slen < 0 {
                                    lemma_skip_null_first_case(s, t, alen, q);
                                } else if q + slen + 2 > s.len() {
                                    lemma_empty_prefix(spec_parse(b).cmds);
                                } else {
                                    lemma_skip_named_case(s, t, alen, q, slen);
                                }
                            },
                        }
                    }
                },
            }
        }
    }
}

/// The array-with-a-name arm of `lemma_parse_prefix_monotonic`: the name
/// already taken stays first, whatever the appended bytes make of the
/// array's trailing elements.
#[verifier::rlimit(100)]
proof fn lemma_skip_named_case(s: Seq<u8>, t: Seq<u8>, alen: int, q: int, slen: int)
    requires
        s.len() > 0,
        s[0] == 42u8,
        spec_parse_int(s.skip(1)) is Some,
        spec_parse_int(s.skip(1)).unwrap().0 == alen,
        alen > 0,
        q == 1 + spec_parse_int(s.skip(1)).unwrap().1 + 1 + spec_parse_int(
            s.skip(1 + spec_parse_int(s.skip(1)).unwrap().1 as int + 1),
        ).unwrap().1,
        1 + spec_parse_int(s.skip(1)).unwrap().1 < s.len(),
        s[1 + spec_parse_int(s.skip(1)).unwrap().1 as int] == 36u8,
        spec_parse_int(s.skip(1 + spec_parse_int(s.skip(1)).unwrap().1 as int + 1)) is Some,
        spec_parse_int(s.skip(1 + spec_parse_int(s.skip(1)).unwrap().1 as int + 1)).unwrap().0
            == slen,
        0 <= slen,
        q + slen + 2 <= s.len(),
        spec_parse_int((s + t).skip(1)) == spec_parse_int(s.skip(1)),
        spec_parse_int((s + t).skip(
            1 + spec_parse_int(s.skip(1)).unwrap().1 as int + 1,
        )) == spec_parse_int(s.skip(1 + spec_parse_int(s.skip(1)).unwrap().1 as int + 1)),
    ensures
        spec_parse(s).cmds.is_prefix_of(spec_parse(s + t).cmds),
    decreases s.len(), 0int,
{
    let b = s + t;
    let name = s.subrange(q, q + slen);
    assert(b.subrange(q, q + slen) =~= name);
    let r: int = q + slen + 2;
    assert(b.skip(r) =~= s.skip(r) + t);
    lemma_skip_elems_bounds(s.skip(r), alen - 1);
    lemma_skip_elems_append(s.skip(r), t, alen - 1);
    match spec_skip_elems(s.skip(r), alen - 1) {
        SkipOut::Stalled => {
            assert(spec_parse(s).cmds == seq![name]);
            match spec_skip_elems(b.skip(r), alen - 1) {
                SkipOut::Stalled => {
                    assert(spec_parse(b).cmds == seq![name]);
                    assert(seq![name].subrange(0, 1) =~= seq![name]);
                },
                SkipOut::Done(d2) => {
                    lemma_prefix_of_extension(
                        seq![name],
                        spec_parse(b.skip(r + d2)).cmds,
                    );
                },
            }
        },
        SkipOut::Done(d) => {
            if r + d < s.len() {
                assert(spec_skip_elems(b.skip(r), alen - 1) == SkipOut::Done(d));
                assert(b.skip(r + d) =~= s.skip(r + d) + t);
                lemma_parse_prefix_monotonic(s.skip(r + d), t);
                lemma_prefix_cons(
                    name,
                    spec_parse(s.skip(r + d)).cmds,
                    spec_parse(b.skip(r + d)).cmds,
                );
            } else {
                assert(s.skip(r + d).len() == 0);
                assert(spec_parse(s.skip(r + d)).cmds == Seq::<Seq<u8>>::empty());
                assert(spec_parse(s).cmds =~= seq![name]);
                match spec_skip_elems(b.skip(r), alen - 1) {
                    SkipOut::Stalled => {
                        assert(spec_parse(b).cmds == seq![name]);
                        assert(seq![name].subrange(0, 1) =~= seq![name]);
                    },
                    SkipOut::Done(d2) => {
                        lemma_prefix_of_extension(
                            seq![name],
                            spec_parse(b.skip(r + d2)).cmds,
                        );
                    },
                }
            }
        },
    }
}

/// The null-first-element arm of `lemma_parse_prefix_monotonic`: the
/// silently skipped array stays silent, however far the appended bytes
/// let the skipping run.
proof fn lemma_skip_null_first_case(s: Seq<u8>, t: Seq<u8>, alen: int, q: int)
    requires
        s.len() > 0,
        s[0] == 42u8,
        spec_parse_int(s.skip(1)) is Some,
        spec_parse_int(s.skip(1)).unwrap().0 == alen,
        alen > 0,
        q == 1 + spec_parse_int(s.skip(1)).unwrap().1 + 1 + spec_parse_int(
            s.skip(1 + spec_parse_int(s.skip(1)).unwrap().1 as int + 1),
        ).unwrap().1,
        1 + spec_parse_int(s.skip(1)).unwrap().1 < s.len(),
        s[1 + spec_parse_int(s.skip(1)).unwrap().1 as int] == 36u8,
        spec_parse_int(s.skip(1 + spec_parse_int(s.skip(1)).unwrap().1 as int + 1)) is Some,
        spec_parse_int(s.skip(1 + spec_parse_int(s.skip(1)).unwrap().1 as int + 1)).unwrap().0
            < 0,
        spec_parse_int((s + t).skip(1)) == spec_parse_int(s.skip(1)),
        spec_parse_int((s + t).skip(
            1 + spec_parse_int(s.skip(1)).unwrap().1 as int + 1,
        )) == spec_parse_int(s.skip(1 + spec_parse_int(s.skip(1)).unwrap().1 as int + 1)),
    ensures
        spec_parse(s).cmds.is_prefix_of(spec_parse(s + t).cmds),
    decreases s.len(), 0int,
{
    let b = s + t;
    lemma_parse_int_bounds(s.skip(1));
    lemma_parse_int_bounds(s.skip(1 + spec_parse_int(s.skip(1)).unwrap().1 as int + 1));
    assert(b.skip(q) =~= s.skip(q) + t);
    lemma_skip_elems_bounds(s.skip(q), alen - 1);
    lemma_skip_elems_append(s.skip(q), t, alen - 1);
    match spec_skip_elems(s.skip(q), alen - 1) {
        SkipOut::Stalled => {
            lemma_empty_prefix(spec_parse(b).cmds);
        },
        SkipOut::Done(d) => {
            if q + d < s.len() {
                assert(spec_skip_elems(b.skip(q), alen - 1) == SkipOut::Done(d));
                assert(b.skip(q + d) =~= s.skip(q + d) + t);
                lemma_parse_prefix_monotonic(s.skip(q + d), t);
                assert(spec_parse(s).cmds =~= spec_parse(s.skip(q + d)).cmds);
                assert(spec_parse(b).cmds =~= spec_parse(b.skip(q + d)).cmds);
            } else {
                assert(s.skip(q + d).len() == 0);
                assert(spec_parse(s.skip(q + d)).cmds == Seq::<Seq<u8>>::empty());
                assert(spec_parse(s).cmds =~= Seq::<Seq<u8>>::empty());
                lemma_empty_prefix(spec_parse(b).cmds);
            }
        },
    }
}

} // verus!


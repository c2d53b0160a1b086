//! Well-formed wire frames and what the parser makes of them.
//!
//! A frame is one complete protocol unit: an array whose first element is
//! a bulk string naming the command, or an inline line whose first token
//! names it. This module writes down the encodings and proves what the
//! parser returns for buffers built from them: each complete frame yields
//! exactly its name, in buffer order, and a trailing partial frame that
//! has not yet yielded a command changes nothing.

use vstd::prelude::*;
use crate::resp::spec_parse;
use crate::resp::parse_step;
use crate::resp::spec_parse_int;
use crate::resp::spec_parse_inline;
use crate::resp::spec_find_crlf;
use crate::resp::spec_first_space;
use crate::resp::spec_skip_elems;
use crate::resp::SkipOut;
use crate::resp::crlf_at;
use crate::resp::is_digit;
use crate::resp::is_dec_int;
use crate::resp::dec_value;
use crate::resp::dec_int_value;
use crate::resp::lemma_find_crlf;
use crate::resp::lemma_find_crlf_exact;
use vstd::arithmetic::div_mod::lemma_fundamental_div_mod;

verus! {

/// The frame terminator.
pub open spec fn crlf() -> Seq<u8> {
    seq![13u8, 10u8]
}

/// The text holds no CR LF pair of its own.
pub open spec fn line_ok(t: Seq<u8>) -> bool {
    forall|j: int| 0 <= j && j + 1 < t.len() ==> !(#[trigger] t[j] == 13u8 && t[j + 1] == 10u8)
}

/// A trailing element of a command array.
pub enum RespArg {
    /// A bulk string `$<len>\r\n<payload>\r\n`; the payload is arbitrary.
    Bulk(Seq<u8>),
    /// A simple string `+<text>\r\n`.
    Simple(Seq<u8>),
    /// An error reply `-<text>\r\n`.
    ErrorReply(Seq<u8>),
    /// An integer reply `:<text>\r\n`.
    IntReply(Seq<u8>),
}

/// One complete command frame.
pub enum Frame {
    /// An array of one bulk string naming the command and then its
    /// arguments.
    Array { name: Seq<u8>, args: Seq<RespArg> },
    /// An inline command line; the name is its first token.
    Inline { line: Seq<u8> },
}

/// Decimal rendering of a nonnegative number, most significant digit
/// first.
pub open spec fn dec_digits(n: int) -> Seq<u8>
    decreases n,
{
    if n <= 9 {
        seq![(48 + n) as u8]
    } else {
        dec_digits(n / 10).push((48 + n % 10) as u8)
    }
}

/// Rendering a nonnegative number gives nonempty digit text with that
/// value.
pub proof fn lemma_dec_digits(n: int)
    requires
        n >= 0,
    ensures
        dec_digits(n).len() >= 1,
        forall|j: int| 0 <= j < dec_digits(n).len() ==> is_digit(#[trigger] dec_digits(n)[j]),
        dec_value(dec_digits(n)) == n,
    decreases n,
{
    if n <= 9 {
        assert(dec_digits(n) =~= seq![(48 + n) as u8]);
        assert(dec_digits(n).drop_last() =~= Seq::<u8>::empty());
        assert(dec_value(Seq::<u8>::empty()) == 0);
        assert(dec_digits(n).last() == (48 + n) as u8);
        assert(dec_value(dec_digits(n)) == n);
    } else {
        lemma_dec_digits(n / 10);
        lemma_fundamental_div_mod(n, 10);
        assert(dec_digits(n).drop_last() =~= dec_digits(n / 10));
        assert(dec_digits(n).last() == (48 + n % 10) as u8);
        assert(dec_value(dec_digits(n)) == dec_value(dec_digits(n / 10)) * 10 + (n % 10));
    }
}

/// A line with its terminator, then anything: the first CR LF stands
/// right after the line.
pub proof fn lemma_line_crlf(t: Seq<u8>, rest: Seq<u8>)
    requires
        line_ok(t),
    ensures
        spec_find_crlf(t + crlf() + rest) == Some(t.len() as nat),
{
    let b = t + crlf() + rest;
    assert(crlf_at(b, t.len() as int));
    assert forall|j: int| 0 <= j < t.len() implies !crlf_at(b, j) by {
        if j + 1 < t.len() {
            assert(b[j] == t[j] && b[j + 1] == t[j + 1]);
        } else {
            assert(b[j + 1] == 13u8);
        }
    }
    lemma_find_crlf_exact(b, t.len() as int);
}

/// A rendered number with its terminator, then anything: the integer
/// field reads back exactly that number.
pub proof fn lemma_parse_int_exact(n: int, rest: Seq<u8>)
    requires
        0 <= n <= i64::MAX,
    ensures
        spec_parse_int(dec_digits(n) + crlf() + rest) == Some(
            (n, (dec_digits(n).len() + 2) as nat),
        ),
{
    lemma_dec_digits(n);
    let d = dec_digits(n);
    let b = d + crlf() + rest;
    assert(line_ok(d)) by {
        assert forall|j: int| 0 <= j && j + 1 < d.len() implies !(#[trigger] d[j] == 13u8 && d[j
            + 1] == 10u8) by {
            assert(is_digit(d[j]));
        }
    }
    lemma_line_crlf(d, rest);
    assert(b.take(d.len() as int) =~= d);
    assert(is_dec_int(d)) by {
        assert(is_digit(d[0]));
    }
    assert(dec_int_value(d) == dec_value(d)) by {
        assert(is_digit(d[0]));
    }
}

/// The bytes one array element encodes to.
pub open spec fn encode_arg(a: RespArg) -> Seq<u8> {
    match a {
        RespArg::Bulk(p) => seq![36u8] + dec_digits(p.len() as int) + crlf() + p + crlf(),
        RespArg::Simple(t) => seq![43u8] + t + crlf(),
        RespArg::ErrorReply(t) => seq![45u8] + t + crlf(),
        RespArg::IntReply(t) => seq![58u8] + t + crlf(),
    }
}

/// The bytes a run of array elements encodes to.
pub open spec fn encode_args(args: Seq<RespArg>) -> Seq<u8>
    decreases args.len(),
{
    if args.len() == 0 {
        Seq::empty()
    } else {
        encode_arg(args[0]) + encode_args(args.skip(1))
    }
}

/// The bytes one frame encodes to.
pub open spec fn encode_frame(f: Frame) -> Seq<u8> {
    match f {
        Frame::Array { name, args } => seq![42u8] + dec_digits(1 + args.len() as int) + crlf()
            + seq![36u8] + dec_digits(name.len() as int) + crlf() + name + crlf() + encode_args(
            args,
        ),
        Frame::Inline { line } => line + crlf(),
    }
}

/// An element the parser can pass over.
pub open spec fn wf_arg(a: RespArg) -> bool {
    match a {
        RespArg::Bulk(p) => p.len() <= i64::MAX,
        RespArg::Simple(t) => line_ok(t),
        RespArg::ErrorReply(t) => line_ok(t),
        RespArg::IntReply(t) => line_ok(t),
    }
}

/// A complete, well-formed frame: an array within the size bounds whose
/// elements are all well formed, or a nonempty inline line that does not
/// begin like an array or with a space, and holds no stray terminator.
pub open spec fn wf_frame(f: Frame) -> bool {
    match f {
        Frame::Array { name, args } => name.len() <= i64::MAX && 1 + args.len() <= i64::MAX
            && (forall|i: int| 0 <= i < args.len() ==> wf_arg(#[trigger] args[i])),
        Frame::Inline { line } => line.len() > 0 && line[0] != 32u8 && line[0] != 42u8
            && line_ok(line),
    }
}

/// The command name a frame carries.
pub open spec fn frame_name(f: Frame) -> Seq<u8> {
    match f {
        Frame::Array { name, .. } => name,
        Frame::Inline { line } => line.take(spec_first_space(line) as int),
    }
}

/// Skipping a run of well-formed encoded elements passes over exactly
/// their bytes, whatever follows them.
pub proof fn lemma_skip_args(args: Seq<RespArg>, rest: Seq<u8>)
    requires
        forall|i: int| 0 <= i < args.len() ==> wf_arg(#[trigger] args[i]),
    ensures
        spec_skip_elems(encode_args(args) + rest, args.len() as int) == SkipOut::Done(
            encode_args(args).len() as nat,
        ),
    decreases args.len(),
{
    let s = encode_args(args) + rest;
    if args.len() == 0 {
        assert(encode_args(args).len() == 0);
    } else {
        let a0 = args[0];
        let e0 = encode_arg(a0);
        let tail = encode_args(args.skip(1));
        assert(s =~= e0 + (tail + rest));
        assert(args.skip(1).len() == args.len() - 1);
        assert(forall|i: int| 0 <= i < args.skip(1).len() ==> wf_arg(
            #[trigger] args.skip(1)[i],
        ));
        lemma_skip_args(args.skip(1), rest);
        match a0 {
            RespArg::Bulk(p) => {
                let d = dec_digits(p.len() as int);
                assert(s[0] == 36u8);
                assert(s.skip(1) =~= d + crlf() + (p + crlf() + tail + rest));
                lemma_parse_int_exact(p.len() as int, p + crlf() + tail + rest);
                let c = d.len() + 2;
                assert(e0.len() == 1 + c + p.len() + 2);
                assert(1 + c + p.len() as int + 2 <= s.len());
                assert(s.skip(1 + c as int + p.len() as int + 2) =~= tail + rest);
            },
            RespArg::Simple(t) => {
                assert(s[0] == 43u8);
                assert(s.skip(1) =~= t + crlf() + (tail + rest));
                lemma_line_crlf(t, tail + rest);
                assert(e0.len() == 1 + t.len() + 2);
                assert(s.skip(1 + t.len() as int + 2) =~= tail + rest);
            },
            RespArg::ErrorReply(t) => {
                assert(s[0] == 45u8);
                assert(s.skip(1) =~= t + crlf() + (tail + rest));
                lemma_line_crlf(t, tail + rest);
                assert(e0.len() == 1 + t.len() + 2);
                assert(s.skip(1 + t.len() as int + 2) =~= tail + rest);
            },
            RespArg::IntReply(t) => {
                assert(s[0] == 58u8);
                assert(s.skip(1) =~= t + crlf() + (tail + rest));
                lemma_line_crlf(t, tail + rest);
                assert(e0.len() == 1 + t.len() + 2);
                assert(s.skip(1 + t.len() as int + 2) =~= tail + rest);
            },
        }
        assert(encode_args(args).len() == e0.len() + tail.len());
    }
}

/// One complete well-formed frame at the head of a buffer yields exactly
/// its name and hands the scan on to the bytes after it.
#[verifier::rlimit(100)]
pub proof fn lemma_parse_frame(f: Frame, rest: Seq<u8>)
    requires
        wf_frame(f),
    ensures
        spec_parse(encode_frame(f) + rest) == parse_step(
            Some(frame_name(f)),
            encode_frame(f).len() as nat,
            spec_parse(rest),
        ),
{
    let e = encode_frame(f);
    let b = e + rest;
    match f {
        Frame::Inline { line } => {
            assert(b[0] == line[0]);
            assert(b =~= line + crlf() + rest);
            lemma_line_crlf(line, rest);
            let p = line.len() as int;
            assert(b.take(p) =~= line);
            crate::resp::lemma_first_space(line);
            assert(spec_first_space(line) >= 1) by {
                assert(line[0] != 32u8);
            }
            let name = line.take(spec_first_space(line) as int);
            assert(name.len() >= 1);
            assert(spec_parse_inline(b) == Some((name, (p + 2) as nat)));
            assert(b.skip(p + 2) =~= rest);
            assert(e.len() == p + 2);
        },
        Frame::Array { name, args } => {
            let d1 = dec_digits(1 + args.len() as int);
            let d2 = dec_digits(name.len() as int);
            let ea = encode_args(args);
            assert(b[0] == 42u8);
            assert(b.skip(1) =~= d1 + crlf() + (seq![36u8] + d2 + crlf() + name + crlf() + ea
                + rest));
            lemma_parse_int_exact(
                1 + args.len() as int,
                seq![36u8] + d2 + crlf() + name + crlf() + ea + rest,
            );
            let c = (d1.len() + 2) as int;
            let h = 1 + c;
            assert(spec_parse_int(b.skip(1)) == Some(
                (1 + args.len() as int, (d1.len() + 2) as nat),
            ));
            assert(1 + args.len() as int > 0);
            assert(h < b.len());
            assert(b[h] == 36u8);
            assert(b.skip(h + 1) =~= d2 + crlf() + (name + crlf() + ea + rest));
            lemma_parse_int_exact(name.len() as int, name + crlf() + ea + rest);
            let c2 = (d2.len() + 2) as int;
            let q = h + 1 + c2;
            assert(spec_parse_int(b.skip(h + 1)) == Some((name.len() as int, (d2.len() + 2) as nat)));
            assert(q + name.len() + 2 <= b.len());
            assert(b.subrange(q, q + name.len() as int) =~= name);
            let r = q + name.len() as int + 2;
            assert(b.skip(r) =~= ea + rest);
            lemma_skip_args(args, rest);
            assert(spec_skip_elems(b.skip(r), args.len() as int) == SkipOut::Done(
                ea.len() as nat,
            ));
            assert(b.skip(r + ea.len() as int) =~= rest);
            assert(e.len() == r + ea.len());
        },
    }
}

/// The bytes a run of frames encodes to.
pub open spec fn encode_frames(fs: Seq<Frame>) -> Seq<u8>
    decreases fs.len(),
{
    if fs.len() == 0 {
        Seq::empty()
    } else {
        encode_frame(fs[0]) + encode_frames(fs.skip(1))
    }
}

/// The names a run of frames carries, in order.
pub open spec fn frame_names(fs: Seq<Frame>) -> Seq<Seq<u8>> {
    fs.map_values(|f: Frame| frame_name(f))
}

/// A run of complete well-formed frames followed by anything: the names
/// come out first, in frame order, and the rest of the buffer is scanned
/// on its own.
pub proof fn lemma_parse_frames_then(fs: Seq<Frame>, rest: Seq<u8>)
    requires
        forall|i: int| 0 <= i < fs.len() ==> wf_frame(#[trigger] fs[i]),
    ensures
        ({
            let out = spec_parse(encode_frames(fs) + rest);
            let sub = spec_parse(rest);
            &&& out.cmds == frame_names(fs) + sub.cmds
            &&& out.stalled == sub.stalled
            &&& out.end == if sub.stalled {
                0nat
            } else {
                (encode_frames(fs).len() + sub.end) as nat
            }
        }),
    decreases fs.len(),
{
    let e = encode_frames(fs);
    if fs.len() == 0 {
        assert(e + rest =~= rest);
        assert(frame_names(fs) =~= Seq::<Seq<u8>>::empty());
        assert(frame_names(fs) + spec_parse(rest).cmds =~= spec_parse(rest).cmds);
    } else {
        let tail = fs.skip(1);
        assert(forall|i: int| 0 <= i < tail.len() ==> wf_frame(#[trigger] tail[i]));
        assert(e + rest =~= encode_frame(fs[0]) + (encode_frames(tail) + rest));
        lemma_parse_frame(fs[0], encode_frames(tail) + rest);
        lemma_parse_frames_then(tail, rest);
        assert(frame_names(fs) =~= seq![frame_name(fs[0])] + frame_names(tail));
        assert(seq![frame_name(fs[0])] + (frame_names(tail) + spec_parse(rest).cmds) =~= (seq![
            frame_name(fs[0]),
        ] + frame_names(tail)) + spec_parse(rest).cmds);
        assert(e.len() == encode_frame(fs[0]).len() + encode_frames(tail).len());
    }
}

/// For every well-formed array frame whose first element is a bulk
/// string, the parser returns exactly that bulk string's raw bytes as the
/// command name — no uppercasing, no trimming.
pub proof fn lemma_array_yields_its_name(name: Seq<u8>, args: Seq<RespArg>)
    requires
        wf_frame(Frame::Array { name, args }),
    ensures
        spec_parse(encode_frame(Frame::Array { name, args })).cmds == seq![name],
        !spec_parse(encode_frame(Frame::Array { name, args })).stalled,
{
    let f = Frame::Array { name, args };
    let e = encode_frame(f);
    assert(e + Seq::<u8>::empty() =~= e);
    lemma_parse_frame(f, Seq::<u8>::empty());
    assert(spec_parse(Seq::<u8>::empty()).cmds =~= Seq::<Seq<u8>>::empty());
    assert(seq![name] + Seq::<Seq<u8>>::empty() =~= seq![name]);
}

/// For every buffer that is exactly a run of complete well-formed frames,
/// the parser returns exactly one name per frame, in frame order, and
/// reports the whole buffer consumed.
pub proof fn lemma_complete_frames_parse(fs: Seq<Frame>)
    requires
        forall|i: int| 0 <= i < fs.len() ==> wf_frame(#[trigger] fs[i]),
    ensures
        spec_parse(encode_frames(fs)).cmds == frame_names(fs),
        !spec_parse(encode_frames(fs)).stalled,
        spec_parse(encode_frames(fs)).end == encode_frames(fs).len(),
{
    lemma_parse_frames_then(fs, Seq::<u8>::empty());
    assert(encode_frames(fs) + Seq::<u8>::empty() =~= encode_frames(fs));
    assert(frame_names(fs) + spec_parse(Seq::<u8>::empty()).cmds =~= frame_names(fs));
}

/// For every buffer of complete well-formed frames followed by a partial
/// frame that has not yet yielded a command of its own, the parser
/// returns exactly the complete frames' names and does not error.
pub proof fn lemma_partial_tail_keeps_names(fs: Seq<Frame>, partial: Seq<u8>)
    requires
        forall|i: int| 0 <= i < fs.len() ==> wf_frame(#[trigger] fs[i]),
        spec_parse(partial).cmds == Seq::<Seq<u8>>::empty(),
        !spec_parse(partial).stalled,
    ensures
        spec_parse(encode_frames(fs) + partial).cmds == frame_names(fs),
        !spec_parse(encode_frames(fs) + partial).stalled,
{
    lemma_parse_frames_then(fs, partial);
    assert(frame_names(fs) + spec_parse(partial).cmds =~= frame_names(fs));
}

} // verus!

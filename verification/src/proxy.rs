//! The per-connection relay engine.
//!
//! One engine serves one connection. A read event on either side appends
//! the received bytes to that side's frame buffer, hands back the whole
//! buffer to be forwarded verbatim to the opposite side, and empties the
//! buffer. On the client side the accumulated bytes are also run through
//! the wire parser and every extracted command name is recorded — but
//! forwarding never depends on what the parser made of the bytes.

use vstd::prelude::*;
use bytes::BytesMut;
use crate::resp::spec_parse;
use crate::resp::parse_commands;
use crate::stats::Stats;
use crate::stats::spec_record_all;
use crate::stats::lemma_record_all_snoc;
use crate::text::lossy_text_of;
use crate::text::upper_of;
use vstd::slice::slice_to_vec;

verus! {

#[verifier::external_type_specification]
#[verifier::external_body]
pub struct ExBytesMut(BytesMut);

/// The bytes a frame buffer holds.
pub uninterp spec fn buffer_contents(b: BytesMut) -> Seq<u8>;

/// Relies on `bytes::BytesMut::with_capacity`: a fresh buffer is empty.
#[verifier::external_body]
fn buffer_new() -> (r: BytesMut)
    ensures
        buffer_contents(r) == Seq::<u8>::empty(),
{
    BytesMut::with_capacity(8192)
}

/// Relies on `bytes::BytesMut::extend_from_slice`: the given bytes are
/// appended after the buffer's bytes.
#[verifier::external_body]
fn buffer_extend(b: &mut BytesMut, data: &[u8])
    ensures
        buffer_contents(*final(b)) == buffer_contents(*old(b)) + data@,
{
    b.extend_from_slice(data);
}

/// Relies on `bytes::BytesMut`'s deref to a byte slice: the slice is
/// exactly the buffer's bytes.
#[verifier::external_body]
fn buffer_bytes(b: &BytesMut) -> (r: &[u8])
    ensures
        r@ == buffer_contents(*b),
{
    &b[..]
}

/// Relies on `bytes::BytesMut::clear`: the buffer is left empty.
#[verifier::external_body]
fn buffer_clear(b: &mut BytesMut)
    ensures
        buffer_contents(*final(b)) == Seq::<u8>::empty(),
{
    b.clear();
}

/// The statistics key a raw command name yields: its decoded text,
/// uppercased.
pub open spec fn command_key(raw: Seq<u8>) -> Seq<char> {
    upper_of(lossy_text_of(raw))
}

/// The keys of a run of raw command names, in order.
pub open spec fn command_keys(raws: Seq<Seq<u8>>) -> Seq<Seq<char>> {
    raws.map_values(|r: Seq<u8>| command_key(r))
}

/// One connection's relay state: a frame buffer per direction. Each
/// buffer holds what arrived since it was last forwarded; both are empty
/// between events.
pub struct ProxyEngine {
    client_buf: BytesMut,
    upstream_buf: BytesMut,
}

impl ProxyEngine {
    /// Bytes received from the client and not yet forwarded upstream.
    pub closed spec fn client_pending(self) -> Seq<u8> {
        buffer_contents(self.client_buf)
    }

    /// Bytes received from upstream and not yet forwarded to the client.
    pub closed spec fn upstream_pending(self) -> Seq<u8> {
        buffer_contents(self.upstream_buf)
    }

    /// A fresh engine with both buffers empty.
    pub fn new() -> (r: ProxyEngine)
        ensures
            r.client_pending() == Seq::<u8>::empty(),
            r.upstream_pending() == Seq::<u8>::empty(),
    {
        ProxyEngine { client_buf: buffer_new(), upstream_buf: buffer_new() }
    }

    /// A read event on the client side. The returned bytes are what must
    /// be written to the upstream side: everything pending plus the new
    /// data, verbatim and in order, whatever the parser made of it. Every
    /// command name the parser extracted is recorded, in stream order.
    pub fn on_client_read(&mut self, data: &[u8], stats: &mut Stats) -> (out: Vec<u8>)
        requires
            old(stats).wf(),
        ensures
            out@ == old(self).client_pending() + data@,
            final(self).client_pending() == Seq::<u8>::empty(),
            final(self).upstream_pending() == old(self).upstream_pending(),
            final(stats).wf(),
            final(stats)@ == spec_record_all(
                old(stats)@,
                command_keys(spec_parse(old(self).client_pending() + data@).cmds),
            ),
    {
        buffer_extend(&mut self.client_buf, data);
        let ghost accumulated = buffer_contents(self.client_buf);
        let ghost keys = command_keys(spec_parse(accumulated).cmds);
        let slice = buffer_bytes(&self.client_buf);
        let parsed = parse_commands(slice);
        let commands = parsed.0;
        let n = commands.len();
        let mut i: usize = 0;
        while i < n
            invariant
                n == commands@.len(),
                i <= n,
                stats.wf(),
                keys == command_keys(spec_parse(accumulated).cmds),
                n == spec_parse(accumulated).cmds.len(),
                forall|j: int| 0 <= j < n ==> commands@[j]@ == lossy_text_of(
                    spec_parse(accumulated).cmds[j],
                ),
                stats@ == spec_record_all(old(stats)@, keys.take(i as int)),
            decreases n - i,
        {
            stats.record_command(commands[i].as_str());
            proof {
                assert(upper_of(commands@[i as int]@) == keys[i as int]);
                lemma_record_all_snoc(old(stats)@, keys.take(i as int), keys[i as int]);
                assert(keys.take(i + 1) =~= keys.take(i as int).push(keys[i as int]));
            }
            i += 1;
        }
        proof {
            assert(keys.take(n as int) =~= keys);
        }
        let out = slice_to_vec(buffer_bytes(&self.client_buf));
        buffer_clear(&mut self.client_buf);
        out
    }

    /// A read event on the upstream side. The returned bytes are what
    /// must be written to the client: everything pending plus the new
    /// data, verbatim and in order. No parsing happens in this direction.
    pub fn on_upstream_read(&mut self, data: &[u8]) -> (out: Vec<u8>)
        ensures
            out@ == old(self).upstream_pending() + data@,
            final(self).upstream_pending() == Seq::<u8>::empty(),
            final(self).client_pending() == old(self).client_pending(),
    {
        buffer_extend(&mut self.upstream_buf, data);
        let out = slice_to_vec(buffer_bytes(&self.upstream_buf));
        buffer_clear(&mut self.upstream_buf);
        out
    }
}

/// What one side of a relay emits over a run of read events, by the
/// contract of the read handlers: the first event flushes whatever was
/// pending plus the first chunk, every later event flushes its own chunk.
pub open spec fn relay_outputs(pending: Seq<u8>, chunks: Seq<Seq<u8>>) -> Seq<Seq<u8>>
    decreases chunks.len(),
{
    if chunks.len() == 0 {
        Seq::empty()
    } else {
        seq![pending + chunks[0]] + relay_outputs(Seq::empty(), chunks.skip(1))
    }
}

/// Relay fidelity: over an arbitrary run of read events on one side of a
/// connection, starting with an empty frame buffer, the forwarded bytes
/// concatenate to exactly the received bytes, in order — however the wire
/// parser segmented them.
pub proof fn lemma_relay_fidelity(chunks: Seq<Seq<u8>>)
    ensures
        relay_outputs(Seq::<u8>::empty(), chunks).flatten() == chunks.flatten(),
    decreases chunks.len(),
{
    if chunks.len() == 0 {
        assert(relay_outputs(Seq::<u8>::empty(), chunks) =~= Seq::<Seq<u8>>::empty());
    } else {
        lemma_relay_fidelity(chunks.skip(1));
        let outs = relay_outputs(Seq::<u8>::empty(), chunks);
        assert(Seq::<u8>::empty() + chunks[0] =~= chunks[0]);
        assert(outs.first() == chunks[0]);
        assert(outs.drop_first() =~= relay_outputs(Seq::<u8>::empty(), chunks.skip(1)));
        assert(chunks.drop_first() =~= chunks.skip(1));
        assert(outs.flatten() == chunks[0] + relay_outputs(
            Seq::<u8>::empty(),
            chunks.skip(1),
        ).flatten());
        assert(chunks.flatten() == chunks[0] + chunks.skip(1).flatten());
    }
}

} // verus!

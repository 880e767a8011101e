//! The compute side of the network ingress path: decoding one datagram and
//! driving it through the scheduler or the immediate path.
//!
//! With the window disabled every decoded packet is translated at once, in
//! receipt order; with a positive window its messages are scheduled and the
//! caller polls the due entries separately.

use vstd::prelude::*;
use crate::types::OscArg;
use crate::types::OscMsg;
use crate::types::Packet;
use crate::address::str_views;
use crate::translate::packet_lines;
use crate::translate::handle_osc_packet;
use crate::debounce::DebounceState;
use crate::debounce::spec_schedule_packet;
use crate::debounce::handle_packet_for_debounce;

verus! {

#[verifier::external_type_specification]
#[verifier::external_body]
pub struct ExOscPacket(rosc::OscPacket);

#[verifier::external_type_specification]
#[verifier::external_body]
pub struct ExOscType(rosc::OscType);

/// What one datagram decodes to: the carried-over packet, or nothing for
/// malformed bytes. The decoder is a pure function of the bytes, so the
/// result can be named even though stating it in full would take pages.
pub uninterp spec fn decoded_packet(buf: Seq<u8>) -> Option<Packet>;

/// Relies on `rosc::decoder::decode_udp`: parses one whole datagram into a
/// packet — a pure function of the bytes — or fails on malformed ones; the
/// sibling converters carry the packet over variant by variant.
#[verifier::external_body]
fn decode_datagram(buf: &[u8]) -> (r: Option<Packet>)
    ensures
        r == decoded_packet(buf@),
{
    match rosc::decoder::decode_udp(buf) {
        Ok((_, p)) => Some(packet_from_osc(p)),
        Err(_) => None,
    }
}

/// Relies on the variants of `rosc::OscType`: each argument is carried over
/// one to one; floating-point values become the decimal text std renders for
/// them, a blob keeps its bytes, and any other kind keeps its generic
/// textual form.
#[verifier::external_body]
fn arg_from_osc(a: rosc::OscType) -> OscArg {
    match a {
        rosc::OscType::Int(i) => OscArg::Int(i),
        rosc::OscType::Float(f) => OscArg::Float(f.to_string()),
        rosc::OscType::String(s) => OscArg::Str(s),
        rosc::OscType::Blob(b) => OscArg::Blob(b),
        rosc::OscType::Long(l) => OscArg::Long(l),
        rosc::OscType::Double(d) => OscArg::Double(d.to_string()),
        rosc::OscType::Char(c) => OscArg::Char(c),
        rosc::OscType::Bool(b) => OscArg::Bool(b),
        rosc::OscType::Nil => OscArg::Nil,
        rosc::OscType::Inf => OscArg::Inf,
        other => OscArg::Other(format!("{:?}", other)),
    }
}

/// Relies on the variants of `rosc::OscPacket`: a message keeps its address
/// and arguments, a bundle keeps its nested packets in order (its time tag
/// is ignored for scheduling and dropped).
#[verifier::external_body]
fn packet_from_osc(p: rosc::OscPacket) -> Packet {
    match p {
        rosc::OscPacket::Message(m) => Packet::Message(OscMsg {
            addr: m.addr,
            args: m.args.into_iter().map(arg_from_osc).collect(),
        }),
        rosc::OscPacket::Bundle(b) => Packet::Bundle(
            b.content.into_iter().map(packet_from_osc).collect(),
        ),
    }
}

/// What one processed packet does to the state and the lines, for the given
/// window: with the window disabled the packet's lines come out at once and
/// the state is untouched; with a window its messages are scheduled and no
/// line comes out yet.
pub open spec fn processed(
    pre: DebounceState,
    post: DebounceState,
    lines: Seq<String>,
    p: Packet,
    now_ms: u64,
    window_ms: u64,
) -> bool {
    if window_ms == 0 {
        post == pre && str_views(lines) == packet_lines(p)
    } else {
        lines.len() == 0 && post.entries@ == spec_schedule_packet(
            pre.entries@,
            p,
            now_ms,
            window_ms,
        )
    }
}

/// Processes one decoded packet: translated and returned immediately when
/// the window is zero — one line per valid message, in receipt order, with
/// no added latency — or scheduled for coalescing when the window is
/// positive.
pub fn process_packet(
    state: &mut DebounceState,
    packet: Packet,
    now_ms: u64,
    window_ms: u64,
) -> (lines: Vec<String>)
    requires
        old(state).wf(),
    ensures
        final(state).wf(),
        processed(*old(state), *final(state), lines@, packet, now_ms, window_ms),
{
    if window_ms == 0 {
        handle_osc_packet(&packet)
    } else {
        handle_packet_for_debounce(state, packet, now_ms, window_ms);
        Vec::new()
    }
}

/// Runs one received datagram through decode and processing. A datagram
/// that does not decode changes nothing and yields no line — a malformed
/// packet is dropped, never fatal; one that does decode is processed exactly
/// as [`process_packet`] says, on the packet the decoder produced.
pub fn ingress_datagram(
    state: &mut DebounceState,
    buf: &[u8],
    now_ms: u64,
    window_ms: u64,
) -> (lines: Vec<String>)
    requires
        old(state).wf(),
    ensures
        final(state).wf(),
        match decoded_packet(buf@) {
            Option::None => *final(state) == *old(state) && lines@.len() == 0,
            Option::Some(p) => processed(*old(state), *final(state), lines@, p, now_ms, window_ms),
        },
{
    match decode_datagram(buf) {
        Some(packet) => {
            let ghost g = packet;
            let lines = process_packet(state, packet, now_ms, window_ms);
            proof {
                assert(decoded_packet(buf@) == Some(g));
                assert(processed(*old(state), *state, lines@, g, now_ms, window_ms));
            }
            lines
        },
        None => Vec::new(),
    }
}

} // verus!

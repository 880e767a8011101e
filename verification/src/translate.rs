//! Translation of decoded packets into forward lines.
//!
//! A message whose address decodes and validates becomes one line: the path
//! components in order, then one rendered token per argument, all joined by
//! single spaces. An invalid message is dropped. A bundle is unwrapped
//! recursively and yields its members' lines in order.

use vstd::prelude::*;
use crate::types::OscArg;
use crate::types::OscMsg;
use crate::types::Packet;
use crate::render::spec_render_arg;
use crate::render::render_arg;
use crate::render::join_sep;
use crate::render::join_tokens;
use crate::address::percent_decoded;
use crate::address::valid_decoded;
use crate::address::path_components;
use crate::address::str_views;
use crate::address::decode_and_validate_address;

verus! {

broadcast use {vstd::seq::group_seq_axioms, vstd::std_specs::vec::group_vec_axioms};

/// The tokens the arguments render to, in order.
pub open spec fn args_tokens(args: Seq<OscArg>) -> Seq<Seq<char>> {
    args.map_values(|a: OscArg| spec_render_arg(a))
}

/// The forward line of one message: its decoded path components then its
/// rendered arguments, space-joined — or nothing when the address does not
/// decode, does not start with `/`, or keeps no component.
pub open spec fn msg_line(m: OscMsg) -> Option<Seq<char>> {
    match percent_decoded(m.addr@) {
        Option::Some(d) => {
            if valid_decoded(d) {
                Some(join_sep(path_components(d) + args_tokens(m.args@), ' '))
            } else {
                None
            }
        },
        Option::None => None,
    }
}

/// The forward lines one packet yields, in order.
pub open spec fn packet_lines(p: Packet) -> Seq<Seq<char>>
    decreases p,
{
    match p {
        Packet::Message(m) => match msg_line(m) {
            Option::Some(l) => seq![l],
            Option::None => Seq::empty(),
        },
        Packet::Bundle(content) => packets_lines(content@),
    }
}

/// The forward lines a sequence of packets yields, in order.
pub open spec fn packets_lines(ps: Seq<Packet>) -> Seq<Seq<char>>
    decreases ps,
{
    if ps.len() == 0 {
        Seq::empty()
    } else {
        packet_lines(ps[0]) + packets_lines(ps.drop_first())
    }
}

/// Appending one packet appends its lines.
pub proof fn lemma_packets_lines_push(ps: Seq<Packet>, p: Packet)
    ensures
        packets_lines(ps.push(p)) == packets_lines(ps) + packet_lines(p),
    decreases ps.len(),
{
    if ps.len() == 0 {
        let q = ps.push(p);
        assert(q[0] == p);
        assert(q.drop_first() =~= Seq::<Packet>::empty());
        assert(packets_lines(q.drop_first()) == Seq::<Seq<char>>::empty());
        assert(packets_lines(q) == packet_lines(p) + Seq::<Seq<char>>::empty());
        assert(packet_lines(p) + Seq::<Seq<char>>::empty() =~= packet_lines(p));
        assert(packets_lines(ps) == Seq::<Seq<char>>::empty());
        assert(Seq::<Seq<char>>::empty() + packet_lines(p) =~= packet_lines(p));
    } else {
        assert(ps.push(p)[0] == ps[0]);
        assert(ps.push(p).drop_first() =~= ps.drop_first().push(p));
        lemma_packets_lines_push(ps.drop_first(), p);
        assert(packet_lines(ps[0]) + (packets_lines(ps.drop_first()) + packet_lines(p))
            =~= packets_lines(ps) + packet_lines(p));
    }
}

/// Translates one message into its forward line, or nothing for a message
/// that is to be dropped.
pub fn translate_message(m: &OscMsg) -> (r: Option<String>)
    ensures
        match msg_line(*m) {
            Option::Some(l) => r matches Some(s) && s@ == l,
            Option::None => r is None,
        },
{
    let comps = match decode_and_validate_address(m.addr.as_str()) {
        Some(c) => c,
        None => {
            return None;
        },
    };
    let ghost d = percent_decoded(m.addr@)->Some_0;
    let mut tokens: Vec<String> = comps;
    let mut i: usize = 0;
    proof {
        assert(m.args@.take(0) =~= Seq::<OscArg>::empty());
        assert(args_tokens(m.args@.take(0)) =~= Seq::<Seq<char>>::empty());
        assert(str_views(tokens@) =~= path_components(d) + args_tokens(m.args@.take(0)));
    }
    while i < m.args.len()
        invariant
            i <= m.args@.len(),
            str_views(tokens@) == path_components(d) + args_tokens(m.args@.take(i as int)),
        decreases m.args@.len() - i,
    {
        let ghost old_tokens = tokens@;
        let tok = render_arg(&m.args[i]);
        tokens.push(tok);
        i = i + 1;
        proof {
            assert(str_views(tokens@) =~= str_views(old_tokens) + seq![
                spec_render_arg(m.args@[i - 1]),
            ]);
            assert(m.args@.take(i as int) =~= m.args@.take(i - 1).push(m.args@[i - 1]));
            assert(args_tokens(m.args@.take(i as int)) =~= args_tokens(m.args@.take(i - 1)).push(
                spec_render_arg(m.args@[i - 1]),
            ));
            assert(str_views(tokens@) =~= path_components(d) + args_tokens(
                m.args@.take(i as int),
            ));
        }
    }
    proof {
        assert(m.args@.take(m.args@.len() as int) =~= m.args@);
    }
    let line = join_tokens(&tokens);
    Some(line)
}

/// Unwraps one packet into the forward lines it yields, in order. A bundle
/// counts as handled exactly when at least one line came out of it.
pub fn handle_osc_packet(p: &Packet) -> (lines: Vec<String>)
    ensures
        str_views(lines@) == packet_lines(*p),
    decreases *p,
{
    match p {
        Packet::Message(m) => {
            let mut lines: Vec<String> = Vec::new();
            proof {
                assert(str_views(lines@) =~= Seq::<Seq<char>>::empty());
            }
            match translate_message(m) {
                Some(l) => {
                    let ghost old_lines = lines@;
                    lines.push(l);
                    proof {
                        assert(str_views(lines@) =~= seq![msg_line(*m)->Some_0]);
                    }
                },
                None => {},
            }
            lines
        },
        Packet::Bundle(content) => {
            let mut lines: Vec<String> = Vec::new();
            let mut i: usize = 0;
            proof {
                assert(content@.take(0) =~= Seq::<Packet>::empty());
                assert(str_views(lines@) =~= Seq::<Seq<char>>::empty());
            }
            while i < content.len()
                invariant
                    i <= content@.len(),
                    str_views(lines@) == packets_lines(content@.take(i as int)),
                    *p == Packet::Bundle(*content),
                decreases content@.len() - i,
            {
                proof {
                    assert(decreases_to!(*p => (*p)->Bundle_0));
                    assert((*p)->Bundle_0 == *content);
                    assert(decreases_to!(*content => content@));
                    assert(decreases_to!(content@ => content@[i as int]));
                    assert(decreases_to!(*p => content@[i as int]));
                }
                let ghost old_lines = lines@;
                let mut sub = handle_osc_packet(&content[i]);
                let ghost sub_views = str_views(sub@);
                lines.append(&mut sub);
                i = i + 1;
                proof {
                    assert(str_views(lines@) =~= str_views(old_lines) + sub_views);
                    assert(content@.take(i as int) =~= content@.take(i - 1).push(
                        content@[i - 1],
                    ));
                    lemma_packets_lines_push(content@.take(i - 1), content@[i - 1]);
                }
            }
            proof {
                assert(content@.take(content@.len() as int) =~= content@);
            }
            lines
        },
    }
}

/// Law: with the window disabled, packets processed in receipt order
/// forward exactly the concatenation of their lines, in order — each valid
/// message contributes exactly one line, where it stood, with nothing added
/// or dropped.
pub proof fn lemma_immediate_order(ps: Seq<Packet>, i: int)
    requires
        0 <= i < ps.len(),
    ensures
        packets_lines(ps.take(i + 1)) == packets_lines(ps.take(i)) + packet_lines(ps[i]),
{
    assert(ps.take(i + 1) =~= ps.take(i).push(ps[i]));
    lemma_packets_lines_push(ps.take(i), ps[i]);
}

/// Whether a packet is a single message that translates to a line.
pub open spec fn is_valid_msg(p: Packet) -> bool {
    p matches Packet::Message(m) && msg_line(m) is Some
}

/// How many packets of the sequence are messages that translate to a line.
pub open spec fn valid_count(ps: Seq<Packet>) -> nat
    decreases ps.len(),
{
    if ps.len() == 0 {
        0
    } else {
        (if is_valid_msg(ps[0]) {
            1nat
        } else {
            0nat
        }) + valid_count(ps.drop_first())
    }
}

/// Law: a bundle whose members are all single messages yields exactly one
/// forward line per valid message it contains, and it counts as handled
/// exactly when at least one of its messages is valid.
pub proof fn lemma_bundle_line_count(content: Vec<Packet>)
    requires
        forall|k: int|
            0 <= k < content@.len() ==> (#[trigger] content@[k]) matches Packet::Message(_),
    ensures
        packet_lines(Packet::Bundle(content)).len() == valid_count(content@),
        packet_lines(Packet::Bundle(content)).len() > 0 <==> valid_count(content@) > 0,
{
    lemma_msgs_line_count(content@);
}

/// Induction behind [`lemma_bundle_line_count`]: over a sequence of single
/// messages, the line count equals the valid-message count.
pub proof fn lemma_msgs_line_count(ps: Seq<Packet>)
    requires
        forall|k: int| 0 <= k < ps.len() ==> (#[trigger] ps[k]) matches Packet::Message(_),
    ensures
        packets_lines(ps).len() == valid_count(ps),
    decreases ps.len(),
{
    if ps.len() > 0 {
        let rest = ps.drop_first();
        assert forall|k: int| 0 <= k < rest.len() implies (#[trigger] rest[k]) matches Packet::Message(
            _,
        ) by {
            assert(rest[k] == ps[k + 1]);
        }
        lemma_msgs_line_count(rest);
        assert(ps[0] matches Packet::Message(_));
        assert(packet_lines(ps[0]).len() == if is_valid_msg(ps[0]) { 1int } else { 0int });
        assert(packets_lines(ps).len() == packet_lines(ps[0]).len() + packets_lines(rest).len());
    }
}

} // verus!

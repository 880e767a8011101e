//! The compute side of the one-shot message sender: address validation,
//! host-and-port parsing, message building, and encoding to wire bytes.

use vstd::prelude::*;
use vstd::string::StringExecFns;
use vstd::string::StrSliceExecFns;
use crate::types::OscArg;
use crate::types::OscMsg;
use crate::types::Packet;

verus! {

/// Checks the raw form of an address to send: it must start with `/` and
/// must hold at least one character after it.
pub fn validate_osc_address(address: &str) -> (r: Result<(), String>)
    ensures
        r is Ok <==> address@.len() >= 2 && address@[0] == '/',
{
    let n = address.unicode_len();
    if n == 0 || address.get_char(0) != '/' {
        let mut e = String::from_str("invalid address '");
        e.append(address);
        e.append("': must start with '/'");
        return Err(e);
    }
    if n == 1 {
        return Err(String::from_str(
            "invalid address '/': must contain at least one path component",
        ));
    }
    Ok(())
}

/// A decimal digit.
pub open spec fn is_digit(c: char) -> bool {
    c == '0' || c == '1' || c == '2' || c == '3' || c == '4' || c == '5' || c == '6' || c == '7'
        || c == '8' || c == '9'
}

/// The value of a decimal digit.
pub open spec fn digit_val(c: char) -> nat {
    if c == '0' { 0 }
    else if c == '1' { 1 }
    else if c == '2' { 2 }
    else if c == '3' { 3 }
    else if c == '4' { 4 }
    else if c == '5' { 5 }
    else if c == '6' { 6 }
    else if c == '7' { 7 }
    else if c == '8' { 8 }
    else { 9 }
}

/// The value of a string of decimal digits, most significant first.
pub open spec fn dec_val(s: Seq<char>) -> nat
    decreases s.len(),
{
    if s.len() == 0 {
        0
    } else {
        dec_val(s.drop_last()) * 10 + digit_val(s.last())
    }
}

/// Whether every character is a decimal digit.
pub open spec fn all_digits(s: Seq<char>) -> bool {
    forall|i: int| 0 <= i < s.len() ==> is_digit(#[trigger] s[i])
}

/// The port a string denotes: non-empty, digits only, and within range.
pub open spec fn port_of(s: Seq<char>) -> Option<u16> {
    if s.len() > 0 && all_digits(s) && dec_val(s) <= 65535 {
        Some(dec_val(s) as u16)
    } else {
        None
    }
}

/// A digit string is worth at least any of its prefixes.
pub proof fn lemma_dec_val_mono(s: Seq<char>, i: int)
    requires
        0 <= i <= s.len(),
    ensures
        dec_val(s) >= dec_val(s.take(i)),
    decreases s.len(),
{
    if i == s.len() {
        assert(s.take(i) =~= s);
    } else {
        lemma_dec_val_mono(s.drop_last(), i);
        assert(s.drop_last().take(i) =~= s.take(i));
    }
}

/// Parses a port number: digits only, within the port range.
pub fn parse_port(s: &str) -> (r: Option<u16>)
    ensures
        r == port_of(s@),
{
    let n = s.unicode_len();
    if n == 0 {
        return None;
    }
    let mut value: u32 = 0;
    let mut i: usize = 0;
    proof {
        assert(s@.take(0) =~= Seq::<char>::empty());
    }
    while i < n
        invariant
            n == s@.len(),
            i <= n,
            all_digits(s@.take(i as int)),
            value == dec_val(s@.take(i as int)),
            value <= 65535,
        decreases n - i,
    {
        let c = s.get_char(i);
        let d: u32 = if c == '0' { 0 }
        else if c == '1' { 1 }
        else if c == '2' { 2 }
        else if c == '3' { 3 }
        else if c == '4' { 4 }
        else if c == '5' { 5 }
        else if c == '6' { 6 }
        else if c == '7' { 7 }
        else if c == '8' { 8 }
        else if c == '9' { 9 }
        else {
            proof {
                assert(!is_digit(s@[i as int]));
                assert(!all_digits(s@));
            }
            return None;
        };
        value = value * 10 + d;
        i = i + 1;
        proof {
            let pre = s@.take(i as int);
            assert(pre.drop_last() =~= s@.take(i - 1));
            assert(pre.last() == s@[i - 1]);
            assert forall|j: int| 0 <= j < pre.len() implies is_digit(#[trigger] pre[j]) by {
                if j < i - 1 {
                    assert(pre[j] == s@.take(i - 1)[j]);
                } else {
                    assert(pre[j] == s@[i - 1]);
                }
            }
        }
        if value > 65535 {
            proof {
                lemma_dec_val_mono(s@, i as int);
            }
            return None;
        }
    }
    proof {
        assert(s@.take(n as int) =~= s@);
    }
    Some(value as u16)
}

/// How a host-and-port string splits: the text before the single `:` and
/// the text after it; a string with no colon, or more than one, does not
/// split.
pub open spec fn host_port_parts(s: Seq<char>) -> Option<(Seq<char>, Seq<char>)>
    decreases s.len(),
{
    if s.len() == 0 {
        None
    } else if s[0] == ':' {
        if forall|t: int| 1 <= t < s.len() ==> s[t] != ':' {
            Some((Seq::empty(), s.skip(1)))
        } else {
            None
        }
    } else {
        match host_port_parts(s.skip(1)) {
            Option::Some(hp) => Some((seq![s[0]] + hp.0, hp.1)),
            Option::None => None,
        }
    }
}

/// A string with no colon at all does not split.
pub proof fn lemma_hpp_no_colon(s: Seq<char>)
    requires
        forall|t: int| 0 <= t < s.len() ==> s[t] != ':',
    ensures
        host_port_parts(s) is None,
    decreases s.len(),
{
    if s.len() > 0 {
        assert(forall|t: int| 0 <= t < s.skip(1).len() ==> #[trigger] s.skip(1)[t] == s[t + 1]);
        lemma_hpp_no_colon(s.skip(1));
    }
}

/// A string with a second colon after its first does not split.
pub proof fn lemma_hpp_two_colons(s: Seq<char>, i: int, j: int)
    requires
        0 <= i < j < s.len(),
        s[i] == ':',
        s[j] == ':',
        forall|t: int| 0 <= t < i ==> s[t] != ':',
    ensures
        host_port_parts(s) is None,
    decreases s.len(),
{
    if i == 0 {
        assert(!(forall|t: int| 1 <= t < s.len() ==> s[t] != ':'));
    } else {
        let r = s.skip(1);
        assert(forall|t: int| 0 <= t < r.len() ==> #[trigger] r[t] == s[t + 1]);
        assert(r[i - 1] == ':');
        assert(r[j - 1] == ':');
        lemma_hpp_two_colons(r, i - 1, j - 1);
    }
}

/// A string whose single colon stands at `i` splits there.
pub proof fn lemma_hpp_split(s: Seq<char>, i: int)
    requires
        0 <= i < s.len(),
        s[i] == ':',
        forall|t: int| 0 <= t < i ==> s[t] != ':',
        forall|t: int| i < t < s.len() ==> s[t] != ':',
    ensures
        host_port_parts(s) == Some((s.take(i), s.skip(i + 1))),
    decreases s.len(),
{
    if i == 0 {
        assert(forall|t: int| 1 <= t < s.len() ==> s[t] != ':');
        assert(s.take(0) =~= Seq::<char>::empty());
    } else {
        let r = s.skip(1);
        assert(forall|t: int| 0 <= t < r.len() ==> #[trigger] r[t] == s[t + 1]);
        lemma_hpp_split(r, i - 1);
        assert(seq![s[0]] + r.take(i - 1) =~= s.take(i));
        assert(r.skip(i) =~= s.skip(i + 1));
    }
}

/// Splits `host:port` into the host text and the parsed port. The string
/// must hold exactly one colon, and what follows it must be a port number;
/// the host text itself is not interpreted here.
pub fn parse_host_port(host_port: &str) -> (r: Result<(String, u16), String>)
    ensures
        match r {
            Result::Ok(hp) => host_port_parts(host_port@) matches Some(parts) && hp.0@ == parts.0
                && port_of(parts.1) == Some(hp.1),
            Result::Err(_) => host_port_parts(host_port@) is None || (host_port_parts(
                host_port@,
            ) matches Some(parts) && port_of(parts.1) is None),
        },
{
    let n = host_port.unicode_len();
    let mut i: usize = 0;
    while i < n && host_port.get_char(i) != ':'
        invariant
            n == host_port@.len(),
            i <= n,
            forall|t: int| 0 <= t < i ==> host_port@[t] != ':',
        decreases n - i,
    {
        i = i + 1;
    }
    if i == n {
        proof {
            lemma_hpp_no_colon(host_port@);
        }
        let mut e = String::from_str("invalid host:port format '");
        e.append(host_port);
        e.append("': expected exactly one ':'");
        return Err(e);
    }
    let mut j: usize = i + 1;
    while j < n && host_port.get_char(j) != ':'
        invariant
            n == host_port@.len(),
            i < j <= n,
            host_port@[i as int] == ':',
            forall|t: int| i < t < j ==> host_port@[t] != ':',
        decreases n - j,
    {
        j = j + 1;
    }
    if j < n {
        proof {
            lemma_hpp_two_colons(host_port@, i as int, j as int);
        }
        let mut e = String::from_str("invalid host:port format '");
        e.append(host_port);
        e.append("': expected exactly one ':'");
        return Err(e);
    }
    proof {
        lemma_hpp_split(host_port@, i as int);
    }
    let host = String::from_str(host_port.substring_char(0, i));
    let port_text = host_port.substring_char(i + 1, n);
    match parse_port(port_text) {
        Some(p) => Ok((host, p)),
        None => {
            let mut e = String::from_str("invalid port number '");
            e.append(port_text);
            e.append("': must be between 0 and 65535");
            Err(e)
        },
    }
}

/// Builds the packet for one message to send: the validated address and at
/// most one argument.
pub fn create_osc_message(address: String, value: Option<OscArg>) -> (r: Result<Packet, String>)
    ensures
        r is Ok <==> address@.len() >= 2 && address@[0] == '/',
        r matches Ok(p) ==> p matches Packet::Message(m) && m.addr@ == address@ && (match value {
            Option::Some(v) => m.args@ == seq![v],
            Option::None => m.args@.len() == 0,
        }),
{
    match validate_osc_address(address.as_str()) {
        Ok(()) => {
            let mut args: Vec<OscArg> = Vec::new();
            match value {
                Some(v) => {
                    args.push(v);
                },
                None => {},
            }
            Ok(Packet::Message(OscMsg { addr: address, args }))
        },
        Err(e) => Err(e),
    }
}

/// Whether the text parses as a 32-bit floating-point number; parsing is a
/// pure function of the text.
pub uninterp spec fn parses_as_float(s: Seq<char>) -> bool;

/// An argument the sender's encoder carries: an integer, a text, or a
/// floating-point text that parses back to its value.
pub open spec fn sendable(a: OscArg) -> bool {
    match a {
        OscArg::Int(_) => true,
        OscArg::Str(_) => true,
        OscArg::Float(t) => parses_as_float(t@),
        _ => false,
    }
}

/// The wire encoding of one message with the given address and arguments,
/// or nothing when an argument is not [`sendable`]; encoding is a pure
/// function of the message.
pub uninterp spec fn encoded_msg(addr: Seq<char>, args: Seq<OscArg>) -> Option<Seq<u8>>;

/// Relies on the variants of `rosc::OscType` and on `f32` parsing of std:
/// carries an integer, a floating-point text (parsed back to its value), or
/// a text argument over for encoding; other kinds are not produced by the
/// sender and are refused.
#[verifier::external_body]
fn arg_to_osc(a: &OscArg) -> Option<rosc::OscType> {
    match a {
        OscArg::Int(i) => Some(rosc::OscType::Int(*i)),
        OscArg::Float(t) => t.parse().ok().map(rosc::OscType::Float),
        OscArg::Str(s) => Some(rosc::OscType::String(s.clone())),
        _ => None,
    }
}

/// Relies on `rosc::encoder::encode`: serializes one message with the given
/// address and arguments into wire bytes. Encoding into a vector itself
/// cannot fail; the whole step fails exactly when an argument is not one of
/// the kinds the sender carries.
#[verifier::external_body]
fn encode_message_bytes(addr: &String, args: &Vec<OscArg>) -> (r: Option<Vec<u8>>)
    ensures
        match r {
            Option::Some(b) => encoded_msg(addr@, args@) == Some(b@),
            Option::None => encoded_msg(addr@, args@) is None,
        },
        r is Some <==> (forall|i: int|
            0 <= i < args@.len() ==> match #[trigger] args@[i] {
                OscArg::Int(_) => true,
                OscArg::Str(_) => true,
                OscArg::Float(t) => parses_as_float(t@),
                _ => false,
            }),
{
    let mut os: Vec<rosc::OscType> = Vec::new();
    for a in args.iter() {
        os.push(arg_to_osc(a)?);
    }
    let msg = rosc::OscMessage { addr: addr.clone(), args: os };
    rosc::encoder::encode(&rosc::OscPacket::Message(msg)).ok()
}

/// The argument vector a given value yields: one argument, or none.
pub open spec fn value_args(value: Option<OscArg>) -> Seq<OscArg> {
    match value {
        Option::Some(v) => seq![v],
        Option::None => Seq::empty(),
    }
}

/// Builds the wire bytes for one message to send: an invalid address is
/// refused; a valid one with a sendable argument yields exactly the wire
/// encoding of the message.
pub fn build_send_datagram(address: String, value: Option<OscArg>) -> (r: Result<Vec<u8>, String>)
    ensures
        r is Ok <==> address@.len() >= 2 && address@[0] == '/' && (forall|i: int|
            0 <= i < value_args(value).len() ==> sendable(#[trigger] value_args(value)[i])),
        r matches Ok(b) ==> encoded_msg(address@, value_args(value)) == Some(b@),
{
    let ghost addr_view = address@;
    match create_osc_message(address, value) {
        Ok(p) => match p {
            Packet::Message(m) => {
                proof {
                    assert(m.args@ =~= value_args(value));
                }
                match encode_message_bytes(&m.addr, &m.args) {
                    Some(bytes) => Ok(bytes),
                    None => Err(String::from_str("failed to encode message")),
                }
            },
            Packet::Bundle(_) => Err(String::from_str("failed to encode message")),
        },
        Err(e) => Err(e),
    }
}

} // verus!

//! Rendering of message arguments into the tokens of a forward line.
//!
//! Integers render as canonical decimal text, text arguments are wrapped in
//! double quotes with internal quotes escaped, blobs render as a placeholder
//! token carrying only their byte length, and the remaining kinds render as
//! fixed words or as the text they already carry.

use vstd::prelude::*;
use vstd::string::StringExecFns;
use vstd::string::StrSliceExecFns;
use crate::types::OscArg;

verus! {

/// The decimal digit character for `d` (`d < 10`).
pub open spec fn digit_char(d: nat) -> char {
    if d == 0 { '0' }
    else if d == 1 { '1' }
    else if d == 2 { '2' }
    else if d == 3 { '3' }
    else if d == 4 { '4' }
    else if d == 5 { '5' }
    else if d == 6 { '6' }
    else if d == 7 { '7' }
    else if d == 8 { '8' }
    else { '9' }
}

/// The decimal representation of `n`, most significant digit first,
/// with no leading zeros (`0` renders as `"0"`).
pub open spec fn dec_rep(n: nat) -> Seq<char>
    decreases n,
{
    if n < 10 {
        seq![digit_char(n)]
    } else {
        dec_rep(n / 10) + seq![digit_char(n % 10)]
    }
}

/// The canonical decimal text of a possibly negative integer.
pub open spec fn int_str(i: int) -> Seq<char> {
    if i < 0 {
        seq!['-'] + dec_rep((-i) as nat)
    } else {
        dec_rep(i as nat)
    }
}

/// How one character of a text argument renders: a double quote gains a
/// backslash, every other character stands as it is.
pub open spec fn esc_char(c: char) -> Seq<char> {
    if c == '"' { seq!['\\', '"'] } else { seq![c] }
}

/// The text `s` with every internal double quote escaped.
pub open spec fn escaped(s: Seq<char>) -> Seq<char>
    decreases s.len(),
{
    if s.len() == 0 {
        Seq::empty()
    } else {
        escaped(s.drop_last()) + esc_char(s.last())
    }
}

/// The placeholder token for a blob of `n` bytes.
pub open spec fn blob_token(n: nat) -> Seq<char> {
    "<blob "@ + dec_rep(n) + " bytes>"@
}

/// The token a single argument renders to.
pub open spec fn spec_render_arg(a: OscArg) -> Seq<char> {
    match a {
        OscArg::Int(i) => int_str(i as int),
        OscArg::Long(l) => int_str(l as int),
        OscArg::Float(t) => t@,
        OscArg::Double(t) => t@,
        OscArg::Str(s) => seq!['"'] + escaped(s@) + seq!['"'],
        OscArg::Blob(b) => blob_token(b@.len()),
        OscArg::Char(c) => seq![c],
        OscArg::Bool(b) => if b { "true"@ } else { "false"@ },
        OscArg::Nil => "nil"@,
        OscArg::Inf => "inf"@,
        OscArg::Other(t) => t@,
    }
}

/// `parts` joined by the single separator character `sep`.
pub open spec fn join_sep(parts: Seq<Seq<char>>, sep: char) -> Seq<char>
    decreases parts.len(),
{
    if parts.len() == 0 {
        Seq::empty()
    } else if parts.len() == 1 {
        parts[0]
    } else {
        parts[0] + seq![sep] + join_sep(parts.skip(1), sep)
    }
}

/// Appending one part extends the joined text by a separator and that part.
pub proof fn lemma_join_sep_push(parts: Seq<Seq<char>>, p: Seq<char>, sep: char)
    ensures
        parts.len() == 0 ==> join_sep(parts.push(p), sep) == p,
        parts.len() > 0 ==> join_sep(parts.push(p), sep) == join_sep(parts, sep) + seq![sep] + p,
    decreases parts.len(),
{
    if parts.len() == 0 {
        assert(parts.push(p)[0] == p);
    } else {
        lemma_join_sep_push(parts.skip(1), p, sep);
        assert(parts.push(p).skip(1) =~= parts.skip(1).push(p));
        assert(parts.push(p)[0] == parts[0]);
        if parts.len() == 1 {
            assert(join_sep(parts.push(p), sep) =~= parts[0] + seq![sep] + p);
            assert(join_sep(parts, sep) + seq![sep] + p =~= parts[0] + seq![sep] + p);
        } else {
            assert(join_sep(parts.push(p), sep) =~= join_sep(parts, sep) + seq![sep] + p);
        }
    }
}

/// Relies on `String::push` of std: appends the one character to the end.
#[verifier::external_body]
pub(crate) fn push_char(s: &mut String, c: char)
    ensures
        final(s)@ == old(s)@ + seq![c],
{
    s.push(c)
}

/// The decimal digit character for a value below ten.
pub fn digit_of(d: u64) -> (c: char)
    requires
        d < 10,
    ensures
        c == digit_char(d as nat),
{
    if d == 0 { '0' }
    else if d == 1 { '1' }
    else if d == 2 { '2' }
    else if d == 3 { '3' }
    else if d == 4 { '4' }
    else if d == 5 { '5' }
    else if d == 6 { '6' }
    else if d == 7 { '7' }
    else if d == 8 { '8' }
    else { '9' }
}

/// Renders an unsigned value as decimal text.
pub fn u64_to_string(n: u64) -> (s: String)
    ensures
        s@ == dec_rep(n as nat),
    decreases n,
{
    if n < 10 {
        let mut s = String::new();
        let c = digit_of(n);
        push_char(&mut s, c);
        s
    } else {
        let mut s = u64_to_string(n / 10);
        let c = digit_of(n % 10);
        push_char(&mut s, c);
        s
    }
}

/// Renders a signed value as decimal text, with a leading minus sign when
/// negative.
pub fn i64_to_string(i: i64) -> (s: String)
    ensures
        s@ == int_str(i as int),
{
    if i >= 0 {
        u64_to_string(i as u64)
    } else {
        let mag: u64 = if i == i64::MIN {
            9223372036854775808u64
        } else {
            (-i) as u64
        };
        let mut s = String::new();
        push_char(&mut s, '-');
        let t = u64_to_string(mag);
        s.append(t.as_str());
        assert(s@ =~= seq!['-'] + dec_rep(mag as nat));
        s
    }
}

/// The text with every internal double quote escaped to a backslash-quote.
pub fn escape_quotes(s: &str) -> (r: String)
    ensures
        r@ == escaped(s@),
{
    let n = s.unicode_len();
    let mut r = String::new();
    let mut i: usize = 0;
    while i < n
        invariant
            n == s@.len(),
            i <= n,
            r@ == escaped(s@.take(i as int)),
        decreases n - i,
    {
        let c = s.get_char(i);
        if c == '"' {
            push_char(&mut r, '\\');
            push_char(&mut r, '"');
        } else {
            push_char(&mut r, c);
        }
        i = i + 1;
        proof {
            let pre = s@.take(i as int);
            assert(pre.drop_last() =~= s@.take(i - 1));
            assert(pre.last() == s@[i - 1]);
            assert(r@ =~= escaped(pre));
        }
    }
    proof {
        assert(s@.take(n as int) =~= s@);
    }
    r
}

/// Renders one argument to its token.
pub fn render_arg(a: &OscArg) -> (r: String)
    ensures
        r@ == spec_render_arg(*a),
{
    match a {
        OscArg::Int(i) => i64_to_string(*i as i64),
        OscArg::Long(l) => i64_to_string(*l),
        OscArg::Float(t) => t.clone(),
        OscArg::Double(t) => t.clone(),
        OscArg::Str(s) => {
            let mut r = String::new();
            push_char(&mut r, '"');
            let esc = escape_quotes(s.as_str());
            r.append(esc.as_str());
            push_char(&mut r, '"');
            assert(r@ =~= seq!['"'] + escaped(s@) + seq!['"']);
            r
        },
        OscArg::Blob(b) => {
            let mut r = String::from_str("<blob ");
            let len_text = u64_to_string(b.len() as u64);
            r.append(len_text.as_str());
            r.append(" bytes>");
            assert(r@ =~= blob_token(b@.len()));
            r
        },
        OscArg::Char(c) => {
            let mut r = String::new();
            push_char(&mut r, *c);
            assert(r@ =~= seq![*c]);
            r
        },
        OscArg::Bool(b) => {
            if *b {
                String::from_str("true")
            } else {
                String::from_str("false")
            }
        },
        OscArg::Nil => String::from_str("nil"),
        OscArg::Inf => String::from_str("inf"),
        OscArg::Other(t) => t.clone(),
    }
}

/// Joins the given tokens with single spaces, in order.
pub fn join_tokens(parts: &Vec<String>) -> (r: String)
    ensures
        r@ == join_sep(parts@.map_values(|p: String| p@), ' '),
{
    let ghost views = parts@.map_values(|p: String| p@);
    let mut r = String::new();
    let mut i: usize = 0;
    while i < parts.len()
        invariant
            views == parts@.map_values(|p: String| p@),
            i <= parts@.len(),
            r@ == join_sep(views.take(i as int), ' '),
        decreases parts@.len() - i,
    {
        if i > 0 {
            push_char(&mut r, ' ');
        }
        r.append(parts[i].as_str());
        i = i + 1;
        proof {
            assert(views.take(i as int) =~= views.take(i - 1).push(views[i - 1]));
            lemma_join_sep_push(views.take(i - 1), views[i - 1], ' ');
            if i == 1 {
                assert(r@ =~= views[0]);
            }
        }
    }
    proof {
        assert(views.take(parts@.len() as int) =~= views);
    }
    r
}

} // verus!

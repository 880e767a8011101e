//! Address decoding and validation.
//!
//! An address is a slash-delimited path. It must begin with `/` after
//! percent-decoding and must keep at least one non-empty path component;
//! empty components (from repeated slashes) are dropped.

use vstd::prelude::*;
use vstd::string::StringExecFns;
use vstd::string::StrSliceExecFns;
use crate::render::push_char;
use crate::render::join_sep;

verus! {

/// What percent-decoding yields for the given text: the decoded text, or
/// nothing when the decoded bytes are not well-formed UTF-8.
pub uninterp spec fn percent_decoded(s: Seq<char>) -> Option<Seq<char>>;

/// Relies on `percent_encoding::percent_decode_str` and `decode_utf8`: every
/// `%` followed by two hex digits becomes that byte, the rest stays, and the
/// result is checked to be UTF-8; text without `%` is returned unchanged.
#[verifier::external_body]
fn percent_decode(s: &str) -> (r: Option<String>)
    ensures
        match r {
            Option::Some(d) => percent_decoded(s@) == Some(d@) && ((forall|i: int|
                0 <= i < s@.len() ==> s@[i] != '%') ==> d@ == s@),
            Option::None => percent_decoded(s@) is None && exists|i: int|
                0 <= i < s@.len() && s@[i] == '%',
        },
{
    match percent_encoding::percent_decode_str(s).decode_utf8() {
        Ok(cow) => Some(cow.into_owned()),
        Err(_) => None,
    }
}

/// The components of `s` split at `/`, with `cur` the partial component
/// already read; empty components are dropped.
pub open spec fn split_acc(s: Seq<char>, cur: Seq<char>) -> Seq<Seq<char>>
    decreases s.len(),
{
    if s.len() == 0 {
        if cur.len() == 0 { Seq::empty() } else { seq![cur] }
    } else if s[0] == '/' {
        if cur.len() == 0 {
            split_acc(s.skip(1), Seq::empty())
        } else {
            seq![cur] + split_acc(s.skip(1), Seq::empty())
        }
    } else {
        split_acc(s.skip(1), cur.push(s[0]))
    }
}

/// The non-empty path components of `s`, in order.
pub open spec fn path_components(s: Seq<char>) -> Seq<Seq<char>> {
    split_acc(s, Seq::empty())
}

/// A decoded address is valid when it starts with `/` and keeps at least one
/// non-empty component.
pub open spec fn valid_decoded(d: Seq<char>) -> bool {
    &&& d.len() > 0
    &&& d[0] == '/'
    &&& path_components(d).len() > 0
}

/// The views of a vector of strings, in order.
pub open spec fn str_views(v: Seq<String>) -> Seq<Seq<char>> {
    v.map_values(|t: String| t@)
}

/// A well-formed path component: non-empty and free of `/`.
pub open spec fn comp_ok(c: Seq<char>) -> bool {
    c.len() > 0 && forall|i: int| 0 <= i < c.len() ==> c[i] != '/'
}

/// Every split component is well-formed, provided the partial component read
/// so far is free of `/`.
pub proof fn lemma_split_acc_wf(s: Seq<char>, cur: Seq<char>)
    requires
        forall|i: int| 0 <= i < cur.len() ==> cur[i] != '/',
    ensures
        forall|k: int| 0 <= k < split_acc(s, cur).len() ==> comp_ok(#[trigger] split_acc(s, cur)[k]),
    decreases s.len(),
{
    if s.len() == 0 {
        if cur.len() > 0 {
            assert(split_acc(s, cur)[0] == cur);
        }
    } else if s[0] == '/' {
        lemma_split_acc_wf(s.skip(1), Seq::empty());
        if cur.len() > 0 {
            let rest = split_acc(s.skip(1), Seq::empty());
            assert forall|k: int| 0 <= k < split_acc(s, cur).len() implies comp_ok(
                #[trigger] split_acc(s, cur)[k],
            ) by {
                if k == 0 {
                    assert(split_acc(s, cur)[0] == cur);
                } else {
                    assert(split_acc(s, cur)[k] == rest[k - 1]);
                }
            }
        }
    } else {
        let cur2 = cur.push(s[0]);
        assert forall|i: int| 0 <= i < cur2.len() implies cur2[i] != '/' by {
            if i < cur.len() {
                assert(cur2[i] == cur[i]);
            } else {
                assert(cur2[i] == s[0]);
            }
        }
        lemma_split_acc_wf(s.skip(1), cur2);
        assert forall|k: int| 0 <= k < split_acc(s, cur).len() implies comp_ok(
            #[trigger] split_acc(s, cur)[k],
        ) by {
            assert(split_acc(s, cur)[k] == split_acc(s.skip(1), cur2)[k]);
        }
    }
}

/// Splitting text that holds no separator only extends the partial component.
pub proof fn lemma_split_acc_nosep(t: Seq<char>, u: Seq<char>, cur: Seq<char>)
    requires
        forall|i: int| 0 <= i < t.len() ==> t[i] != '/',
    ensures
        split_acc(t + u, cur) == split_acc(u, cur + t),
    decreases t.len(),
{
    if t.len() == 0 {
        assert(t + u =~= u);
        assert(cur + t =~= cur);
    } else {
        assert((t + u)[0] == t[0]);
        assert((t + u).skip(1) =~= t.skip(1) + u);
        assert(cur.push(t[0]) + t.skip(1) =~= cur + t);
        lemma_split_acc_nosep(t.skip(1), u, cur.push(t[0]));
    }
}

/// Splitting the slash-joined components gives the components back, when each
/// is non-empty and free of `/`.
pub proof fn lemma_split_of_join(comps: Seq<Seq<char>>)
    requires
        forall|k: int| 0 <= k < comps.len() ==> (#[trigger] comps[k]).len() > 0,
        forall|k: int, i: int|
            0 <= k < comps.len() && 0 <= i < comps[k].len() ==> #[trigger] comps[k][i] != '/',
    ensures
        path_components(join_sep(comps, '/')) == comps,
    decreases comps.len(),
{
    let e = Seq::<char>::empty();
    if comps.len() == 0 {
    } else if comps.len() == 1 {
        let c = comps[0];
        lemma_split_acc_nosep(c, e, e);
        assert(c + e =~= c);
        assert(e + c =~= c);
        assert(split_acc(e, c) =~= seq![c]);
        assert(path_components(join_sep(comps, '/')) =~= comps);
    } else {
        let c = comps[0];
        let rest = join_sep(comps.skip(1), '/');
        let u = seq!['/'] + rest;
        assert(join_sep(comps, '/') == c + seq!['/'] + rest);
        assert(c + seq!['/'] + rest =~= c + u);
        lemma_split_acc_nosep(c, u, e);
        assert(e + c =~= c);
        assert(u[0] == '/');
        assert(u.skip(1) =~= rest);
        assert(split_acc(u, c) =~= seq![c] + split_acc(rest, e));
        lemma_split_of_join(comps.skip(1));
        assert(seq![c] + comps.skip(1) =~= comps);
    }
}

/// Law: normalization is idempotent. Re-joining the components of a valid
/// decoded address with slashes, under a leading slash, yields an address
/// that is itself valid and splits into the same components.
pub proof fn lemma_normalize_idempotent(d: Seq<char>)
    requires
        valid_decoded(d),
    ensures
        ({
            let norm = seq!['/'] + join_sep(path_components(d), '/');
            valid_decoded(norm) && path_components(norm) == path_components(d)
        }),
{
    let comps = path_components(d);
    let norm = seq!['/'] + join_sep(comps, '/');
    lemma_split_acc_wf(d, Seq::empty());
    lemma_split_of_join(comps);
    assert(norm[0] == '/');
    assert(norm.skip(1) =~= join_sep(comps, '/'));
    assert(split_acc(norm, Seq::empty()) == split_acc(norm.skip(1), Seq::empty()));
}

/// Splits text into its non-empty path components.
pub fn split_components(s: &str) -> (r: Vec<String>)
    ensures
        str_views(r@) == path_components(s@),
{
    let n = s.unicode_len();
    let mut r: Vec<String> = Vec::new();
    let mut cur = String::new();
    let mut i: usize = 0;
    proof {
        assert(s@.skip(0) =~= s@);
        assert(str_views(r@) =~= Seq::<Seq<char>>::empty());
    }
    while i < n
        invariant
            n == s@.len(),
            i <= n,
            forall|j: int| 0 <= j < cur@.len() ==> cur@[j] != '/',
            path_components(s@) == str_views(r@) + split_acc(s@.skip(i as int), cur@),
        decreases n - i,
    {
        let c = s.get_char(i);
        proof {
            assert(s@.skip(i as int)[0] == s@[i as int]);
            assert(s@.skip(i as int).skip(1) =~= s@.skip(i as int + 1));
        }
        if c == '/' {
            proof {
                if cur@.len() == 0 {
                    assert(cur@ =~= Seq::<char>::empty());
                }
            }
            if !cur.as_str().is_empty() {
                let ghost old_r = r@;
                let ghost old_cur = cur@;
                r.push(cur);
                cur = String::new();
                proof {
                    assert(str_views(r@) =~= str_views(old_r) + seq![old_cur]);
                    assert(split_acc(s@.skip(i as int), old_cur) == seq![old_cur] + split_acc(
                        s@.skip(i as int + 1),
                        Seq::empty(),
                    ));
                    assert(str_views(old_r) + (seq![old_cur] + split_acc(
                        s@.skip(i as int + 1),
                        Seq::empty(),
                    )) =~= str_views(r@) + split_acc(s@.skip(i as int + 1), Seq::empty()));
                    assert(cur@ =~= Seq::<char>::empty());
                }
            }
        } else {
            let ghost old_cur = cur@;
            push_char(&mut cur, c);
            proof {
                assert(cur@ =~= old_cur.push(s@[i as int]));
            }
        }
        i = i + 1;
    }
    proof {
        assert(s@.skip(n as int) =~= Seq::<char>::empty());
    }
    if !cur.as_str().is_empty() {
        let ghost old_r = r@;
        let ghost old_cur = cur@;
        r.push(cur);
        proof {
            assert(str_views(r@) =~= str_views(old_r) + seq![old_cur]);
        }
    } else {
        proof {
            assert(cur@ =~= Seq::<char>::empty());
        }
    }
    proof {
        assert(str_views(r@) =~= path_components(s@));
    }
    r
}

/// Percent-decodes an address and validates it: the decoding must succeed,
/// the decoded text must start with `/`, and at least one non-empty path
/// component must remain. Returns the components, or nothing for an address
/// that is to be dropped.
pub fn decode_and_validate_address(addr: &str) -> (r: Option<Vec<String>>)
    ensures
        (forall|i: int| 0 <= i < addr@.len() ==> addr@[i] != '%') ==> percent_decoded(addr@)
            == Some(addr@),
        match percent_decoded(addr@) {
            Option::None => r is None,
            Option::Some(d) => {
                if valid_decoded(d) {
                    r matches Some(v) && str_views(v@) == path_components(d)
                } else {
                    r is None
                }
            },
        },
{
    let decoded = match percent_decode(addr) {
        Some(d) => d,
        None => {
            return None;
        },
    };
    let dstr = decoded.as_str();
    if dstr.is_empty() {
        return None;
    }
    if dstr.get_char(0) != '/' {
        return None;
    }
    let comps = split_components(dstr);
    if comps.len() == 0 {
        return None;
    }
    Some(comps)
}

} // verus!

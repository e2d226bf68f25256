//! The console page: the form that asks for a new server, and the order in
//! which the versions that can be installed are offered (newest first).
use vstd::prelude::*;
use crate::text::chars_of;

verus! {

broadcast use {
    vstd::utf8::encode_utf8_valid_utf8,
    vstd::utf8::encode_utf8_decode_utf8,
    vstd::utf8::valid_utf8_split,
    vstd::utf8::is_char_boundary_iff_not_is_continuation_byte,
};

/// The form that asks for a new server.
pub struct NewServer {
    pub server_name: String,
    pub version: String,
    pub user_name: String,
    pub token: String,
}

/// Bytes 2 to 4 of a version's UTF-8 text (`&version[2..4]`), when both ends
/// fall on character boundaries.
pub open spec fn minor_field(v: Seq<char>) -> Option<Seq<char>> {
    let b = vstd::utf8::encode_utf8(v);
    if b.len() >= 4 && vstd::utf8::is_char_boundary(b, 2) && vstd::utf8::is_char_boundary(b, 4) {
        Some(vstd::utf8::decode_utf8(b.subrange(2, 4)))
    } else {
        None
    }
}

pub open spec fn is_digit(c: char) -> bool {
    '0' <= c <= '9'
}

/// The value of a string of decimal digits.
pub open spec fn digits_value(s: Seq<char>) -> int
    decreases s.len(),
{
    if s.len() == 0 {
        0
    } else {
        digits_value(s.drop_last()) * 10 + (s.last() as int - 48)
    }
}

/// Every character is a decimal digit.
pub open spec fn all_digits(s: Seq<char>) -> bool {
    forall|i: int| 0 <= i < s.len() ==> is_digit(#[trigger] s[i])
}

/// The value of one digit or more.
pub open spec fn unsigned_value(s: Seq<char>) -> Option<int> {
    if s.len() > 0 && all_digits(s) {
        Some(digits_value(s))
    } else {
        None
    }
}

/// What `str::parse::<i32>` gives of a short string: an optional sign, then
/// one digit or more.
pub open spec fn parse_int(s: Seq<char>) -> Option<int> {
    if s.len() > 0 && s[0] == '-' {
        match unsigned_value(s.drop_first()) {
            Some(n) => Some(-n),
            None => None,
        }
    } else if s.len() > 0 && s[0] == '+' {
        unsigned_value(s.drop_first())
    } else {
        unsigned_value(s)
    }
}

/// The key by which the versions are ordered: `&version[2..4]` without its
/// dots, read as a number (20 for `1.20.4`, 8 for `1.8.8`).
pub open spec fn version_order_key(v: Seq<char>) -> Option<int> {
    match minor_field(v) {
        Some(f) => parse_int(f.filter(|c: char| c != '.')),
        None => None,
    }
}

/// `out` holds the versions `vs` newest first: `p` says where each came from
/// in `vs` (each exactly once); keys never grow along `out`, and versions of
/// the same key come in the reverse of their order in `vs`.
pub open spec fn newest_first(vs: Seq<Seq<char>>, out: Seq<Seq<char>>, p: Seq<int>) -> bool {
    &&& out.len() == vs.len()
    &&& p.len() == vs.len()
    &&& forall|i: int| 0 <= i < p.len() ==> 0 <= #[trigger] p[i] < vs.len()
    &&& forall|i: int, j: int| 0 <= i < j < p.len() ==> p[i] != p[j]
    &&& forall|i: int| 0 <= i < out.len() ==> #[trigger] out[i] == vs[p[i]]
    &&& forall|i: int, j: int|
        0 <= i < j < out.len() ==> version_order_key(#[trigger] out[i])->0 > version_order_key(
            #[trigger] out[j],
        )->0 || (version_order_key(out[i])->0 == version_order_key(out[j])->0 && p[i] > p[j])
}

/// The strings of a vector as character sequences.
pub open spec fn strings_view(v: Seq<String>) -> Seq<Seq<char>> {
    v.map_values(|s: String| s@)
}

fn digit_value(c: char) -> (d: i32)
    requires
        is_digit(c),
    ensures
        d == c as int - 48,
{
    (c as u32 - 48) as i32
}

/// `str::parse::<i32>` of at most two characters.
fn parse_short_int(s: &Vec<char>) -> (r: Option<i32>)
    requires
        s@.len() <= 2,
    ensures
        match parse_int(s@) {
            Some(n) => r matches Some(x) && x == n,
            None => r is None,
        },
{
    let ghost q = s@;
    proof {
        assert(digits_value(Seq::<char>::empty()) == 0);
    }
    if s.len() == 0 {
        return None;
    }
    let c0 = s[0];
    if c0 == '-' || c0 == '+' {
        let ghost ds = q.drop_first();
        if s.len() == 2 && is_digit_char(s[1]) {
            let d = digit_value(s[1]);
            proof {
                assert(ds.len() == 1 && ds[0] == q[1]);
                assert(all_digits(ds));
                assert(ds.drop_last() =~= Seq::<char>::empty());
                assert(digits_value(ds) == d);
            }
            if c0 == '-' {
                return Some(-d);
            } else {
                return Some(d);
            }
        }
        proof {
            if s.len() == 2 {
                assert(ds[0] == q[1]);
                assert(!is_digit(ds[0]));
                assert(!all_digits(ds));
            } else {
                assert(ds.len() == 0);
            }
            assert(unsigned_value(ds) is None);
        }
        return None;
    }
    if s.len() == 1 {
        if is_digit_char(c0) {
            proof {
                assert(all_digits(q));
                assert(q.drop_last() =~= Seq::<char>::empty());
                assert(digits_value(q) == c0 as int - 48);
            }
            return Some(digit_value(c0));
        }
        proof {
            assert(!is_digit(q[0]));
        }
        return None;
    }
    let c1 = s[1];
    if is_digit_char(c0) && is_digit_char(c1) {
        let d0 = digit_value(c0);
        let d1 = digit_value(c1);
        proof {
            assert(all_digits(q));
            let h = q.drop_last();
            assert(h.len() == 1 && h[0] == c0 && h.last() == c0);
            assert(h.drop_last() =~= Seq::<char>::empty());
            assert(digits_value(h) == d0);
            assert(q.last() == c1);
            assert(digits_value(q) == d0 * 10 + d1);
        }
        return Some(d0 * 10 + d1);
    }
    proof {
        if !is_digit(c0) {
            assert(!is_digit(q[0]));
        } else {
            assert(!is_digit(q[1]));
        }
    }
    None
}

fn is_digit_char(c: char) -> (b: bool)
    ensures
        b == is_digit(c),
{
    '0' <= c && c <= '9'
}

/// The key by which a version is ordered, when it has one.
pub fn version_key(version: &str) -> (k: Option<i32>)
    ensures
        match version_order_key(version@) {
            Some(n) => k matches Some(x) && x == n,
            None => k is None,
        },
{
    let ghost b = vstd::utf8::encode_utf8(version@);
    if !version.is_char_boundary(2) || !version.is_char_boundary(4) {
        return None;
    }
    let (head, _) = version.split_at(4);
    proof {
        let hb = vstd::utf8::encode_utf8(head@);
        assert(hb =~= b.subrange(0, 4));
        assert(hb[2] == b[2]);
        vstd::utf8::valid_utf8_split(b, 4);
        vstd::utf8::is_char_boundary_iff_not_is_continuation_byte(b, 2);
        vstd::utf8::is_char_boundary_iff_not_is_continuation_byte(hb, 2);
    }
    let (_, mid) = head.split_at(2);
    proof {
        assert(vstd::utf8::encode_utf8(mid@) =~= b.subrange(2, 4));
        assert(vstd::utf8::decode_utf8(vstd::utf8::encode_utf8(mid@)) == mid@);
        assert(minor_field(version@) == Some(mid@));
    }
    let cs = chars_of(mid);
    let ghost f = cs@;
    let ghost keep = |c: char| c != '.';
    let mut digits: Vec<char> = Vec::new();
    let mut i: usize = 0;
    proof {
        reveal_with_fuel(Seq::filter, 1);
        assert(f.take(0) =~= Seq::<char>::empty());
        vstd::utf8::encode_utf8_first_scalar(mid@);
        lemma_chars_at_most_bytes(mid@);
    }
    while i < cs.len()
        invariant
            f == cs@,
            keep == (|c: char| c != '.'),
            i <= cs@.len(),
            digits@ == f.take(i as int).filter(keep),
        decreases cs@.len() - i,
    {
        let c = cs[i];
        proof {
            assert(f.take(i + 1) =~= f.take(i as int).push(c));
            f.take(i as int).lemma_filter_push(c, keep);
        }
        if c != '.' {
            digits.push(c);
        }
        i = i + 1;
    }
    proof {
        assert(f.take(f.len() as int) =~= f);
        f.lemma_filter_len(keep);
    }
    parse_short_int(&digits)
}

/// A string has no more characters than its UTF-8 encoding has bytes.
pub proof fn lemma_chars_at_most_bytes(s: Seq<char>)
    ensures
        s.len() <= vstd::utf8::encode_utf8(s).len(),
    decreases s.len(),
{
    if s.len() > 0 {
        vstd::utf8::encode_utf8_first_scalar(s);
        lemma_chars_at_most_bytes(s.drop_first());
        assert(vstd::utf8::encode_utf8(s).len() >= 1 + vstd::utf8::encode_utf8(s.drop_first()).len()) by {
            reveal_with_fuel(vstd::utf8::encode_utf8, 1);
            lemma_encode_scalar_nonempty(s[0] as u32);
        }
    }
}

proof fn lemma_encode_scalar_nonempty(c: u32)
    ensures
        vstd::utf8::encode_scalar(c).len() >= 1,
{
}

/// The versions newest first, by their keys: the order in which the console
/// offers them. Versions of the same key come in the reverse of the order in
/// which they were given. Every version must have a key when there are two or
/// more (ordering one needs them all).
pub fn order_versions(versions: Vec<String>) -> (out: Vec<String>)
    requires
        versions@.len() >= 2 ==> forall|i: int|
            0 <= i < versions@.len() ==> (#[trigger] version_order_key(versions@[i]@)) is Some,
    ensures
        exists|p: Seq<int>| newest_first(strings_view(versions@), strings_view(out@), p),
{
    let ghost vs = strings_view(versions@);
    let n = versions.len();
    if n < 2 {
        proof {
            let p = Seq::new(n as nat, |i: int| i);
            assert(newest_first(vs, vs, p));
        }
        return versions;
    }
    let mut out: Vec<String> = Vec::new();
    let mut keys: Vec<i32> = Vec::new();
    let ghost mut p: Seq<int> = Seq::empty();
    let mut j: usize = 0;
    while j < n
        invariant
            n == versions@.len(),
            vs == strings_view(versions@),
            forall|i: int| 0 <= i < n ==> (#[trigger] version_order_key(vs[i])) is Some,
            j <= n,
            out@.len() == j,
            keys@.len() == j,
            p.len() == j,
            forall|i: int| 0 <= i < j ==> 0 <= #[trigger] p[i] < j,
            forall|a: int, b: int| 0 <= a < b < j ==> p[a] != p[b],
            forall|i: int| 0 <= i < j ==> (#[trigger] out@[i])@ == vs[p[i]],
            forall|i: int| 0 <= i < j ==> keys@[i] == version_order_key(#[trigger] out@[i]@)->0,
            forall|a: int, b: int|
                0 <= a < b < j ==> keys@[a] > keys@[b] || (keys@[a] == keys@[b] && p[a] > p[b]),
        decreases n - j,
    {
        let v = &versions[j];
        proof {
            assert(vs[j as int] == v@);
            assert(version_order_key(vs[j as int]) is Some);
        }
        let k = match version_key(v.as_str()) {
            Some(k) => k,
            None => {
                proof {
                    assert(false);
                }
                0
            },
        };
        let mut pos: usize = 0;
        while pos < out.len() && keys[pos] > k
            invariant
                pos <= out@.len(),
                keys@.len() == out@.len(),
                forall|i: int| 0 <= i < pos ==> keys@[i] > k,
            decreases out@.len() - pos,
        {
            pos = pos + 1;
        }
        let ghost old_keys = keys@;
        let ghost old_out = out@;
        let ghost old_p = p;
        proof {
            assert forall|i: int| pos <= i < old_keys.len() implies old_keys[i] <= k by {
                if i > pos {
                    assert(old_keys[pos as int] > old_keys[i] || old_keys[pos as int] == old_keys[i]);
                }
            }
        }
        out.insert(pos, v.clone());
        keys.insert(pos, k);
        proof {
            p = p.insert(pos as int, j as int);
            assert forall|i: int| 0 <= i < j + 1 implies 0 <= #[trigger] p[i] < j + 1 by {
                if i < pos {
                    assert(p[i] == old_p[i]);
                } else if i > pos {
                    assert(p[i] == old_p[i - 1]);
                }
            }
            assert forall|a: int, b: int| 0 <= a < b < j + 1 implies p[a] != p[b] by {
                if a < pos {
                    assert(p[a] == old_p[a]);
                } else if a > pos {
                    assert(p[a] == old_p[a - 1]);
                }
                if b < pos {
                    assert(p[b] == old_p[b]);
                } else if b > pos {
                    assert(p[b] == old_p[b - 1]);
                }
            }
            assert forall|i: int| 0 <= i < j + 1 implies (#[trigger] out@[i])@ == vs[p[i]] by {
                if i < pos {
                    assert(out@[i] == old_out[i] && p[i] == old_p[i]);
                } else if i > pos {
                    assert(out@[i] == old_out[i - 1] && p[i] == old_p[i - 1]);
                }
            }
            assert forall|i: int| 0 <= i < j + 1 implies keys@[i] == version_order_key(
                #[trigger] out@[i]@,
            )->0 by {
                if i < pos {
                    assert(out@[i] == old_out[i] && keys@[i] == old_keys[i]);
                } else if i > pos {
                    assert(out@[i] == old_out[i - 1] && keys@[i] == old_keys[i - 1]);
                }
            }
            assert forall|a: int, b: int| 0 <= a < b < j + 1 implies keys@[a] > keys@[b] || (
            keys@[a] == keys@[b] && p[a] > p[b]) by {
                if a < pos {
                    assert(keys@[a] == old_keys[a] && p[a] == old_p[a]);
                } else if a > pos {
                    assert(keys@[a] == old_keys[a - 1] && p[a] == old_p[a - 1]);
                }
                if b < pos {
                    assert(keys@[b] == old_keys[b] && p[b] == old_p[b]);
                } else if b > pos {
                    assert(keys@[b] == old_keys[b - 1] && p[b] == old_p[b - 1]);
                }
            }
        }
        j = j + 1;
    }
    proof {
        let ov = strings_view(out@);
        assert forall|i: int| 0 <= i < ov.len() implies #[trigger] ov[i] == vs[p[i]] by {
            assert(ov[i] == out@[i]@);
        }
        assert forall|a: int, b: int| 0 <= a < b < ov.len() implies version_order_key(
            #[trigger] ov[a],
        )->0 > version_order_key(#[trigger] ov[b])->0 || (version_order_key(ov[a])->0
            == version_order_key(ov[b])->0 && p[a] > p[b]) by {
            assert(ov[a] == out@[a]@ && ov[b] == out@[b]@);
            assert(keys@[a] == version_order_key(out@[a]@)->0);
            assert(keys@[b] == version_order_key(out@[b]@)->0);
        }
        assert(newest_first(vs, ov, p));
    }
    out
}

} // verus!

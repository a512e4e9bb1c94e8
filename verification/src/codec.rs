//! The line codec: one envelope to and from one line of structured text.
//!
//! The wire grammar is canonical: every field stands in a fixed order with no
//! insignificant whitespace, so each envelope has exactly one encoding. The
//! decoder accepts a line exactly when the spec-level parser
//! [`spec_decode`] accepts it, and the two directions are proved inverse in
//! [`lemma_round_trip`].

use vstd::prelude::*;
use vstd::string::StrSliceExecFns;
use vstd::string::StringExecFns;
use crate::protocol::{Body, BodyView, Message, MessageView, Payload, PayloadView};

verus! {

/// Why a line was rejected: the envelope was syntactically sound but its
/// `type` tag is not a recognized message kind, or the line does not match
/// the grammar at all.
#[derive(Debug, Clone, PartialEq, Eq)]
pub enum DecodeError {
    UnknownType,
    Malformed,
}

// ---------------------------------------------------------------------------
// The encoded form, defined at the spec level.
// ---------------------------------------------------------------------------

/// How one character stands inside an encoded string: the quote, the
/// backslash and the three common control characters are escaped; every other
/// character stands for itself.
pub open spec fn esc_char(c: char) -> Seq<char> {
    if c == '"' {
        seq!['\\', '"']
    } else if c == '\\' {
        seq!['\\', '\\']
    } else if c == '\n' {
        seq!['\\', 'n']
    } else if c == '\r' {
        seq!['\\', 'r']
    } else if c == '\t' {
        seq!['\\', 't']
    } else {
        seq![c]
    }
}

/// The escaped characters of `s`, without the surrounding quotes.
pub open spec fn enc_str_inner(s: Seq<char>) -> Seq<char>
    decreases s.len(),
{
    if s.len() == 0 {
        Seq::<char>::empty()
    } else {
        esc_char(s[0]) + enc_str_inner(s.subrange(1, s.len() as int))
    }
}

/// A string value on the wire: quotes around the escaped characters.
pub open spec fn enc_str(s: Seq<char>) -> Seq<char> {
    seq!['"'] + enc_str_inner(s) + seq!['"']
}

/// The decimal digit characters.
pub open spec fn digit_char(d: int) -> char {
    if d == 0 {
        '0'
    } else if d == 1 {
        '1'
    } else if d == 2 {
        '2'
    } else if d == 3 {
        '3'
    } else if d == 4 {
        '4'
    } else if d == 5 {
        '5'
    } else if d == 6 {
        '6'
    } else if d == 7 {
        '7'
    } else if d == 8 {
        '8'
    } else {
        '9'
    }
}

/// The decimal digits of `n`, most significant first, no leading zeros
/// (a single `0` for zero).
pub open spec fn enc_nat(n: nat) -> Seq<char>
    decreases n,
{
    if n < 10 {
        seq![digit_char(n as int)]
    } else {
        enc_nat(n / 10) + seq![digit_char((n % 10) as int)]
    }
}

/// A signed integer on the wire: an optional minus sign and the decimal
/// digits of the magnitude.
pub open spec fn enc_i32(n: int) -> Seq<char> {
    if n < 0 {
        seq!['-'] + enc_nat((-n) as nat)
    } else {
        enc_nat(n as nat)
    }
}

/// The items of a string array from position `k` on, each preceded by a
/// comma.
pub open spec fn enc_str_rest(v: Seq<Seq<char>>, k: int) -> Seq<char>
    decreases v.len() - k,
{
    if k < 0 || k >= v.len() {
        Seq::<char>::empty()
    } else {
        seq![','] + enc_str(v[k]) + enc_str_rest(v, k + 1)
    }
}

/// An array of strings on the wire: brackets around comma-separated string
/// values.
pub open spec fn enc_str_arr(v: Seq<Seq<char>>) -> Seq<char> {
    if v.len() == 0 {
        seq!['[', ']']
    } else {
        seq!['['] + enc_str(v[0]) + enc_str_rest(v, 1) + seq![']']
    }
}

/// The `type` tag of each payload kind.
pub open spec fn tag_of(p: PayloadView) -> Seq<char> {
    match p {
        PayloadView::Init { .. } => ("init")@,
        PayloadView::Add { .. } => ("add")@,
        PayloadView::Read => ("read")@,
        PayloadView::InitOk => ("init_ok")@,
        PayloadView::AddOk => ("add_ok")@,
        PayloadView::ReadOk { .. } => ("read_ok")@,
        PayloadView::Error { .. } => ("error")@,
    }
}

/// The per-kind fields of a payload, each preceded by a comma; empty for the
/// kinds that carry none.
pub open spec fn enc_fields(p: PayloadView) -> Seq<char> {
    match p {
        PayloadView::Init { node_id, node_ids } => (",\"node_id\":")@ + enc_str(node_id) + (
        ",\"node_ids\":")@ + enc_str_arr(node_ids),
        PayloadView::Add { delta } => (",\"delta\":")@ + enc_i32(delta as int),
        PayloadView::Read => Seq::<char>::empty(),
        PayloadView::InitOk => Seq::<char>::empty(),
        PayloadView::AddOk => Seq::<char>::empty(),
        PayloadView::ReadOk { value } => (",\"value\":")@ + enc_i32(value as int),
        PayloadView::Error { code, text } => (",\"code\":")@ + enc_i32(code as int) + (
        ",\"text\":")@ + enc_str(text),
    }
}

/// An optional correlation field: nothing when absent, `key` and the value
/// when present.
pub open spec fn enc_opt(key: Seq<char>, o: Option<i32>) -> Seq<char> {
    match o {
        None => Seq::<char>::empty(),
        Some(n) => key + enc_i32(n as int),
    }
}

/// A body on the wire: the tag, the per-kind fields, then the optional
/// correlation fields, in that order.
pub open spec fn enc_body(b: BodyView) -> Seq<char> {
    ("{\"type\":")@ + enc_str(tag_of(b.rest)) + enc_fields(b.rest) + enc_opt(
        (",\"msg_id\":")@,
        b.msg_id,
    ) + enc_opt((",\"in_reply_to\":")@, b.in_reply_to) + ("}")@
}

/// The one line that an envelope encodes to.
pub open spec fn spec_encode(m: MessageView) -> Seq<char> {
    ("{\"src\":")@ + enc_str(m.src) + (",\"dest\":")@ + enc_str(m.dest) + (",\"body\":")@
        + enc_body(m.body) + ("}")@
}

// ---------------------------------------------------------------------------
// The spec-level parser: the definition of which lines are accepted.
// ---------------------------------------------------------------------------

/// Expect the exact characters `lit` at position `i`; the position after
/// them on success.
pub open spec fn sp_lit(s: Seq<char>, i: int, lit: Seq<char>) -> Option<int> {
    if 0 <= i && i + lit.len() <= s.len() && s.subrange(i, i + lit.len()) == lit {
        Some(i + lit.len())
    } else {
        None
    }
}

/// What an escape code after a backslash stands for.
pub open spec fn unesc_char(c: char) -> Option<char> {
    if c == '"' {
        Some('"')
    } else if c == '\\' {
        Some('\\')
    } else if c == 'n' {
        Some('\n')
    } else if c == 'r' {
        Some('\r')
    } else if c == 't' {
        Some('\t')
    } else {
        None
    }
}

/// Parse the characters of a string value up to and past its closing quote,
/// starting just after the opening quote.
pub open spec fn sp_str_inner(s: Seq<char>, i: int) -> Option<(Seq<char>, int)>
    decreases s.len() - i,
{
    if i < 0 || i >= s.len() {
        None
    } else if s[i] == '"' {
        Some((Seq::<char>::empty(), i + 1))
    } else if s[i] == '\\' {
        if i + 1 < s.len() {
            match unesc_char(s[i + 1]) {
                Some(c) => match sp_str_inner(s, i + 2) {
                    Some(r) => Some((seq![c] + r.0, r.1)),
                    None => None,
                },
                None => None,
            }
        } else {
            None
        }
    } else {
        match sp_str_inner(s, i + 1) {
            Some(r) => Some((seq![s[i]] + r.0, r.1)),
            None => None,
        }
    }
}

/// Parse a quoted string value at position `i`.
pub open spec fn sp_str(s: Seq<char>, i: int) -> Option<(Seq<char>, int)> {
    if 0 <= i && i < s.len() && s[i] == '"' {
        sp_str_inner(s, i + 1)
    } else {
        None
    }
}

/// Whether `c` is a decimal digit.
pub open spec fn is_digit(c: char) -> bool {
    c == '0' || c == '1' || c == '2' || c == '3' || c == '4' || c == '5' || c == '6' || c == '7'
        || c == '8' || c == '9'
}

/// The value of a decimal digit character.
pub open spec fn digit_val(c: char) -> int {
    if c == '0' {
        0
    } else if c == '1' {
        1
    } else if c == '2' {
        2
    } else if c == '3' {
        3
    } else if c == '4' {
        4
    } else if c == '5' {
        5
    } else if c == '6' {
        6
    } else if c == '7' {
        7
    } else if c == '8' {
        8
    } else {
        9
    }
}

/// The position just past the run of digits starting at `i`.
pub open spec fn digit_run_end(s: Seq<char>, i: int) -> int
    decreases s.len() - i,
{
    if 0 <= i && i < s.len() && is_digit(s[i]) {
        digit_run_end(s, i + 1)
    } else {
        i
    }
}

/// The value of a sequence of digit characters, most significant first.
pub open spec fn digits_val(d: Seq<char>) -> int
    decreases d.len(),
{
    if d.len() == 0 {
        0
    } else {
        digits_val(d.drop_last()) * 10 + digit_val(d.last())
    }
}

/// Parse a signed decimal integer at position `i`: an optional minus sign,
/// one to ten digits, and a value in `i32` range.
pub open spec fn sp_i32(s: Seq<char>, i: int) -> Option<(i32, int)> {
    if i < 0 {
        None
    } else {
        let neg = i < s.len() && s[i] == '-';
        let j = if neg {
            i + 1
        } else {
            i
        };
        let e = digit_run_end(s, j);
        if e == j || e - j > 10 {
            None
        } else {
            let v = digits_val(s.subrange(j, e));
            if neg {
                if v <= 0x8000_0000 {
                    Some(((-v) as i32, e))
                } else {
                    None
                }
            } else {
                if v <= 0x7fff_ffff {
                    Some((v as i32, e))
                } else {
                    None
                }
            }
        }
    }
}

/// Parse an optional correlation field: `key` followed by an integer when the
/// key stands at `i`, nothing otherwise.
pub open spec fn sp_opt(s: Seq<char>, i: int, key: Seq<char>) -> Option<(Option<i32>, int)> {
    match sp_lit(s, i, key) {
        Some(j) => match sp_i32(s, j) {
            Some(r) => Some((Some(r.0), r.1)),
            None => None,
        },
        None => Some((None, i)),
    }
}

/// Parse the items of a non-empty string array up to and past the closing
/// bracket, starting at the first item.
pub open spec fn sp_str_list(s: Seq<char>, i: int) -> Option<(Seq<Seq<char>>, int)>
    decreases s.len() - i,
{
    match sp_str(s, i) {
        None => None,
        Some((x, j)) => {
            if j <= i || j > s.len() {
                None
            } else if j < s.len() && s[j] == ',' {
                match sp_str_list(s, j + 1) {
                    Some((xs, k)) => Some((seq![x] + xs, k)),
                    None => None,
                }
            } else if j < s.len() && s[j] == ']' {
                Some((seq![x], j + 1))
            } else {
                None
            }
        },
    }
}

/// Parse an array of string values at position `i`.
pub open spec fn sp_str_arr(s: Seq<char>, i: int) -> Option<(Seq<Seq<char>>, int)> {
    if 0 <= i && i < s.len() && s[i] == '[' {
        if i + 1 < s.len() && s[i + 1] == ']' {
            Some((Seq::<Seq<char>>::empty(), i + 2))
        } else {
            sp_str_list(s, i + 1)
        }
    } else {
        None
    }
}

/// Whether `t` is one of the recognized `type` tags.
pub open spec fn known_tag(t: Seq<char>) -> bool {
    t == ("init")@ || t == ("add")@ || t == ("read")@ || t == ("init_ok")@ || t == ("add_ok")@
        || t == ("read_ok")@ || t == ("error")@
}

/// Parse the per-kind fields that follow the tag of a body.
pub open spec fn sp_fields(s: Seq<char>, i: int, tag: Seq<char>) -> Option<(PayloadView, int)> {
    if tag == ("init")@ {
        match sp_lit(s, i, (",\"node_id\":")@) {
            None => None,
            Some(j1) => match sp_str(s, j1) {
                None => None,
                Some((node_id, j2)) => match sp_lit(s, j2, (",\"node_ids\":")@) {
                    None => None,
                    Some(j3) => match sp_str_arr(s, j3) {
                        None => None,
                        Some((node_ids, j4)) => Some(
                            (PayloadView::Init { node_id, node_ids }, j4),
                        ),
                    },
                },
            },
        }
    } else if tag == ("add")@ {
        match sp_lit(s, i, (",\"delta\":")@) {
            None => None,
            Some(j1) => match sp_i32(s, j1) {
                None => None,
                Some((delta, j2)) => Some((PayloadView::Add { delta }, j2)),
            },
        }
    } else if tag == ("read")@ {
        Some((PayloadView::Read, i))
    } else if tag == ("init_ok")@ {
        Some((PayloadView::InitOk, i))
    } else if tag == ("add_ok")@ {
        Some((PayloadView::AddOk, i))
    } else if tag == ("read_ok")@ {
        match sp_lit(s, i, (",\"value\":")@) {
            None => None,
            Some(j1) => match sp_i32(s, j1) {
                None => None,
                Some((value, j2)) => Some((PayloadView::ReadOk { value }, j2)),
            },
        }
    } else if tag == ("error")@ {
        match sp_lit(s, i, (",\"code\":")@) {
            None => None,
            Some(j1) => match sp_i32(s, j1) {
                None => None,
                Some((code, j2)) => match sp_lit(s, j2, (",\"text\":")@) {
                    None => None,
                    Some(j3) => match sp_str(s, j3) {
                        None => None,
                        Some((text, j4)) => Some((PayloadView::Error { code, text }, j4)),
                    },
                },
            },
        }
    } else {
        None
    }
}

/// Parse a body object at position `i`.
pub open spec fn sp_body(s: Seq<char>, i: int) -> Option<(BodyView, int)> {
    match sp_lit(s, i, ("{\"type\":")@) {
        None => None,
        Some(j0) => match sp_str(s, j0) {
            None => None,
            Some((tag, j1)) => match sp_fields(s, j1, tag) {
                None => None,
                Some((rest, j2)) => match sp_opt(s, j2, (",\"msg_id\":")@) {
                    None => None,
                    Some((msg_id, j3)) => match sp_opt(s, j3, (",\"in_reply_to\":")@) {
                        None => None,
                        Some((in_reply_to, j4)) => match sp_lit(s, j4, ("}")@) {
                            None => None,
                            Some(j5) => Some((BodyView { msg_id, in_reply_to, rest }, j5)),
                        },
                    },
                },
            },
        },
    }
}

/// The envelope that a whole line parses to, if any. This is the definition
/// of the wire grammar: [`decode`] accepts exactly the lines this function
/// accepts.
pub open spec fn spec_decode(s: Seq<char>) -> Option<MessageView> {
    match sp_lit(s, 0, ("{\"src\":")@) {
        None => None,
        Some(j0) => match sp_str(s, j0) {
            None => None,
            Some((src, j1)) => match sp_lit(s, j1, (",\"dest\":")@) {
                None => None,
                Some(j2) => match sp_str(s, j2) {
                    None => None,
                    Some((dest, j3)) => match sp_lit(s, j3, (",\"body\":")@) {
                        None => None,
                        Some(j4) => match sp_body(s, j4) {
                            None => None,
                            Some((body, j5)) => match sp_lit(s, j5, ("}")@) {
                                None => None,
                                Some(j6) => if j6 == s.len() {
                                    Some(MessageView { src, dest, body })
                                } else {
                                    None
                                },
                            },
                        },
                    },
                },
            },
        },
    }
}

/// Whether a body object starts at `i` with a well-formed but unrecognized
/// `type` tag.
pub open spec fn sp_body_unknown(s: Seq<char>, i: int) -> bool {
    match sp_lit(s, i, ("{\"type\":")@) {
        None => false,
        Some(j0) => match sp_str(s, j0) {
            None => false,
            Some((tag, j1)) => !known_tag(tag),
        },
    }
}

/// Whether the line is a sound envelope whose `type` tag is not a recognized
/// message kind: the envelope prefix up to and including the tag parses, but
/// the tag is unknown.
pub open spec fn is_unknown_type(s: Seq<char>) -> bool {
    match sp_lit(s, 0, ("{\"src\":")@) {
        None => false,
        Some(j0) => match sp_str(s, j0) {
            None => false,
            Some((src, j1)) => match sp_lit(s, j1, (",\"dest\":")@) {
                None => false,
                Some(j2) => match sp_str(s, j2) {
                    None => false,
                    Some((dest, j3)) => match sp_lit(s, j3, (",\"body\":")@) {
                        None => false,
                        Some(j4) => sp_body_unknown(s, j4),
                    },
                },
            },
        },
    }
}

// ---------------------------------------------------------------------------
// The encoder.
// ---------------------------------------------------------------------------

/// Relies on `String::push`: appends the given character to the end of the
/// string.
#[verifier::external_body]
pub(crate) fn push_char(s: &mut String, c: char)
    ensures
        final(s)@ == old(s)@.push(c),
{
    s.push(c);
}

/// Splitting a string splits its escaped characters.
proof fn lemma_enc_str_inner_concat(a: Seq<char>, b: Seq<char>)
    ensures
        enc_str_inner(a + b) == enc_str_inner(a) + enc_str_inner(b),
    decreases a.len(),
{
    if a.len() == 0 {
        assert(a + b =~= b);
        assert(enc_str_inner(a) + enc_str_inner(b) =~= enc_str_inner(b));
    } else {
        lemma_enc_str_inner_concat(a.subrange(1, a.len() as int), b);
        assert((a + b).subrange(1, (a + b).len() as int) =~= a.subrange(1, a.len() as int) + b);
        assert((a + b)[0] == a[0]);
        assert(esc_char(a[0]) + (enc_str_inner(a.subrange(1, a.len() as int)) + enc_str_inner(b))
            =~= (esc_char(a[0]) + enc_str_inner(a.subrange(1, a.len() as int))) + enc_str_inner(
            b,
        ));
    }
}

/// Append the quoted, escaped form of `s` to `out`.
fn encode_str(out: &mut String, s: &str)
    ensures
        final(out)@ == old(out)@ + enc_str(s@),
{
    push_char(out, '"');
    let n = s.unicode_len();
    let mut k: usize = 0;
    while k < n
        invariant
            n == s@.len(),
            k <= n,
            out@ == old(out)@ + seq!['"'] + enc_str_inner(s@.subrange(0, k as int)),
        decreases n - k,
    {
        let c = s.get_char(k);
        if c == '"' {
            push_char(out, '\\');
            push_char(out, '"');
        } else if c == '\\' {
            push_char(out, '\\');
            push_char(out, '\\');
        } else if c == '\n' {
            push_char(out, '\\');
            push_char(out, 'n');
        } else if c == '\r' {
            push_char(out, '\\');
            push_char(out, 'r');
        } else if c == '\t' {
            push_char(out, '\\');
            push_char(out, 't');
        } else {
            push_char(out, c);
        }
        proof {
            let pre = s@.subrange(0, k as int);
            let one = seq![s@[k as int]];
            lemma_enc_str_inner_concat(pre, one);
            assert(pre + one =~= s@.subrange(0, k as int + 1));
            assert(one.subrange(1, 1) =~= Seq::<char>::empty());
            assert(enc_str_inner(Seq::<char>::empty()) == Seq::<char>::empty());
            assert(enc_str_inner(one) == esc_char(one[0]) + enc_str_inner(one.subrange(1, 1)));
            assert(enc_str_inner(one) =~= esc_char(s@[k as int]));
            assert(out@ =~= old(out)@ + seq!['"'] + enc_str_inner(s@.subrange(0, k as int + 1)));
        }
        k = k + 1;
    }
    push_char(out, '"');
    proof {
        assert(s@.subrange(0, n as int) =~= s@);
        assert(out@ =~= old(out)@ + enc_str(s@));
    }
}

/// The character of one decimal digit.
fn digit_char_exec(d: u32) -> (r: char)
    requires
        d < 10,
    ensures
        r == digit_char(d as int),
{
    if d == 0 {
        '0'
    } else if d == 1 {
        '1'
    } else if d == 2 {
        '2'
    } else if d == 3 {
        '3'
    } else if d == 4 {
        '4'
    } else if d == 5 {
        '5'
    } else if d == 6 {
        '6'
    } else if d == 7 {
        '7'
    } else if d == 8 {
        '8'
    } else {
        '9'
    }
}

/// Append the decimal digits of `m` to `out`.
fn encode_mag(out: &mut String, m: u32)
    ensures
        final(out)@ == old(out)@ + enc_nat(m as nat),
    decreases m,
{
    if m < 10 {
        push_char(out, digit_char_exec(m));
        proof {
            assert(out@ =~= old(out)@ + enc_nat(m as nat));
        }
    } else {
        encode_mag(out, m / 10);
        push_char(out, digit_char_exec(m % 10));
        proof {
            assert((m / 10) as nat == (m as nat) / 10);
            assert((m % 10) as nat == (m as nat) % 10);
            assert(out@ =~= old(out)@ + enc_nat(m as nat));
        }
    }
}

/// Append the decimal form of `n`, sign included, to `out`.
pub(crate) fn encode_i32(out: &mut String, n: i32)
    ensures
        final(out)@ == old(out)@ + enc_i32(n as int),
{
    if n >= 0 {
        encode_mag(out, n as u32);
    } else {
        push_char(out, '-');
        let mag: u32 = if n == i32::MIN {
            0x8000_0000
        } else {
            (-n) as u32
        };
        encode_mag(out, mag);
        proof {
            assert(mag as nat == (-(n as int)) as nat);
            assert(out@ =~= old(out)@ + enc_i32(n as int));
        }
    }
}

/// Append the bracketed, comma-separated form of `v` to `out`.
fn encode_str_arr(out: &mut String, v: &Vec<String>)
    ensures
        final(out)@ == old(out)@ + enc_str_arr(v.deep_view()),
{
    let ghost dv = v.deep_view();
    push_char(out, '[');
    if v.len() == 0 {
        push_char(out, ']');
        proof {
            assert(out@ =~= old(out)@ + enc_str_arr(dv));
        }
    } else {
        encode_str(out, v[0].as_str());
        let mut k: usize = 1;
        while k < v.len()
            invariant
                1 <= k <= v.len(),
                dv == v.deep_view(),
                dv.len() == v.len(),
                out@ + enc_str_rest(dv, k as int) == old(out)@ + seq!['['] + enc_str(dv[0])
                    + enc_str_rest(dv, 1),
            decreases v.len() - k,
        {
            push_char(out, ',');
            encode_str(out, v[k].as_str());
            proof {
                assert(dv[k as int] == v@[k as int]@);
                assert(out@ + enc_str_rest(dv, k as int + 1) =~= (out@ + enc_str_rest(
                    dv,
                    k as int + 1,
                )));
                assert(enc_str_rest(dv, k as int) == seq![','] + enc_str(dv[k as int])
                    + enc_str_rest(dv, k as int + 1));
                assert(out@ + enc_str_rest(dv, k as int + 1) =~= old(out)@ + seq!['['] + enc_str(
                    dv[0],
                ) + enc_str_rest(dv, 1));
            }
            k = k + 1;
        }
        push_char(out, ']');
        proof {
            assert(enc_str_rest(dv, k as int) =~= Seq::<char>::empty());
            assert(out@ =~= old(out)@ + enc_str_arr(dv));
        }
    }
}

/// Append the body object to `out`.
#[verifier::rlimit(50)]
fn encode_body(out: &mut String, b: &Body)
    ensures
        final(out)@ == old(out)@ + enc_body(b@),
{
    let ghost p1 = old(out)@ + ("{\"type\":")@ + enc_str(tag_of(b@.rest)) + enc_fields(b@.rest);
    out.append("{\"type\":");
    match &b.rest {
        Payload::Init { node_id, node_ids } => {
            encode_str(out, "init");
            out.append(",\"node_id\":");
            encode_str(out, node_id.as_str());
            out.append(",\"node_ids\":");
            encode_str_arr(out, node_ids);
            proof {
                assert(out@ =~= p1);
            }
        },
        Payload::Add { delta } => {
            encode_str(out, "add");
            out.append(",\"delta\":");
            encode_i32(out, *delta);
            proof {
                assert(out@ =~= p1);
            }
        },
        Payload::Read => {
            encode_str(out, "read");
            proof {
                assert(out@ =~= p1);
            }
        },
        Payload::InitOk => {
            encode_str(out, "init_ok");
            proof {
                assert(out@ =~= p1);
            }
        },
        Payload::AddOk => {
            encode_str(out, "add_ok");
            proof {
                assert(out@ =~= p1);
            }
        },
        Payload::ReadOk { value } => {
            encode_str(out, "read_ok");
            out.append(",\"value\":");
            encode_i32(out, *value);
            proof {
                assert(out@ =~= p1);
            }
        },
        Payload::Error { code, text } => {
            encode_str(out, "error");
            out.append(",\"code\":");
            encode_i32(out, *code);
            out.append(",\"text\":");
            encode_str(out, text.as_str());
            proof {
                assert(out@ =~= p1);
            }
        },
    }
    let ghost p2 = p1 + enc_opt((",\"msg_id\":")@, b@.msg_id);
    match b.msg_id {
        Some(n) => {
            out.append(",\"msg_id\":");
            encode_i32(out, n);
            proof {
                assert(out@ =~= p2);
            }
        },
        None => {
            proof {
                assert(out@ =~= p2);
            }
        },
    }
    let ghost p3 = p2 + enc_opt((",\"in_reply_to\":")@, b@.in_reply_to);
    match b.in_reply_to {
        Some(n) => {
            out.append(",\"in_reply_to\":");
            encode_i32(out, n);
            proof {
                assert(out@ =~= p3);
            }
        },
        None => {
            proof {
                assert(out@ =~= p3);
            }
        },
    }
    out.append("}");
    proof {
        assert(out@ =~= p3 + ("}")@);
        assert(p3 + ("}")@ =~= old(out)@ + enc_body(b@));
    }
}

/// Encode an envelope as exactly one line of structured text: every field
/// present in a fixed order, the optional correlation fields omitted when
/// absent, and no interior newline.
pub fn encode(m: &Message) -> (r: String)
    ensures
        r@ == spec_encode(m@),
        no_newline(r@),
{
    let mut out = String::new();
    out.append("{\"src\":");
    encode_str(&mut out, m.src.as_str());
    out.append(",\"dest\":");
    encode_str(&mut out, m.dest.as_str());
    out.append(",\"body\":");
    encode_body(&mut out, &m.body);
    out.append("}");
    proof {
        assert(out@ =~= spec_encode(m@));
        lemma_encode_one_line(m@);
    }
    out
}

// ---------------------------------------------------------------------------
// The decoder.
// ---------------------------------------------------------------------------

/// A parse result for string content with `p` prepended to the parsed value.
spec fn prepend_parse(p: Seq<char>, o: Option<(Seq<char>, int)>) -> Option<(Seq<char>, int)> {
    match o {
        Some(r) => Some((p + r.0, r.1)),
        None => None,
    }
}

/// A parse result for a string list with `p` prepended to the parsed items.
spec fn prepend_list(p: Seq<Seq<char>>, o: Option<(Seq<Seq<char>>, int)>) -> Option<
    (Seq<Seq<char>>, int),
> {
    match o {
        Some(r) => Some((p + r.0, r.1)),
        None => None,
    }
}

/// Whether `a` holds exactly the characters of `lit`.
fn str_content_is(a: &String, lit: &str) -> (r: bool)
    ensures
        r == (a@ == lit@),
{
    let an = a.as_str().unicode_len();
    let ln = lit.unicode_len();
    if an != ln {
        return false;
    }
    let mut k: usize = 0;
    while k < an
        invariant
            an == a@.len(),
            an == lit@.len(),
            k <= an,
            forall|q: int| 0 <= q < k ==> a@[q] == lit@[q],
        decreases an - k,
    {
        if a.as_str().get_char(k) != lit.get_char(k) {
            return false;
        }
        k = k + 1;
    }
    proof {
        assert(a@ =~= lit@);
    }
    true
}

/// Expect the characters of `lit` at position `i` of `v`.
fn parse_lit(v: &Vec<char>, i: usize, lit: &str) -> (r: Option<usize>)
    ensures
        match r {
            Some(j) => sp_lit(v@, i as int, lit@) == Some(j as int) && i <= j <= v.len(),
            None => sp_lit(v@, i as int, lit@) is None,
        },
{
    let n = lit.unicode_len();
    if i > v.len() || n > v.len() - i {
        return None;
    }
    let mut k: usize = 0;
    while k < n
        invariant
            n == lit@.len(),
            i + n <= v.len(),
            k <= n,
            v@.len() == v.len(),
            forall|q: int| 0 <= q < k ==> v@[i + q] == lit@[q],
        decreases n - k,
    {
        if v[i + k] != lit.get_char(k) {
            proof {
                if sp_lit(v@, i as int, lit@) is Some {
                    assert(v@.subrange(i as int, i as int + lit@.len())[k as int] == v@[i + k]);
                    assert(false);
                }
            }
            return None;
        }
        k = k + 1;
    }
    proof {
        assert(v@.subrange(i as int, i as int + lit@.len()) =~= lit@);
    }
    Some(i + n)
}

/// Parse a quoted string value at position `i` of `v`.
fn parse_str(v: &Vec<char>, i: usize) -> (r: Option<(String, usize)>)
    ensures
        match r {
            Some(p) => sp_str(v@, i as int) == Some((p.0@, p.1 as int)) && i < p.1 <= v.len(),
            None => sp_str(v@, i as int) is None,
        },
{
    if i >= v.len() || v[i] != '"' {
        return None;
    }
    let mut out = String::new();
    let mut j: usize = i + 1;
    loop
        invariant
            i + 1 <= j <= v.len(),
            v@.len() == v.len(),
            i < v.len() && v@[i as int] == '"',
            sp_str_inner(v@, i as int + 1) == prepend_parse(out@, sp_str_inner(v@, j as int)),
        decreases v.len() - j,
    {
        if j >= v.len() {
            return None;
        }
        let c = v[j];
        if c == '"' {
            proof {
                assert(sp_str_inner(v@, j as int) == Some((Seq::<char>::empty(), j as int + 1)));
                assert(out@ + Seq::<char>::empty() =~= out@);
            }
            return Some((out, j + 1));
        } else if c == '\\' {
            if j + 1 >= v.len() {
                return None;
            }
            let e = v[j + 1];
            let u: char = if e == '"' {
                '"'
            } else if e == '\\' {
                '\\'
            } else if e == 'n' {
                '\n'
            } else if e == 'r' {
                '\r'
            } else if e == 't' {
                '\t'
            } else {
                return None;
            };
            let ghost out0 = out@;
            push_char(&mut out, u);
            proof {
                let o = sp_str_inner(v@, j as int + 2);
                if o is Some {
                    assert(sp_str_inner(v@, j as int) == Some(
                        (seq![u] + o.unwrap().0, o.unwrap().1),
                    ));
                    assert(out0 + (seq![u] + o.unwrap().0) =~= out@ + o.unwrap().0);
                }
            }
            j = j + 2;
        } else {
            let ghost out0 = out@;
            push_char(&mut out, c);
            proof {
                let o = sp_str_inner(v@, j as int + 1);
                if o is Some {
                    assert(sp_str_inner(v@, j as int) == Some(
                        (seq![c] + o.unwrap().0, o.unwrap().1),
                    ));
                    assert(out0 + (seq![c] + o.unwrap().0) =~= out@ + o.unwrap().0);
                }
            }
            j = j + 1;
        }
    }
}

/// Powers of ten.
spec fn pow10(k: nat) -> int
    decreases k,
{
    if k == 0 {
        1
    } else {
        10 * pow10((k - 1) as nat)
    }
}

/// The value of a digit run is non-negative and below ten to its length.
proof fn lemma_digits_val_bound(d: Seq<char>)
    ensures
        0 <= digits_val(d) < pow10(d.len()),
    decreases d.len(),
{
    if d.len() == 0 {
    } else {
        lemma_digits_val_bound(d.drop_last());
    }
}

/// Whether `c` is a decimal digit, decided in executable code.
fn is_digit_exec(c: char) -> (r: bool)
    ensures
        r == is_digit(c),
{
    c == '0' || c == '1' || c == '2' || c == '3' || c == '4' || c == '5' || c == '6' || c == '7'
        || c == '8' || c == '9'
}

/// The value of a decimal digit character, decided in executable code.
fn digit_val_exec(c: char) -> (r: u64)
    requires
        is_digit(c),
    ensures
        r == digit_val(c),
{
    if c == '0' {
        0
    } else if c == '1' {
        1
    } else if c == '2' {
        2
    } else if c == '3' {
        3
    } else if c == '4' {
        4
    } else if c == '5' {
        5
    } else if c == '6' {
        6
    } else if c == '7' {
        7
    } else if c == '8' {
        8
    } else {
        9
    }
}

/// A digit run ends no earlier than it starts.
proof fn lemma_dre_ge(s: Seq<char>, i: int)
    ensures
        digit_run_end(s, i) >= i,
    decreases s.len() - i,
{
    if 0 <= i && i < s.len() && is_digit(s[i]) {
        lemma_dre_ge(s, i + 1);
    }
}

/// Parse a signed decimal integer at position `i` of `v`.
fn parse_i32(v: &Vec<char>, i: usize) -> (r: Option<(i32, usize)>)
    ensures
        match r {
            Some(p) => sp_i32(v@, i as int) == Some((p.0, p.1 as int)) && i < p.1 <= v.len(),
            None => sp_i32(v@, i as int) is None,
        },
{
    let neg = i < v.len() && v[i] == '-';
    let j0: usize = if neg {
        i + 1
    } else {
        i
    };
    if j0 > v.len() {
        return None;
    }
    let mut j: usize = j0;
    let mut acc: u64 = 0;
    while j < v.len() && j - j0 <= 10 && is_digit_exec(v[j])
        invariant
            j0 <= j <= v.len(),
            v@.len() == v.len(),
            j - j0 <= 11,
            digit_run_end(v@, j0 as int) == digit_run_end(v@, j as int),
            acc == digits_val(v@.subrange(j0 as int, j as int)),
            acc < 0x1_0000_0000_0000u64,
        decreases v.len() - j,
    {
        let d = digit_val_exec(v[j]);
        proof {
            let pre = v@.subrange(j0 as int, j as int);
            let cur = v@.subrange(j0 as int, j as int + 1);
            lemma_digits_val_bound(pre);
            lemma_pow10_le(pre.len(), 10);
            reveal_with_fuel(pow10, 11);
            assert(cur.drop_last() =~= pre);
            assert(digits_val(cur) == digits_val(pre) * 10 + d);
        }
        acc = acc * 10 + d;
        j = j + 1;
    }
    if j - j0 == 11 {
        proof {
            lemma_dre_ge(v@, j as int);
            assert(digit_run_end(v@, j0 as int) >= j as int);
        }
        return None;
    }
    proof {
        assert(digit_run_end(v@, j as int) == j as int);
        assert(digit_run_end(v@, j0 as int) == j as int);
    }
    let e = j;
    if e == j0 {
        return None;
    }
    if neg {
        if acc > 0x8000_0000u64 {
            return None;
        }
        let r: i32 = if acc == 0x8000_0000u64 {
            i32::MIN
        } else {
            -(acc as i32)
        };
        proof {
            assert(r as int == -(acc as int));
        }
        Some((r, e))
    } else {
        if acc > 0x7fff_ffffu64 {
            return None;
        }
        Some((acc as i32, e))
    }
}

/// Powers of ten are monotone in the exponent.
proof fn lemma_pow10_le(a: nat, b: nat)
    requires
        a <= b,
    ensures
        pow10(a) <= pow10(b),
    decreases b,
{
    if a < b {
        lemma_pow10_le(a, (b - 1) as nat);
        lemma_pow10_pos((b - 1) as nat);
    }
}

/// Powers of ten are positive.
proof fn lemma_pow10_pos(k: nat)
    ensures
        pow10(k) >= 1,
    decreases k,
{
    if k > 0 {
        lemma_pow10_pos((k - 1) as nat);
    }
}

/// Parse an optional correlation field at position `i` of `v`.
fn parse_opt(v: &Vec<char>, i: usize, key: &str) -> (r: Option<(Option<i32>, usize)>)
    requires
        i <= v.len(),
    ensures
        match r {
            Some(p) => sp_opt(v@, i as int, key@) == Some((p.0, p.1 as int)) && i <= p.1 <= v.len(),
            None => sp_opt(v@, i as int, key@) is None,
        },
{
    match parse_lit(v, i, key) {
        Some(j) => match parse_i32(v, j) {
            Some(p) => Some((Some(p.0), p.1)),
            None => None,
        },
        None => Some((None, i)),
    }
}

/// Parse an array of string values at position `i` of `v`.
fn parse_str_arr(v: &Vec<char>, i: usize) -> (r: Option<(Vec<String>, usize)>)
    ensures
        match r {
            Some(p) => sp_str_arr(v@, i as int) == Some((p.0.deep_view(), p.1 as int)) && i < p.1
                <= v.len(),
            None => sp_str_arr(v@, i as int) is None,
        },
{
    if i >= v.len() || v[i] != '[' {
        return None;
    }
    if i + 1 < v.len() && v[i + 1] == ']' {
        let out: Vec<String> = Vec::new();
        proof {
            assert(out.deep_view() =~= Seq::<Seq<char>>::empty());
        }
        return Some((out, i + 2));
    }
    let mut out: Vec<String> = Vec::new();
    let mut j: usize = i + 1;
    loop
        invariant
            i < j <= v.len(),
            v@.len() == v.len(),
            i < v.len() && v@[i as int] == '[',
            !(i + 1 < v.len() && v@[i as int + 1] == ']'),
            sp_str_arr(v@, i as int) == prepend_list(out.deep_view(), sp_str_list(v@, j as int)),
        decreases v.len() - j,
    {
        match parse_str(v, j) {
            None => {
                return None;
            },
            Some((x, k)) => {
                let ghost out0 = out.deep_view();
                let ghost xv = x@;
                out.push(x);
                proof {
                    assert(out.deep_view() =~= out0.push(xv));
                }
                if k < v.len() && v[k] == ',' {
                    proof {
                        let o = sp_str_list(v@, k as int + 1);
                        if o is Some {
                            assert(sp_str_list(v@, j as int) == Some(
                                (seq![xv] + o.unwrap().0, o.unwrap().1),
                            ));
                            assert(out0 + (seq![xv] + o.unwrap().0) =~= out0.push(xv)
                                + o.unwrap().0);
                        } else {
                            assert(sp_str_list(v@, j as int) is None);
                        }
                    }
                    j = k + 1;
                } else if k < v.len() && v[k] == ']' {
                    proof {
                        assert(sp_str_list(v@, j as int) == Some((seq![xv], k as int + 1)));
                        assert(out0 + seq![xv] =~= out0.push(xv));
                    }
                    return Some((out, k + 1));
                } else {
                    proof {
                        assert(sp_str_list(v@, j as int) is None);
                    }
                    return None;
                }
            },
        }
    }
}

/// Parse a body object at position `i` of `v`, telling an unrecognized tag
/// apart from a line that does not match the grammar.
fn parse_body(v: &Vec<char>, i: usize) -> (r: Result<(Body, usize), DecodeError>)
    requires
        i <= v.len(),
    ensures
        match r {
            Ok(p) => sp_body(v@, i as int) == Some((p.0@, p.1 as int)) && i < p.1 <= v.len(),
            Err(e) => sp_body(v@, i as int) is None && (e is UnknownType <==> sp_body_unknown(
                v@,
                i as int,
            )),
        },
{
    let j0 = match parse_lit(v, i, "{\"type\":") {
        Some(j) => j,
        None => {
            return Err(DecodeError::Malformed);
        },
    };
    let (tag, j1) = match parse_str(v, j0) {
        Some(p) => p,
        None => {
            return Err(DecodeError::Malformed);
        },
    };
    let (rest, j2): (Payload, usize) = if str_content_is(&tag, "init") {
        let ja = match parse_lit(v, j1, ",\"node_id\":") {
            Some(j) => j,
            None => {
                return Err(DecodeError::Malformed);
            },
        };
        let (node_id, jb) = match parse_str(v, ja) {
            Some(p) => p,
            None => {
                return Err(DecodeError::Malformed);
            },
        };
        let jc = match parse_lit(v, jb, ",\"node_ids\":") {
            Some(j) => j,
            None => {
                return Err(DecodeError::Malformed);
            },
        };
        let (node_ids, jd) = match parse_str_arr(v, jc) {
            Some(p) => p,
            None => {
                return Err(DecodeError::Malformed);
            },
        };
        (Payload::Init { node_id, node_ids }, jd)
    } else if str_content_is(&tag, "add") {
        let ja = match parse_lit(v, j1, ",\"delta\":") {
            Some(j) => j,
            None => {
                return Err(DecodeError::Malformed);
            },
        };
        let (delta, jb) = match parse_i32(v, ja) {
            Some(p) => p,
            None => {
                return Err(DecodeError::Malformed);
            },
        };
        (Payload::Add { delta }, jb)
    } else if str_content_is(&tag, "read") {
        (Payload::Read, j1)
    } else if str_content_is(&tag, "init_ok") {
        (Payload::InitOk, j1)
    } else if str_content_is(&tag, "add_ok") {
        (Payload::AddOk, j1)
    } else if str_content_is(&tag, "read_ok") {
        let ja = match parse_lit(v, j1, ",\"value\":") {
            Some(j) => j,
            None => {
                return Err(DecodeError::Malformed);
            },
        };
        let (value, jb) = match parse_i32(v, ja) {
            Some(p) => p,
            None => {
                return Err(DecodeError::Malformed);
            },
        };
        (Payload::ReadOk { value }, jb)
    } else if str_content_is(&tag, "error") {
        let ja = match parse_lit(v, j1, ",\"code\":") {
            Some(j) => j,
            None => {
                return Err(DecodeError::Malformed);
            },
        };
        let (code, jb) = match parse_i32(v, ja) {
            Some(p) => p,
            None => {
                return Err(DecodeError::Malformed);
            },
        };
        let jc = match parse_lit(v, jb, ",\"text\":") {
            Some(j) => j,
            None => {
                return Err(DecodeError::Malformed);
            },
        };
        let (text, jd) = match parse_str(v, jc) {
            Some(p) => p,
            None => {
                return Err(DecodeError::Malformed);
            },
        };
        (Payload::Error { code, text }, jd)
    } else {
        proof {
            assert(!known_tag(tag@));
            assert(sp_fields(v@, j1 as int, tag@) is None);
        }
        return Err(DecodeError::UnknownType);
    };
    let (msg_id, j3) = match parse_opt(v, j2, ",\"msg_id\":") {
        Some(p) => p,
        None => {
            return Err(DecodeError::Malformed);
        },
    };
    let (in_reply_to, j4) = match parse_opt(v, j3, ",\"in_reply_to\":") {
        Some(p) => p,
        None => {
            return Err(DecodeError::Malformed);
        },
    };
    let j5 = match parse_lit(v, j4, "}") {
        Some(j) => j,
        None => {
            return Err(DecodeError::Malformed);
        },
    };
    Ok((Body { msg_id, in_reply_to, rest }, j5))
}

/// Decode one line. The line is accepted exactly when it is a well-formed
/// envelope of the wire grammar; a sound envelope with an unrecognized
/// `type` tag is told apart from a malformed line so that the session can
/// stay silent on the former and log the latter.
pub fn decode(line: &str) -> (r: Result<Message, DecodeError>)
    ensures
        match r {
            Ok(m) => spec_decode(line@) == Some(m@),
            Err(e) => spec_decode(line@) is None && (e is UnknownType <==> is_unknown_type(
                line@,
            )),
        },
{
    let n = line.unicode_len();
    let mut v: Vec<char> = Vec::new();
    let mut k: usize = 0;
    while k < n
        invariant
            n == line@.len(),
            k <= n,
            v@ == line@.subrange(0, k as int),
        decreases n - k,
    {
        v.push(line.get_char(k));
        proof {
            assert(v@ =~= line@.subrange(0, k as int + 1));
        }
        k = k + 1;
    }
    proof {
        assert(v@ =~= line@);
    }
    let j0 = match parse_lit(&v, 0, "{\"src\":") {
        Some(j) => j,
        None => {
            return Err(DecodeError::Malformed);
        },
    };
    let (src, j1) = match parse_str(&v, j0) {
        Some(p) => p,
        None => {
            return Err(DecodeError::Malformed);
        },
    };
    let j2 = match parse_lit(&v, j1, ",\"dest\":") {
        Some(j) => j,
        None => {
            return Err(DecodeError::Malformed);
        },
    };
    let (dest, j3) = match parse_str(&v, j2) {
        Some(p) => p,
        None => {
            return Err(DecodeError::Malformed);
        },
    };
    let j4 = match parse_lit(&v, j3, ",\"body\":") {
        Some(j) => j,
        None => {
            return Err(DecodeError::Malformed);
        },
    };
    let (body, j5) = match parse_body(&v, j4) {
        Ok(p) => p,
        Err(e) => {
            return Err(e);
        },
    };
    let j6 = match parse_lit(&v, j5, "}") {
        Some(j) => j,
        None => {
            return Err(DecodeError::Malformed);
        },
    };
    if j6 != v.len() {
        return Err(DecodeError::Malformed);
    }
    Ok(Message { src, dest, body })
}

// ---------------------------------------------------------------------------
// The decoder inverts the encoder.
// ---------------------------------------------------------------------------

/// A literal is parsed off the front of whatever follows it.
proof fn lemma_parse_lit_enc(p: Seq<char>, lit: Seq<char>, t: Seq<char>)
    ensures
        sp_lit(p + lit + t, p.len() as int, lit) == Some(p.len() as int + lit.len()),
{
    let s = p + lit + t;
    assert(s.subrange(p.len() as int, p.len() as int + lit.len()) =~= lit);
}

/// A literal fails to parse where some character of it differs.
proof fn lemma_lit_mismatch(s: Seq<char>, i: int, lit: Seq<char>, k: int)
    requires
        0 <= i,
        0 <= k < lit.len(),
        i + lit.len() <= s.len() ==> s[i + k] != lit[k],
    ensures
        sp_lit(s, i, lit) is None,
{
    if i + lit.len() <= s.len() && s.subrange(i, i + lit.len()) == lit {
        assert(s.subrange(i, i + lit.len())[k] == s[i + k]);
    }
}

/// The escaped characters of a string, followed by a closing quote, parse
/// back to the string.
proof fn lemma_parse_str_inner_enc(p: Seq<char>, x: Seq<char>, t: Seq<char>)
    ensures
        sp_str_inner(p + enc_str_inner(x) + seq!['"'] + t, p.len() as int) == Some(
            (x, p.len() as int + enc_str_inner(x).len() + 1),
        ),
    decreases x.len(),
{
    let s = p + enc_str_inner(x) + seq!['"'] + t;
    if x.len() == 0 {
        assert(enc_str_inner(x) =~= Seq::<char>::empty());
        assert(s[p.len() as int] == '"');
        assert(x =~= Seq::<char>::empty());
    } else {
        let c = x[0];
        let x2 = x.subrange(1, x.len() as int);
        assert(enc_str_inner(x) == esc_char(c) + enc_str_inner(x2));
        if c == '"' || c == '\\' || c == '\n' || c == '\r' || c == '\t' {
            let e: char = if c == '"' {
                '"'
            } else if c == '\\' {
                '\\'
            } else if c == '\n' {
                'n'
            } else if c == '\r' {
                'r'
            } else {
                't'
            };
            assert(esc_char(c) =~= seq!['\\', e]);
            let p2 = p + seq!['\\', e];
            lemma_parse_str_inner_enc(p2, x2, t);
            assert(p2 + enc_str_inner(x2) + seq!['"'] + t =~= s);
            assert(s[p.len() as int] == '\\');
            assert(s[p.len() as int + 1] == e);
            assert(unesc_char(e) == Some(c));
            assert(sp_str_inner(s, p2.len() as int) == Some(
                (x2, p2.len() as int + enc_str_inner(x2).len() + 1),
            ));
            assert(seq![c] + x2 =~= x);
        } else {
            assert(esc_char(c) =~= seq![c]);
            let p2 = p + seq![c];
            lemma_parse_str_inner_enc(p2, x2, t);
            assert(p2 + enc_str_inner(x2) + seq!['"'] + t =~= s);
            assert(s[p.len() as int] == c);
            assert(sp_str_inner(s, p2.len() as int) == Some(
                (x2, p2.len() as int + enc_str_inner(x2).len() + 1),
            ));
            assert(seq![c] + x2 =~= x);
        }
    }
}

/// A quoted string value is parsed off the front of whatever follows it.
proof fn lemma_parse_str_enc(p: Seq<char>, x: Seq<char>, t: Seq<char>)
    ensures
        sp_str(p + enc_str(x) + t, p.len() as int) == Some((x, p.len() as int + enc_str(x).len())),
{
    let s = p + enc_str(x) + t;
    let p2 = p + seq!['"'];
    lemma_parse_str_inner_enc(p2, x, t);
    assert(p2 + enc_str_inner(x) + seq!['"'] + t =~= s);
    assert(s[p.len() as int] == '"');
}

/// The digits of a number are digits and carry its value.
proof fn lemma_enc_nat_digits(n: nat)
    ensures
        enc_nat(n).len() >= 1,
        forall|k: int| 0 <= k < enc_nat(n).len() ==> is_digit(#[trigger] enc_nat(n)[k]),
        digits_val(enc_nat(n)) == n,
    decreases n,
{
    assert(digit_val(digit_char((n % 10) as int)) == n % 10);
    assert(digits_val(Seq::<char>::empty()) == 0);
    if n < 10 {
        assert(digit_val(digit_char(n as int)) == n);
        let d = enc_nat(n);
        assert(d.drop_last() =~= Seq::<char>::empty());
        assert(d.last() == digit_char(n as int));
        assert(digits_val(d) == digits_val(d.drop_last()) * 10 + digit_val(d.last()));
    } else {
        lemma_enc_nat_digits(n / 10);
        let d = enc_nat(n);
        assert(d.drop_last() =~= enc_nat(n / 10));
        assert(d.last() == digit_char((n % 10) as int));
        assert(digits_val(d) == digits_val(d.drop_last()) * 10 + digit_val(d.last()));
        assert(digits_val(d.drop_last()) == n / 10);
        assert(forall|k: int|
            0 <= k < d.len() ==> #[trigger] d[k] == (if k < d.len() - 1 {
                enc_nat(n / 10)[k]
            } else {
                digit_char((n % 10) as int)
            }));
    }
}

/// A number below ten to the `k` has at most `k` digits.
proof fn lemma_enc_nat_len(n: nat, k: nat)
    requires
        n < pow10(k),
        k >= 1,
    ensures
        enc_nat(n).len() <= k,
    decreases k,
{
    if n < 10 {
    } else {
        assert(pow10(k) == 10 * pow10((k - 1) as nat));
        lemma_enc_nat_len(n / 10, (k - 1) as nat);
    }
}

/// A run of digits bounded by a non-digit ends exactly at the bound.
proof fn lemma_dre_run(s: Seq<char>, i: int, e: int)
    requires
        0 <= i <= e <= s.len(),
        forall|k: int| i <= k < e ==> is_digit(#[trigger] s[k]),
        e == s.len() || !is_digit(s[e]),
    ensures
        digit_run_end(s, i) == e,
    decreases e - i,
{
    if i < e {
        lemma_dre_run(s, i + 1, e);
    }
}

/// An encoded integer is parsed off the front of a tail that does not start
/// with a digit.
#[verifier::rlimit(30)]
proof fn lemma_parse_i32_enc(p: Seq<char>, n: int, t: Seq<char>)
    requires
        -0x8000_0000 <= n <= 0x7fff_ffff,
        t.len() >= 1,
        !is_digit(t[0]),
    ensures
        sp_i32(p + enc_i32(n) + t, p.len() as int) == Some((n as i32, p.len() as int + enc_i32(n).len())),
{
    let s = p + enc_i32(n) + t;
    let i = p.len() as int;
    reveal_with_fuel(pow10, 12);
    if n >= 0 {
        let d = enc_nat(n as nat);
        lemma_enc_nat_digits(n as nat);
        lemma_enc_nat_len(n as nat, 10);
        assert(enc_i32(n) == d);
        assert(forall|k: int| 0 <= k < d.len() ==> s[i + k] == #[trigger] d[k]);
        assert(forall|k: int| i <= k < i + d.len() ==> is_digit(#[trigger] s[k]));
        assert(s[i + d.len()] == t[0]);
        lemma_dre_run(s, i, i + d.len());
        assert(s[i] == d[0]);
        assert(is_digit(s[i]));
        assert(s[i] != '-');
        assert(s.subrange(i, i + d.len()) =~= d);
    } else {
        let m = (-n) as nat;
        let d = enc_nat(m);
        lemma_enc_nat_digits(m);
        lemma_enc_nat_len(m, 10);
        assert(enc_i32(n) == seq!['-'] + d);
        assert(s[i] == '-');
        assert(!is_digit('-'));
        let j = i + 1;
        assert(forall|k: int| 0 <= k < d.len() ==> s[j + k] == #[trigger] d[k]);
        assert(forall|k: int| j <= k < j + d.len() ==> is_digit(#[trigger] s[k]));
        assert(s[j + d.len()] == t[0]);
        lemma_dre_run(s, j, j + d.len());
        assert(s.subrange(j, j + d.len()) =~= d);
    }
}

/// Dropping the head item shifts the encoding of the remaining items.
proof fn lemma_enc_rest_shift(v: Seq<Seq<char>>, k: int)
    requires
        1 <= k,
        v.len() >= 1,
    ensures
        enc_str_rest(v, k) == enc_str_rest(v.subrange(1, v.len() as int), k - 1),
    decreases v.len() - k,
{
    let v2 = v.subrange(1, v.len() as int);
    if k >= v.len() {
    } else {
        lemma_enc_rest_shift(v, k + 1);
        assert(v2[k - 1] == v[k]);
    }
}

/// The items of a non-empty encoded array, with the closing bracket, parse
/// back to the items.
proof fn lemma_parse_list_enc(p: Seq<char>, v: Seq<Seq<char>>, t: Seq<char>)
    requires
        v.len() >= 1,
    ensures
        sp_str_list(p + (enc_str(v[0]) + enc_str_rest(v, 1)) + seq![']'] + t, p.len() as int)
            == Some((v, p.len() as int + (enc_str(v[0]) + enc_str_rest(v, 1)).len() + 1)),
    decreases v.len(),
{
    let body = enc_str(v[0]) + enc_str_rest(v, 1);
    let s = p + body + seq![']'] + t;
    let i = p.len() as int;
    let j = p.len() + enc_str(v[0]).len();
    if v.len() == 1 {
        assert(enc_str_rest(v, 1) =~= Seq::<char>::empty());
        lemma_parse_str_enc(p, v[0], seq![']'] + t);
        assert(p + enc_str(v[0]) + (seq![']'] + t) =~= s);
        assert(s[j as int] == ']');
        assert(seq![v[0]] =~= v);
    } else {
        let v2 = v.subrange(1, v.len() as int);
        assert(enc_str_rest(v, 1) == seq![','] + enc_str(v[1]) + enc_str_rest(v, 2));
        lemma_parse_str_enc(p, v[0], (seq![','] + enc_str(v[1]) + enc_str_rest(v, 2)) + seq![']'] + t);
        assert(p + enc_str(v[0]) + ((seq![','] + enc_str(v[1]) + enc_str_rest(v, 2)) + seq![']']
            + t) =~= s);
        assert(s[j as int] == ',');
        let p2 = p + enc_str(v[0]) + seq![','];
        lemma_enc_rest_shift(v, 2);
        assert(v2[0] == v[1]);
        lemma_parse_list_enc(p2, v2, t);
        assert(p2 + (enc_str(v2[0]) + enc_str_rest(v2, 1)) + seq![']'] + t =~= s);
        assert(seq![v[0]] + v2 =~= v);
    }
}

/// An encoded string array is parsed off the front of whatever follows it.
proof fn lemma_parse_arr_enc(p: Seq<char>, v: Seq<Seq<char>>, t: Seq<char>)
    ensures
        sp_str_arr(p + enc_str_arr(v) + t, p.len() as int) == Some(
            (v, p.len() as int + enc_str_arr(v).len()),
        ),
{
    let s = p + enc_str_arr(v) + t;
    let i = p.len() as int;
    if v.len() == 0 {
        assert(s[i] == '[');
        assert(s[i + 1] == ']');
        assert(v =~= Seq::<Seq<char>>::empty());
    } else {
        assert(s[i] == '[');
        assert(enc_str_arr(v)[1] == enc_str(v[0])[0]);
        assert(s[i + 1] == '"');
        let p2 = p + seq!['['];
        lemma_parse_list_enc(p2, v, t);
        assert(p2 + (enc_str(v[0]) + enc_str_rest(v, 1)) + seq![']'] + t =~= s);
    }
}

/// The recognized tags are pairwise distinct.
proof fn lemma_tags_distinct()
    ensures
        ("add")@ != ("init")@,
        ("read")@ != ("init")@,
        ("read")@ != ("add")@,
        ("init_ok")@ != ("init")@,
        ("init_ok")@ != ("add")@,
        ("init_ok")@ != ("read")@,
        ("add_ok")@ != ("init")@,
        ("add_ok")@ != ("add")@,
        ("add_ok")@ != ("read")@,
        ("add_ok")@ != ("init_ok")@,
        ("read_ok")@ != ("init")@,
        ("read_ok")@ != ("add")@,
        ("read_ok")@ != ("read")@,
        ("read_ok")@ != ("init_ok")@,
        ("read_ok")@ != ("add_ok")@,
        ("error")@ != ("init")@,
        ("error")@ != ("add")@,
        ("error")@ != ("read")@,
        ("error")@ != ("init_ok")@,
        ("error")@ != ("add_ok")@,
        ("error")@ != ("read_ok")@,
{
    reveal_strlit("init");
    reveal_strlit("add");
    reveal_strlit("read");
    reveal_strlit("init_ok");
    reveal_strlit("add_ok");
    reveal_strlit("read_ok");
    reveal_strlit("error");
    assert(("init")@.len() == 4);
    assert(("add")@.len() == 3);
    assert(("read")@.len() == 4);
    assert(("init_ok")@.len() == 7);
    assert(("add_ok")@.len() == 6);
    assert(("read_ok")@.len() == 7);
    assert(("error")@.len() == 5);
    assert(("init")@[0] == 'i');
    assert(("read")@[0] == 'r');
    assert(("init_ok")@[0] == 'i');
    assert(("read_ok")@[0] == 'r');
}


/// The fields of an `init` payload are parsed off the front of `t`.
#[verifier::rlimit(100)]
proof fn lemma_fields_init(p: Seq<char>, node_id: Seq<char>, node_ids: Seq<Seq<char>>, t: Seq<char>)
    ensures
        ({
            let rest = PayloadView::Init { node_id, node_ids };
            sp_fields(p + enc_fields(rest) + t, p.len() as int, ("init")@) == Some(
                (rest, p.len() as int + enc_fields(rest).len()),
            )
        }),
{
    let rest = PayloadView::Init { node_id, node_ids };
    let s = p + enc_fields(rest) + t;
    let l1 = (",\"node_id\":")@;
    let l2 = (",\"node_ids\":")@;
    lemma_parse_lit_enc(p, l1, enc_str(node_id) + l2 + enc_str_arr(node_ids) + t);
    assert(p + l1 + (enc_str(node_id) + l2 + enc_str_arr(node_ids) + t) =~= s);
    let p1 = p + l1;
    lemma_parse_str_enc(p1, node_id, l2 + enc_str_arr(node_ids) + t);
    assert(p1 + enc_str(node_id) + (l2 + enc_str_arr(node_ids) + t) =~= s);
    let p2 = p1 + enc_str(node_id);
    lemma_parse_lit_enc(p2, l2, enc_str_arr(node_ids) + t);
    assert(p2 + l2 + (enc_str_arr(node_ids) + t) =~= s);
    let p3 = p2 + l2;
    lemma_parse_arr_enc(p3, node_ids, t);
    assert(p3 + enc_str_arr(node_ids) + t =~= s);
}

/// A single keyed integer field is parsed off the front of a tail that does
/// not continue with a digit.
#[verifier::rlimit(100)]
proof fn lemma_field_keyed_num(p: Seq<char>, key: Seq<char>, n: i32, t: Seq<char>)
    requires
        t.len() >= 1,
        !is_digit(t[0]),
    ensures
        sp_lit(p + (key + enc_i32(n as int)) + t, p.len() as int, key) == Some(
            p.len() as int + key.len(),
        ),
        sp_i32(p + (key + enc_i32(n as int)) + t, p.len() as int + key.len()) == Some(
            (n, p.len() as int + (key + enc_i32(n as int)).len()),
        ),
{
    let s = p + (key + enc_i32(n as int)) + t;
    lemma_parse_lit_enc(p, key, enc_i32(n as int) + t);
    assert(p + key + (enc_i32(n as int) + t) =~= s);
    let p1 = p + key;
    lemma_parse_i32_enc(p1, n as int, t);
    assert(p1 + enc_i32(n as int) + t =~= s);
}

/// The fields of an `error` payload are parsed off the front of `t`.
#[verifier::rlimit(100)]
proof fn lemma_fields_error(p: Seq<char>, code: i32, text: Seq<char>, t: Seq<char>)
    ensures
        ({
            let rest = PayloadView::Error { code, text };
            sp_fields(p + enc_fields(rest) + t, p.len() as int, ("error")@) == Some(
                (rest, p.len() as int + enc_fields(rest).len()),
            )
        }),
{
    let rest = PayloadView::Error { code, text };
    let s = p + enc_fields(rest) + t;
    let l1 = (",\"code\":")@;
    let l2 = (",\"text\":")@;
    reveal_strlit(",\"text\":");
    assert(l2[0] == ',');
    assert(!is_digit(','));
    lemma_tags_distinct();
    let t1 = l2 + enc_str(text) + t;
    assert(t1[0] == ',');
    lemma_field_keyed_num(p, l1, code, t1);
    assert(p + (l1 + enc_i32(code as int)) + t1 =~= s);
    let p2 = p + l1 + enc_i32(code as int);
    assert(p2 =~= p + (l1 + enc_i32(code as int)));
    lemma_parse_lit_enc(p2, l2, enc_str(text) + t);
    assert(p2 + l2 + (enc_str(text) + t) =~= s);
    let p3 = p2 + l2;
    lemma_parse_str_enc(p3, text, t);
    assert(p3 + enc_str(text) + t =~= s);
}

/// The per-kind fields of a payload are parsed off the front of a tail that
/// starts with a comma or a closing brace.
#[verifier::rlimit(100)]
proof fn lemma_parse_fields_enc(p: Seq<char>, rest: PayloadView, t: Seq<char>)
    requires
        t.len() >= 1,
        t[0] == ',' || t[0] == '}',
    ensures
        sp_fields(p + enc_fields(rest) + t, p.len() as int, tag_of(rest)) == Some(
            (rest, p.len() as int + enc_fields(rest).len()),
        ),
{
    let s = p + enc_fields(rest) + t;
    lemma_tags_distinct();
    assert(!is_digit(','));
    assert(!is_digit('}'));
    match rest {
        PayloadView::Init { node_id, node_ids } => {
            lemma_fields_init(p, node_id, node_ids, t);
        },
        PayloadView::Add { delta } => {
            lemma_field_keyed_num(p, (",\"delta\":")@, delta, t);
            assert(p + ((",\"delta\":")@ + enc_i32(delta as int)) + t =~= s);
        },
        PayloadView::Read => {
            assert(enc_fields(rest) =~= Seq::<char>::empty());
        },
        PayloadView::InitOk => {
            assert(enc_fields(rest) =~= Seq::<char>::empty());
        },
        PayloadView::AddOk => {
            assert(enc_fields(rest) =~= Seq::<char>::empty());
        },
        PayloadView::ReadOk { value } => {
            lemma_field_keyed_num(p, (",\"value\":")@, value, t);
            assert(p + ((",\"value\":")@ + enc_i32(value as int)) + t =~= s);
        },
        PayloadView::Error { code, text } => {
            lemma_fields_error(p, code, text, t);
        },
    }
}

/// The head of an encoded body: opening literal, tag and per-kind fields.
#[verifier::rlimit(100)]
proof fn lemma_body_front(s: Seq<char>, p: Seq<char>, b: BodyView, t: Seq<char>)
    requires
        s == p + enc_body(b) + t,
    ensures
        ({
            let lt = ("{\"type\":")@;
            let tag = tag_of(b.rest);
            let i1 = p.len() as int + lt.len();
            let i2 = i1 + enc_str(tag).len();
            let i3 = i2 + enc_fields(b.rest).len();
            sp_lit(s, p.len() as int, lt) == Some(i1) && sp_str(s, i1) == Some((tag, i2))
                && sp_fields(s, i2, tag) == Some((b.rest, i3))
        }),
{
    let lt = ("{\"type\":")@;
    let km = (",\"msg_id\":")@;
    let kr = (",\"in_reply_to\":")@;
    let lc = ("}")@;
    let tag = tag_of(b.rest);
    let fs = enc_fields(b.rest);
    let om = enc_opt(km, b.msg_id);
    let orp = enc_opt(kr, b.in_reply_to);
    lemma_parse_lit_enc(p, lt, enc_str(tag) + fs + om + orp + lc + t);
    assert(p + lt + (enc_str(tag) + fs + om + orp + lc + t) =~= s);
    let p1 = p + lt;
    lemma_parse_str_enc(p1, tag, fs + om + orp + lc + t);
    assert(p1 + enc_str(tag) + (fs + om + orp + lc + t) =~= s);
    let p2 = p1 + enc_str(tag);
    let t2 = om + orp + lc + t;
    lemma_opts_head(b);
    assert(t2[0] == (om + orp + lc)[0]);
    lemma_parse_fields_enc(p2, b.rest, t2);
    assert(p2 + fs + t2 =~= s);
}

/// The characters after a body's per-kind fields start with a comma or the
/// closing brace.
proof fn lemma_opts_head(b: BodyView)
    ensures
        ({
            let h = enc_opt((",\"msg_id\":")@, b.msg_id) + enc_opt(
                (",\"in_reply_to\":")@,
                b.in_reply_to,
            ) + ("}")@;
            h.len() >= 1 && (h[0] == ',' || h[0] == '}')
        }),
{
    let om = enc_opt((",\"msg_id\":")@, b.msg_id);
    let orp = enc_opt((",\"in_reply_to\":")@, b.in_reply_to);
    reveal_strlit(",\"msg_id\":");
    reveal_strlit(",\"in_reply_to\":");
    reveal_strlit("}");
    if b.msg_id is Some {
        assert(om[0] == ',');
    } else if b.in_reply_to is Some {
        assert(om =~= Seq::<char>::empty());
        assert(orp[0] == ',');
    } else {
        assert(om =~= Seq::<char>::empty());
        assert(orp =~= Seq::<char>::empty());
    }
}

/// The tail of an encoded body: the optional correlation fields and the
/// closing brace.
#[verifier::rlimit(100)]
proof fn lemma_body_opts(s: Seq<char>, p: Seq<char>, b: BodyView, t: Seq<char>)
    requires
        s == p + enc_body(b) + t,
    ensures
        ({
            let km = (",\"msg_id\":")@;
            let kr = (",\"in_reply_to\":")@;
            let i3 = p.len() as int + ("{\"type\":")@.len() + enc_str(tag_of(b.rest)).len()
                + enc_fields(b.rest).len();
            let i4 = i3 + enc_opt(km, b.msg_id).len();
            let i5 = i4 + enc_opt(kr, b.in_reply_to).len();
            sp_opt(s, i3, km) == Some((b.msg_id, i4)) && sp_opt(s, i4, kr) == Some(
                (b.in_reply_to, i5),
            ) && sp_lit(s, i5, ("}")@) == Some(i5 + 1)
        }),
{
    let lt = ("{\"type\":")@;
    let km = (",\"msg_id\":")@;
    let kr = (",\"in_reply_to\":")@;
    let lc = ("}")@;
    let tag = tag_of(b.rest);
    let fs = enc_fields(b.rest);
    let om = enc_opt(km, b.msg_id);
    let orp = enc_opt(kr, b.in_reply_to);
    reveal_strlit(",\"msg_id\":");
    reveal_strlit(",\"in_reply_to\":");
    reveal_strlit("}");
    assert(km.len() == 10 && km[0] == ',' && km[2] == 'm');
    assert(kr.len() == 15 && kr[0] == ',' && kr[2] == 'i');
    assert(lc.len() == 1 && lc[0] == '}');
    assert(!is_digit(',') && !is_digit('}'));
    let p3 = p + lt + enc_str(tag) + fs;
    let i3 = p3.len() as int;
    match b.msg_id {
        Some(n) => {
            assert(om =~= km + enc_i32(n as int));
            let tm = orp + lc + t;
            assert(tm.len() >= 1 && (tm[0] == ',' || tm[0] == '}')) by {
                if b.in_reply_to is Some {
                    assert(orp[0] == ',');
                } else {
                    assert(orp =~= Seq::<char>::empty());
                }
            }
            lemma_field_keyed_num(p3, km, n, tm);
            assert(p3 + (km + enc_i32(n as int)) + tm =~= s);
        },
        None => {
            assert(om =~= Seq::<char>::empty());
            if b.in_reply_to is Some {
                assert(orp[0] == ',' && orp[2] == 'i');
                assert(s[i3 + 2] == 'i');
                lemma_lit_mismatch(s, i3, km, 2);
            } else {
                assert(orp =~= Seq::<char>::empty());
                assert(s[i3] == '}');
                lemma_lit_mismatch(s, i3, km, 0);
            }
        },
    }
    let p4 = p3 + om;
    let i4 = p4.len() as int;
    match b.in_reply_to {
        Some(n) => {
            assert(orp =~= kr + enc_i32(n as int));
            let tr = lc + t;
            assert(tr[0] == '}');
            lemma_field_keyed_num(p4, kr, n, tr);
            assert(p4 + (kr + enc_i32(n as int)) + tr =~= s);
        },
        None => {
            assert(orp =~= Seq::<char>::empty());
            assert(s[i4] == '}');
            lemma_lit_mismatch(s, i4, kr, 0);
        },
    }
    let p5 = p4 + orp;
    lemma_parse_lit_enc(p5, lc, t);
    assert(p5 + lc + t =~= s);
}

/// An encoded body object is parsed off the front of whatever follows it.
#[verifier::rlimit(100)]
proof fn lemma_parse_body_enc(p: Seq<char>, b: BodyView, t: Seq<char>)
    ensures
        sp_body(p + enc_body(b) + t, p.len() as int) == Some(
            (b, p.len() as int + enc_body(b).len()),
        ),
{
    let s = p + enc_body(b) + t;
    lemma_body_front(s, p, b, t);
    lemma_body_opts(s, p, b, t);
    assert(BodyView { msg_id: b.msg_id, in_reply_to: b.in_reply_to, rest: b.rest } == b);
}

/// The envelope frame of an encoded line: both outer literals and the two
/// address strings.
#[verifier::rlimit(100)]
proof fn lemma_envelope_front(s: Seq<char>, m: MessageView)
    requires
        s == spec_encode(m),
    ensures
        ({
            let i1 = ("{\"src\":")@.len() as int;
            let i2 = i1 + enc_str(m.src).len();
            let i3 = i2 + (",\"dest\":")@.len();
            let i4 = i3 + enc_str(m.dest).len();
            let i5 = i4 + (",\"body\":")@.len();
            sp_lit(s, 0, ("{\"src\":")@) == Some(i1) && sp_str(s, i1) == Some((m.src, i2))
                && sp_lit(s, i2, (",\"dest\":")@) == Some(i3) && sp_str(s, i3) == Some(
                (m.dest, i4),
            ) && sp_lit(s, i4, (",\"body\":")@) == Some(i5)
        }),
{
    let ls = ("{\"src\":")@;
    let ld = (",\"dest\":")@;
    let lb = (",\"body\":")@;
    let lc = ("}")@;
    let eb = enc_body(m.body);
    let p0 = Seq::<char>::empty();
    lemma_parse_lit_enc(p0, ls, enc_str(m.src) + ld + enc_str(m.dest) + lb + eb + lc);
    assert(p0 + ls + (enc_str(m.src) + ld + enc_str(m.dest) + lb + eb + lc) =~= s);
    assert(p0.len() == 0);
    let p1 = p0 + ls;
    lemma_parse_str_enc(p1, m.src, ld + enc_str(m.dest) + lb + eb + lc);
    assert(p1 + enc_str(m.src) + (ld + enc_str(m.dest) + lb + eb + lc) =~= s);
    let p2 = p1 + enc_str(m.src);
    lemma_parse_lit_enc(p2, ld, enc_str(m.dest) + lb + eb + lc);
    assert(p2 + ld + (enc_str(m.dest) + lb + eb + lc) =~= s);
    let p3 = p2 + ld;
    lemma_parse_str_enc(p3, m.dest, lb + eb + lc);
    assert(p3 + enc_str(m.dest) + (lb + eb + lc) =~= s);
    let p4 = p3 + enc_str(m.dest);
    lemma_parse_lit_enc(p4, lb, eb + lc);
    assert(p4 + lb + (eb + lc) =~= s);
}

/// Decoding inverts encoding: every envelope decodes back from its own
/// encoded line.
#[verifier::rlimit(100)]
pub proof fn lemma_round_trip(m: MessageView)
    ensures
        spec_decode(spec_encode(m)) == Some(m),
{
    let s = spec_encode(m);
    let ls = ("{\"src\":")@;
    let ld = (",\"dest\":")@;
    let lb = (",\"body\":")@;
    let lc = ("}")@;
    let eb = enc_body(m.body);
    lemma_envelope_front(s, m);
    let p5 = ls + enc_str(m.src) + ld + enc_str(m.dest) + lb;
    lemma_parse_body_enc(p5, m.body, lc);
    assert(p5 + eb + lc =~= s);
    let p6 = p5 + eb;
    lemma_parse_lit_enc(p6, lc, Seq::<char>::empty());
    assert(p6 + lc + Seq::<char>::empty() =~= s);
    assert(p6.len() + lc.len() == s.len());
    assert(MessageView { src: m.src, dest: m.dest, body: m.body } == m);
}

// ---------------------------------------------------------------------------
// An encoded envelope is one line: it holds no newline character.
// ---------------------------------------------------------------------------

/// Whether `s` is free of newline characters.
pub open spec fn no_newline(s: Seq<char>) -> bool {
    forall|k: int| 0 <= k < s.len() ==> s[k] != '\n'
}

/// Newline-freedom is preserved by concatenation.
proof fn lemma_no_nl_concat(a: Seq<char>, b: Seq<char>)
    requires
        no_newline(a),
        no_newline(b),
    ensures
        no_newline(a + b),
{
    assert forall|k: int| 0 <= k < (a + b).len() implies (a + b)[k] != '\n' by {
        if k < a.len() {
            assert((a + b)[k] == a[k]);
        } else {
            assert((a + b)[k] == b[k - a.len()]);
        }
    }
}

/// Every literal piece of the wire grammar is free of newlines.
proof fn lemma_literals_clean()
    ensures
        no_newline(("{\"src\":")@),
        no_newline((",\"dest\":")@),
        no_newline((",\"body\":")@),
        no_newline(("}")@),
        no_newline(("{\"type\":")@),
        no_newline((",\"node_id\":")@),
        no_newline((",\"node_ids\":")@),
        no_newline((",\"delta\":")@),
        no_newline((",\"value\":")@),
        no_newline((",\"code\":")@),
        no_newline((",\"text\":")@),
        no_newline((",\"msg_id\":")@),
        no_newline((",\"in_reply_to\":")@),
        no_newline(("init")@),
        no_newline(("add")@),
        no_newline(("read")@),
        no_newline(("init_ok")@),
        no_newline(("add_ok")@),
        no_newline(("read_ok")@),
        no_newline(("error")@),
{
    reveal_strlit("{\"src\":");
    reveal_strlit(",\"dest\":");
    reveal_strlit(",\"body\":");
    reveal_strlit("}");
    reveal_strlit("{\"type\":");
    reveal_strlit(",\"node_id\":");
    reveal_strlit(",\"node_ids\":");
    reveal_strlit(",\"delta\":");
    reveal_strlit(",\"value\":");
    reveal_strlit(",\"code\":");
    reveal_strlit(",\"text\":");
    reveal_strlit(",\"msg_id\":");
    reveal_strlit(",\"in_reply_to\":");
    reveal_strlit("init");
    reveal_strlit("add");
    reveal_strlit("read");
    reveal_strlit("init_ok");
    reveal_strlit("add_ok");
    reveal_strlit("read_ok");
    reveal_strlit("error");
}

/// An encoded string value holds no newline: the newline character itself is
/// escaped.
proof fn lemma_str_clean(x: Seq<char>)
    ensures
        no_newline(enc_str(x)),
    decreases x.len(),
{
    assert(no_newline(seq!['"']));
    lemma_str_inner_clean(x);
    lemma_no_nl_concat(seq!['"'], enc_str_inner(x));
    lemma_no_nl_concat(seq!['"'] + enc_str_inner(x), seq!['"']);
}

/// The escaped characters of a string hold no newline.
proof fn lemma_str_inner_clean(x: Seq<char>)
    ensures
        no_newline(enc_str_inner(x)),
    decreases x.len(),
{
    if x.len() == 0 {
    } else {
        let c = x[0];
        assert(no_newline(esc_char(c)));
        lemma_str_inner_clean(x.subrange(1, x.len() as int));
        lemma_no_nl_concat(esc_char(c), enc_str_inner(x.subrange(1, x.len() as int)));
    }
}

/// An encoded integer holds no newline: it is digits and a sign.
proof fn lemma_i32_clean(n: int)
    requires
        -0x8000_0000 <= n <= 0x7fff_ffff,
    ensures
        no_newline(enc_i32(n)),
{
    if n < 0 {
        lemma_enc_nat_digits((-n) as nat);
        assert(no_newline(enc_nat((-n) as nat)));
        assert(no_newline(seq!['-']));
        lemma_no_nl_concat(seq!['-'], enc_nat((-n) as nat));
    } else {
        lemma_enc_nat_digits(n as nat);
        assert(no_newline(enc_nat(n as nat)));
    }
}

/// An encoded string array holds no newline.
proof fn lemma_arr_clean(v: Seq<Seq<char>>)
    ensures
        no_newline(enc_str_arr(v)),
{
    if v.len() == 0 {
        assert(no_newline(seq!['[', ']']));
    } else {
        lemma_str_clean(v[0]);
        lemma_rest_clean(v, 1);
        assert(no_newline(seq!['[']));
        assert(no_newline(seq![']']));
        lemma_no_nl_concat(seq!['['], enc_str(v[0]));
        lemma_no_nl_concat(seq!['['] + enc_str(v[0]), enc_str_rest(v, 1));
        lemma_no_nl_concat(seq!['['] + enc_str(v[0]) + enc_str_rest(v, 1), seq![']']);
    }
}

/// The comma-separated items of a string array hold no newline.
proof fn lemma_rest_clean(v: Seq<Seq<char>>, k: int)
    ensures
        no_newline(enc_str_rest(v, k)),
    decreases v.len() - k,
{
    if k < 0 || k >= v.len() {
    } else {
        lemma_str_clean(v[k]);
        lemma_rest_clean(v, k + 1);
        assert(no_newline(seq![',']));
        lemma_no_nl_concat(seq![','], enc_str(v[k]));
        lemma_no_nl_concat(seq![','] + enc_str(v[k]), enc_str_rest(v, k + 1));
    }
}

/// An encoded body holds no newline.
proof fn lemma_body_clean(b: BodyView)
    ensures
        no_newline(enc_body(b)),
{
    lemma_literals_clean();
    let lt = ("{\"type\":")@;
    let tag = tag_of(b.rest);
    let fs = enc_fields(b.rest);
    let om = enc_opt((",\"msg_id\":")@, b.msg_id);
    let orp = enc_opt((",\"in_reply_to\":")@, b.in_reply_to);
    lemma_str_clean(tag);
    assert(no_newline(fs)) by {
        match b.rest {
            PayloadView::Init { node_id, node_ids } => {
                lemma_str_clean(node_id);
                lemma_arr_clean(node_ids);
                lemma_no_nl_concat((",\"node_id\":")@, enc_str(node_id));
                lemma_no_nl_concat(
                    (",\"node_id\":")@ + enc_str(node_id),
                    (",\"node_ids\":")@,
                );
                lemma_no_nl_concat(
                    (",\"node_id\":")@ + enc_str(node_id) + (",\"node_ids\":")@,
                    enc_str_arr(node_ids),
                );
            },
            PayloadView::Add { delta } => {
                lemma_i32_clean(delta as int);
                lemma_no_nl_concat((",\"delta\":")@, enc_i32(delta as int));
            },
            PayloadView::ReadOk { value } => {
                lemma_i32_clean(value as int);
                lemma_no_nl_concat((",\"value\":")@, enc_i32(value as int));
            },
            PayloadView::Error { code, text } => {
                lemma_i32_clean(code as int);
                lemma_str_clean(text);
                lemma_no_nl_concat((",\"code\":")@, enc_i32(code as int));
                lemma_no_nl_concat((",\"code\":")@ + enc_i32(code as int), (",\"text\":")@);
                lemma_no_nl_concat(
                    (",\"code\":")@ + enc_i32(code as int) + (",\"text\":")@,
                    enc_str(text),
                );
            },
            _ => {},
        }
    }
    assert(no_newline(om)) by {
        if b.msg_id is Some {
            lemma_i32_clean(b.msg_id.unwrap() as int);
            lemma_no_nl_concat((",\"msg_id\":")@, enc_i32(b.msg_id.unwrap() as int));
        }
    }
    assert(no_newline(orp)) by {
        if b.in_reply_to is Some {
            lemma_i32_clean(b.in_reply_to.unwrap() as int);
            lemma_no_nl_concat((",\"in_reply_to\":")@, enc_i32(b.in_reply_to.unwrap() as int));
        }
    }
    lemma_no_nl_concat(lt, enc_str(tag));
    lemma_no_nl_concat(lt + enc_str(tag), fs);
    lemma_no_nl_concat(lt + enc_str(tag) + fs, om);
    lemma_no_nl_concat(lt + enc_str(tag) + fs + om, orp);
    lemma_no_nl_concat(lt + enc_str(tag) + fs + om + orp, ("}")@);
}

/// An encoded envelope is one line: it holds no newline anywhere.
pub proof fn lemma_encode_one_line(m: MessageView)
    ensures
        no_newline(spec_encode(m)),
{
    lemma_literals_clean();
    lemma_str_clean(m.src);
    lemma_str_clean(m.dest);
    lemma_body_clean(m.body);
    let ls = ("{\"src\":")@;
    let ld = (",\"dest\":")@;
    let lb = (",\"body\":")@;
    lemma_no_nl_concat(ls, enc_str(m.src));
    lemma_no_nl_concat(ls + enc_str(m.src), ld);
    lemma_no_nl_concat(ls + enc_str(m.src) + ld, enc_str(m.dest));
    lemma_no_nl_concat(ls + enc_str(m.src) + ld + enc_str(m.dest), lb);
    lemma_no_nl_concat(ls + enc_str(m.src) + ld + enc_str(m.dest) + lb, enc_body(m.body));
    lemma_no_nl_concat(
        ls + enc_str(m.src) + ld + enc_str(m.dest) + lb + enc_body(m.body),
        ("}")@,
    );
}

} // verus!

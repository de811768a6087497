//! The JSON codec for the message model: a verified encoder to the exact
//! wire form, and a verified decoder for it.
//!
//! The wire form of a message is
//! `{"src":S,"dest":D,"body":{"type":T,"msg_id":N,"in_reply_to":M,..}}`:
//! the body is one flat object holding the `type` tag, the two correlation
//! ids (always written, `null` when absent), and the payload's own fields.
//! The decoder reads that shape back, with the two ids optional (absent or
//! `null`) and the remaining fields in the fixed order above.

use crate::msg::{Body, BodyView, Message, MessageView, Payload, PayloadView};
use vstd::prelude::*;
use vstd::string::StrSliceExecFns;
use vstd::string::StringSliceAdditionalSpecFns;
use vstd::utf8::{decode_utf8, encode_utf8, valid_utf8};

verus! {

/// `"` on the wire.
pub const QUOTE: u8 = 0x22;

/// `\` on the wire.
pub const BACKSLASH: u8 = 0x5C;

/// `,` on the wire.
pub const COMMA: u8 = 0x2C;

/// `]` on the wire.
pub const RBRACKET: u8 = 0x5D;

/// The bytes of `{"src":`.
pub open spec fn l_src() -> Seq<u8> {
    Seq::new(7, |i: int| if i == 0 {
            0x7Bu8
        } else if i == 1 {
            0x22u8
        } else if i == 2 {
            0x73u8
        } else if i == 3 {
            0x72u8
        } else if i == 4 {
            0x63u8
        } else if i == 5 {
            0x22u8
        } else {
            0x3Au8
        })
}

fn l_src_vec() -> (v: Vec<u8>) 
    ensures
        v@ == l_src(),
{
    let mut v: Vec<u8> = Vec::new();
    v.push(0x7B);
    v.push(0x22);
    v.push(0x73);
    v.push(0x72);
    v.push(0x63);
    v.push(0x22);
    v.push(0x3A);
    assert(v@ =~= l_src());
    v
}

/// The bytes of `,"dest":`.
pub open spec fn l_dest() -> Seq<u8> {
    Seq::new(8, |i: int| if i == 0 {
            0x2Cu8
        } else if i == 1 {
            0x22u8
        } else if i == 2 {
            0x64u8
        } else if i == 3 {
            0x65u8
        } else if i == 4 {
            0x73u8
        } else if i == 5 {
            0x74u8
        } else if i == 6 {
            0x22u8
        } else {
            0x3Au8
        })
}

fn l_dest_vec() -> (v: Vec<u8>) 
    ensures
        v@ == l_dest(),
{
    let mut v: Vec<u8> = Vec::new();
    v.push(0x2C);
    v.push(0x22);
    v.push(0x64);
    v.push(0x65);
    v.push(0x73);
    v.push(0x74);
    v.push(0x22);
    v.push(0x3A);
    assert(v@ =~= l_dest());
    v
}

/// The bytes of `,"body":{"type":`.
pub open spec fn l_body() -> Seq<u8> {
    Seq::new(16, |i: int| if i == 0 {
            0x2Cu8
        } else if i == 1 {
            0x22u8
        } else if i == 2 {
            0x62u8
        } else if i == 3 {
            0x6Fu8
        } else if i == 4 {
            0x64u8
        } else if i == 5 {
            0x79u8
        } else if i == 6 {
            0x22u8
        } else if i == 7 {
            0x3Au8
        } else if i == 8 {
            0x7Bu8
        } else if i == 9 {
            0x22u8
        } else if i == 10 {
            0x74u8
        } else if i == 11 {
            0x79u8
        } else if i == 12 {
            0x70u8
        } else if i == 13 {
            0x65u8
        } else if i == 14 {
            0x22u8
        } else {
            0x3Au8
        })
}

fn l_body_vec() -> (v: Vec<u8>) 
    ensures
        v@ == l_body(),
{
    let mut v: Vec<u8> = Vec::new();
    v.push(0x2C);
    v.push(0x22);
    v.push(0x62);
    v.push(0x6F);
    v.push(0x64);
    v.push(0x79);
    v.push(0x22);
    v.push(0x3A);
    v.push(0x7B);
    v.push(0x22);
    v.push(0x74);
    v.push(0x79);
    v.push(0x70);
    v.push(0x65);
    v.push(0x22);
    v.push(0x3A);
    assert(v@ =~= l_body());
    v
}

/// The bytes of `"init"`.
pub open spec fn l_tag_init() -> Seq<u8> {
    Seq::new(6, |i: int| if i == 0 {
            0x22u8
        } else if i == 1 {
            0x69u8
        } else if i == 2 {
            0x6Eu8
        } else if i == 3 {
            0x69u8
        } else if i == 4 {
            0x74u8
        } else {
            0x22u8
        })
}

fn l_tag_init_vec() -> (v: Vec<u8>) 
    ensures
        v@ == l_tag_init(),
{
    let mut v: Vec<u8> = Vec::new();
    v.push(0x22);
    v.push(0x69);
    v.push(0x6E);
    v.push(0x69);
    v.push(0x74);
    v.push(0x22);
    assert(v@ =~= l_tag_init());
    v
}

/// The bytes of `"init_ok"`.
pub open spec fn l_tag_init_ok() -> Seq<u8> {
    Seq::new(9, |i: int| if i == 0 {
            0x22u8
        } else if i == 1 {
            0x69u8
        } else if i == 2 {
            0x6Eu8
        } else if i == 3 {
            0x69u8
        } else if i == 4 {
            0x74u8
        } else if i == 5 {
            0x5Fu8
        } else if i == 6 {
            0x6Fu8
        } else if i == 7 {
            0x6Bu8
        } else {
            0x22u8
        })
}

fn l_tag_init_ok_vec() -> (v: Vec<u8>) 
    ensures
        v@ == l_tag_init_ok(),
{
    let mut v: Vec<u8> = Vec::new();
    v.push(0x22);
    v.push(0x69);
    v.push(0x6E);
    v.push(0x69);
    v.push(0x74);
    v.push(0x5F);
    v.push(0x6F);
    v.push(0x6B);
    v.push(0x22);
    assert(v@ =~= l_tag_init_ok());
    v
}

/// The bytes of `"echo"`.
pub open spec fn l_tag_echo() -> Seq<u8> {
    Seq::new(6, |i: int| if i == 0 {
            0x22u8
        } else if i == 1 {
            0x65u8
        } else if i == 2 {
            0x63u8
        } else if i == 3 {
            0x68u8
        } else if i == 4 {
            0x6Fu8
        } else {
            0x22u8
        })
}

fn l_tag_echo_vec() -> (v: Vec<u8>) 
    ensures
        v@ == l_tag_echo(),
{
    let mut v: Vec<u8> = Vec::new();
    v.push(0x22);
    v.push(0x65);
    v.push(0x63);
    v.push(0x68);
    v.push(0x6F);
    v.push(0x22);
    assert(v@ =~= l_tag_echo());
    v
}

/// The bytes of `"echo_ok"`.
pub open spec fn l_tag_echo_ok() -> Seq<u8> {
    Seq::new(9, |i: int| if i == 0 {
            0x22u8
        } else if i == 1 {
            0x65u8
        } else if i == 2 {
            0x63u8
        } else if i == 3 {
            0x68u8
        } else if i == 4 {
            0x6Fu8
        } else if i == 5 {
            0x5Fu8
        } else if i == 6 {
            0x6Fu8
        } else if i == 7 {
            0x6Bu8
        } else {
            0x22u8
        })
}

fn l_tag_echo_ok_vec() -> (v: Vec<u8>) 
    ensures
        v@ == l_tag_echo_ok(),
{
    let mut v: Vec<u8> = Vec::new();
    v.push(0x22);
    v.push(0x65);
    v.push(0x63);
    v.push(0x68);
    v.push(0x6F);
    v.push(0x5F);
    v.push(0x6F);
    v.push(0x6B);
    v.push(0x22);
    assert(v@ =~= l_tag_echo_ok());
    v
}

/// The bytes of `,"msg_id":`.
pub open spec fn l_msg_id() -> Seq<u8> {
    Seq::new(10, |i: int| if i == 0 {
            0x2Cu8
        } else if i == 1 {
            0x22u8
        } else if i == 2 {
            0x6Du8
        } else if i == 3 {
            0x73u8
        } else if i == 4 {
            0x67u8
        } else if i == 5 {
            0x5Fu8
        } else if i == 6 {
            0x69u8
        } else if i == 7 {
            0x64u8
        } else if i == 8 {
            0x22u8
        } else {
            0x3Au8
        })
}

fn l_msg_id_vec() -> (v: Vec<u8>) 
    ensures
        v@ == l_msg_id(),
{
    let mut v: Vec<u8> = Vec::new();
    v.push(0x2C);
    v.push(0x22);
    v.push(0x6D);
    v.push(0x73);
    v.push(0x67);
    v.push(0x5F);
    v.push(0x69);
    v.push(0x64);
    v.push(0x22);
    v.push(0x3A);
    assert(v@ =~= l_msg_id());
    v
}

/// The bytes of `,"in_reply_to":`.
pub open spec fn l_in_reply_to() -> Seq<u8> {
    Seq::new(15, |i: int| if i == 0 {
            0x2Cu8
        } else if i == 1 {
            0x22u8
        } else if i == 2 {
            0x69u8
        } else if i == 3 {
            0x6Eu8
        } else if i == 4 {
            0x5Fu8
        } else if i == 5 {
            0x72u8
        } else if i == 6 {
            0x65u8
        } else if i == 7 {
            0x70u8
        } else if i == 8 {
            0x6Cu8
        } else if i == 9 {
            0x79u8
        } else if i == 10 {
            0x5Fu8
        } else if i == 11 {
            0x74u8
        } else if i == 12 {
            0x6Fu8
        } else if i == 13 {
            0x22u8
        } else {
            0x3Au8
        })
}

fn l_in_reply_to_vec() -> (v: Vec<u8>) 
    ensures
        v@ == l_in_reply_to(),
{
    let mut v: Vec<u8> = Vec::new();
    v.push(0x2C);
    v.push(0x22);
    v.push(0x69);
    v.push(0x6E);
    v.push(0x5F);
    v.push(0x72);
    v.push(0x65);
    v.push(0x70);
    v.push(0x6C);
    v.push(0x79);
    v.push(0x5F);
    v.push(0x74);
    v.push(0x6F);
    v.push(0x22);
    v.push(0x3A);
    assert(v@ =~= l_in_reply_to());
    v
}

/// The bytes of `null`.
pub open spec fn l_null() -> Seq<u8> {
    Seq::new(4, |i: int| if i == 0 {
            0x6Eu8
        } else if i == 1 {
            0x75u8
        } else if i == 2 {
            0x6Cu8
        } else {
            0x6Cu8
        })
}

fn l_null_vec() -> (v: Vec<u8>) 
    ensures
        v@ == l_null(),
{
    let mut v: Vec<u8> = Vec::new();
    v.push(0x6E);
    v.push(0x75);
    v.push(0x6C);
    v.push(0x6C);
    assert(v@ =~= l_null());
    v
}

/// The bytes of `,"node_id":`.
pub open spec fn l_node_id() -> Seq<u8> {
    Seq::new(11, |i: int| if i == 0 {
            0x2Cu8
        } else if i == 1 {
            0x22u8
        } else if i == 2 {
            0x6Eu8
        } else if i == 3 {
            0x6Fu8
        } else if i == 4 {
            0x64u8
        } else if i == 5 {
            0x65u8
        } else if i == 6 {
            0x5Fu8
        } else if i == 7 {
            0x69u8
        } else if i == 8 {
            0x64u8
        } else if i == 9 {
            0x22u8
        } else {
            0x3Au8
        })
}

fn l_node_id_vec() -> (v: Vec<u8>) 
    ensures
        v@ == l_node_id(),
{
    let mut v: Vec<u8> = Vec::new();
    v.push(0x2C);
    v.push(0x22);
    v.push(0x6E);
    v.push(0x6F);
    v.push(0x64);
    v.push(0x65);
    v.push(0x5F);
    v.push(0x69);
    v.push(0x64);
    v.push(0x22);
    v.push(0x3A);
    assert(v@ =~= l_node_id());
    v
}

/// The bytes of `,"node_ids":[`.
pub open spec fn l_node_ids() -> Seq<u8> {
    Seq::new(13, |i: int| if i == 0 {
            0x2Cu8
        } else if i == 1 {
            0x22u8
        } else if i == 2 {
            0x6Eu8
        } else if i == 3 {
            0x6Fu8
        } else if i == 4 {
            0x64u8
        } else if i == 5 {
            0x65u8
        } else if i == 6 {
            0x5Fu8
        } else if i == 7 {
            0x69u8
        } else if i == 8 {
            0x64u8
        } else if i == 9 {
            0x73u8
        } else if i == 10 {
            0x22u8
        } else if i == 11 {
            0x3Au8
        } else {
            0x5Bu8
        })
}

fn l_node_ids_vec() -> (v: Vec<u8>) 
    ensures
        v@ == l_node_ids(),
{
    let mut v: Vec<u8> = Vec::new();
    v.push(0x2C);
    v.push(0x22);
    v.push(0x6E);
    v.push(0x6F);
    v.push(0x64);
    v.push(0x65);
    v.push(0x5F);
    v.push(0x69);
    v.push(0x64);
    v.push(0x73);
    v.push(0x22);
    v.push(0x3A);
    v.push(0x5B);
    assert(v@ =~= l_node_ids());
    v
}

/// The bytes of `,"echo":`.
pub open spec fn l_echo() -> Seq<u8> {
    Seq::new(8, |i: int| if i == 0 {
            0x2Cu8
        } else if i == 1 {
            0x22u8
        } else if i == 2 {
            0x65u8
        } else if i == 3 {
            0x63u8
        } else if i == 4 {
            0x68u8
        } else if i == 5 {
            0x6Fu8
        } else if i == 6 {
            0x22u8
        } else {
            0x3Au8
        })
}

fn l_echo_vec() -> (v: Vec<u8>) 
    ensures
        v@ == l_echo(),
{
    let mut v: Vec<u8> = Vec::new();
    v.push(0x2C);
    v.push(0x22);
    v.push(0x65);
    v.push(0x63);
    v.push(0x68);
    v.push(0x6F);
    v.push(0x22);
    v.push(0x3A);
    assert(v@ =~= l_echo());
    v
}

/// The bytes of `}}`.
pub open spec fn l_close() -> Seq<u8> {
    Seq::new(2, |i: int| if i == 0 {
            0x7Du8
        } else {
            0x7Du8
        })
}

fn l_close_vec() -> (v: Vec<u8>) 
    ensures
        v@ == l_close(),
{
    let mut v: Vec<u8> = Vec::new();
    v.push(0x7D);
    v.push(0x7D);
    assert(v@ =~= l_close());
    v
}

/// The byte of the hexadecimal digit for `n`, lower case.
pub open spec fn hex_digit(n: nat) -> u8 {
    if n < 10 {
        (0x30 + n) as u8
    } else {
        (0x57 + n) as u8
    }
}

/// How one byte of a string's UTF-8 form is written inside a JSON string:
/// quote and backslash are escaped, the named control bytes use their short
/// escapes, other control bytes use `\u00..`, and every other byte stands
/// as it is.
pub open spec fn esc_byte(b: u8) -> Seq<u8> {
    if b == QUOTE {
        seq![BACKSLASH, QUOTE]
    } else if b == BACKSLASH {
        seq![BACKSLASH, BACKSLASH]
    } else if b == 0x08 {
        seq![BACKSLASH, 0x62u8]
    } else if b == 0x09 {
        seq![BACKSLASH, 0x74u8]
    } else if b == 0x0A {
        seq![BACKSLASH, 0x6Eu8]
    } else if b == 0x0C {
        seq![BACKSLASH, 0x66u8]
    } else if b == 0x0D {
        seq![BACKSLASH, 0x72u8]
    } else if b < 0x20 {
        seq![BACKSLASH, 0x75u8, 0x30u8, 0x30u8, hex_digit((b / 16) as nat), hex_digit((b % 16) as nat)]
    } else {
        seq![b]
    }
}

/// A byte sequence, escaped byte by byte.
pub open spec fn esc_bytes(bs: Seq<u8>) -> Seq<u8>
    decreases bs.len(),
{
    if bs.len() == 0 {
        Seq::empty()
    } else {
        esc_bytes(bs.drop_last()) + esc_byte(bs.last())
    }
}

/// The JSON text of the string `s`: its escaped UTF-8 bytes between quotes.
pub open spec fn quoted(s: Seq<char>) -> Seq<u8> {
    seq![QUOTE] + esc_bytes(encode_utf8(s)) + seq![QUOTE]
}

/// The decimal digits of `n`, most significant first.
pub open spec fn dec_digits(n: nat) -> Seq<u8>
    decreases n,
{
    if n < 10 {
        seq![(0x30 + n) as u8]
    } else {
        dec_digits(n / 10) + seq![(0x30 + n % 10) as u8]
    }
}

/// The JSON text of an optional id: its decimal digits, or `null`.
pub open spec fn enc_opt_id(o: Option<usize>) -> Seq<u8> {
    match o {
        Some(n) => dec_digits(n as nat),
        None => l_null(),
    }
}

/// The JSON texts of the strings `ids`, separated by commas.
pub open spec fn enc_string_items(ids: Seq<Seq<char>>) -> Seq<u8>
    decreases ids.len(),
{
    if ids.len() == 0 {
        Seq::empty()
    } else if ids.len() == 1 {
        quoted(ids[0])
    } else {
        enc_string_items(ids.drop_last()) + seq![COMMA] + quoted(ids.last())
    }
}

/// The quoted `type` tag of a payload.
pub open spec fn tag_lit(p: PayloadView) -> Seq<u8> {
    match p {
        PayloadView::Init { .. } => l_tag_init(),
        PayloadView::InitOk => l_tag_init_ok(),
        PayloadView::Echo { .. } => l_tag_echo(),
        PayloadView::EchoOk { .. } => l_tag_echo_ok(),
    }
}

/// The payload's own fields as they follow `in_reply_to` in the body object:
/// nothing for `init_ok`, the echoed string for the echo payloads, the node
/// id and the node list for `init`.
pub open spec fn enc_payload_fields(p: PayloadView) -> Seq<u8> {
    match p {
        PayloadView::Init { node_id, node_ids } => l_node_id() + quoted(node_id) + l_node_ids()
            + enc_string_items(node_ids) + seq![RBRACKET],
        PayloadView::InitOk => Seq::empty(),
        PayloadView::Echo { echo } => l_echo() + quoted(echo),
        PayloadView::EchoOk { echo } => l_echo() + quoted(echo),
    }
}

/// The full wire form of a message, as [`encode_message`] writes it.
#[verifier::opaque]
pub open spec fn spec_encode(m: MessageView) -> Seq<u8> {
    l_src() + quoted(m.source) + l_dest() + quoted(m.destination) + l_body() + tag_lit(m.body.payload)
        + l_msg_id() + enc_opt_id(m.body.id) + l_in_reply_to() + enc_opt_id(m.body.in_reply_to)
        + enc_payload_fields(m.body.payload) + l_close()
}

/// The hexadecimal digit for `n`, lower case.
fn hex_digit_x(n: u8) -> (d: u8)
    requires
        n < 16,
    ensures
        d == hex_digit(n as nat),
{
    if n < 10 {
        0x30 + n
    } else {
        0x57 + n
    }
}

/// Append the escaped UTF-8 bytes of `s`.
fn push_escaped(out: &mut Vec<u8>, s: &str)
    ensures
        final(out)@ == old(out)@ + esc_bytes(encode_utf8(s@)),
{
    let bs: Vec<u8> = s.as_bytes_vec();
    let ghost base = old(out)@;
    let mut i: usize = 0;
    while i < bs.len()
        invariant
            i <= bs@.len(),
            bs@ == encode_utf8(s@),
            out@ == base + esc_bytes(bs@.take(i as int)),
        decreases bs@.len() - i,
    {
        let b = bs[i];
        if b == QUOTE {
            out.push(BACKSLASH);
            out.push(QUOTE);
        } else if b == BACKSLASH {
            out.push(BACKSLASH);
            out.push(BACKSLASH);
        } else if b == 0x08 {
            out.push(BACKSLASH);
            out.push(0x62);
        } else if b == 0x09 {
            out.push(BACKSLASH);
            out.push(0x74);
        } else if b == 0x0A {
            out.push(BACKSLASH);
            out.push(0x6E);
        } else if b == 0x0C {
            out.push(BACKSLASH);
            out.push(0x66);
        } else if b == 0x0D {
            out.push(BACKSLASH);
            out.push(0x72);
        } else if b < 0x20 {
            out.push(BACKSLASH);
            out.push(0x75);
            out.push(0x30);
            out.push(0x30);
            out.push(hex_digit_x(b / 16));
            out.push(hex_digit_x(b % 16));
        } else {
            out.push(b);
        }
        proof {
            assert(bs@.take(i as int + 1).drop_last() =~= bs@.take(i as int));
            assert(bs@.take(i as int + 1).last() == b);
            assert(out@ =~= base + esc_bytes(bs@.take(i as int + 1)));
        }
        i += 1;
    }
    proof {
        assert(bs@.take(bs@.len() as int) =~= bs@);
    }
}

/// Append the JSON text of the string `s`.
fn push_quoted(out: &mut Vec<u8>, s: &str)
    ensures
        final(out)@ == old(out)@ + quoted(s@),
{
    out.push(QUOTE);
    push_escaped(out, s);
    out.push(QUOTE);
    proof {
        assert(final(out)@ =~= old(out)@ + quoted(s@));
    }
}

/// Append the decimal digits of `n`, most significant first.
fn push_decimal(out: &mut Vec<u8>, n: usize)
    ensures
        final(out)@ == old(out)@ + dec_digits(n as nat),
    decreases n,
{
    if n >= 10 {
        push_decimal(out, n / 10);
    }
    out.push(0x30 + (n % 10) as u8);
    proof {
        assert(final(out)@ =~= old(out)@ + dec_digits(n as nat));
    }
}

/// Append the JSON text of an optional id.
fn push_opt_id(out: &mut Vec<u8>, o: &Option<usize>)
    ensures
        final(out)@ == old(out)@ + enc_opt_id(*o),
{
    match o {
        Some(n) => push_decimal(out, *n),
        None => {
            let mut piece = l_null_vec();
            out.append(&mut piece);
        },
    }
}

/// Append the JSON texts of the strings `ids`, separated by commas.
fn push_string_items(out: &mut Vec<u8>, ids: &Vec<String>)
    ensures
        final(out)@ == old(out)@ + enc_string_items(ids.deep_view()),
{
    let ghost base = old(out)@;
    let mut i: usize = 0;
    while i < ids.len()
        invariant
            i <= ids@.len(),
            out@ == base + enc_string_items(ids.deep_view().take(i as int)),
        decreases ids@.len() - i,
    {
        if i > 0 {
            out.push(COMMA);
        }
        push_quoted(out, ids[i].as_str());
        proof {
            assert(ids.deep_view().take(i as int + 1).drop_last() =~= ids.deep_view().take(
                i as int,
            ));
            assert(ids.deep_view().take(i as int + 1).last() == ids@[i as int]@);
            assert(out@ =~= base + enc_string_items(ids.deep_view().take(i as int + 1)));
        }
        i += 1;
    }
    proof {
        assert(ids.deep_view().take(ids@.len() as int) =~= ids.deep_view());
    }
}

/// Encode a message to its exact wire form, [`spec_encode`] of its model.
pub fn encode_message(m: &Message) -> (out: Vec<u8>)
    ensures
        out@ == spec_encode(m@),
{
    let mut out: Vec<u8> = Vec::new();
    let mut piece = l_src_vec();
    out.append(&mut piece);
    push_quoted(&mut out, m.source.as_str());
    let mut piece = l_dest_vec();
    out.append(&mut piece);
    push_quoted(&mut out, m.destination.as_str());
    let mut piece = l_body_vec();
    out.append(&mut piece);
    let mut piece = match &m.body.payload {
        Payload::Init { .. } => l_tag_init_vec(),
        Payload::InitOk => l_tag_init_ok_vec(),
        Payload::Echo { .. } => l_tag_echo_vec(),
        Payload::EchoOk { .. } => l_tag_echo_ok_vec(),
    };
    out.append(&mut piece);
    let mut piece = l_msg_id_vec();
    out.append(&mut piece);
    push_opt_id(&mut out, &m.body.id);
    let mut piece = l_in_reply_to_vec();
    out.append(&mut piece);
    push_opt_id(&mut out, &m.body.in_reply_to);
    match &m.body.payload {
        Payload::Init { node_id, node_ids } => {
            let mut piece = l_node_id_vec();
            out.append(&mut piece);
            push_quoted(&mut out, node_id.as_str());
            let mut piece = l_node_ids_vec();
            out.append(&mut piece);
            push_string_items(&mut out, node_ids);
            out.push(RBRACKET);
        },
        Payload::InitOk => {},
        Payload::Echo { echo } => {
            let mut piece = l_echo_vec();
            out.append(&mut piece);
            push_quoted(&mut out, echo.as_str());
        },
        Payload::EchoOk { echo } => {
            let mut piece = l_echo_vec();
            out.append(&mut piece);
            push_quoted(&mut out, echo.as_str());
        },
    }
    let mut piece = l_close_vec();
    out.append(&mut piece);
    proof {
        reveal(spec_encode);
        assert(out@ =~= spec_encode(m@));
    }
    out
}

// ---------------------------------------------------------------------------
// The decoder's grammar, as spec-level parsers over the line's bytes.  Each
// takes the position to read at and gives the position after what it read.
// ---------------------------------------------------------------------------

/// Does `lit` stand at `i` in `s`?  The result is the position after it.
pub open spec fn sp_lit(s: Seq<u8>, i: int, lit: Seq<u8>) -> Option<int> {
    if 0 <= i && i + lit.len() <= s.len() && s.subrange(i, i + lit.len()) == lit {
        Some(i + lit.len())
    } else {
        None
    }
}

/// Is `b` an ASCII decimal digit?
pub open spec fn is_digit(b: u8) -> bool {
    0x30 <= b <= 0x39
}

/// Is `b` an ASCII hexadecimal digit, either case?
pub open spec fn is_hex(b: u8) -> bool {
    (0x30 <= b <= 0x39) || (0x41 <= b <= 0x46) || (0x61 <= b <= 0x66)
}

/// The value of the hexadecimal digit `b`.
pub open spec fn hex_val(b: u8) -> nat {
    if 0x30 <= b <= 0x39 {
        (b - 0x30) as nat
    } else if 0x41 <= b <= 0x46 {
        (b - 0x37) as nat
    } else {
        (b - 0x57) as nat
    }
}

/// The byte a short escape `\e` stands for, if `e` is one of JSON's short
/// escapes.
pub open spec fn simple_unesc(e: u8) -> Option<u8> {
    if e == QUOTE {
        Some(QUOTE)
    } else if e == BACKSLASH {
        Some(BACKSLASH)
    } else if e == 0x2F {
        Some(0x2Fu8)
    } else if e == 0x62 {
        Some(0x08u8)
    } else if e == 0x74 {
        Some(0x09u8)
    } else if e == 0x6E {
        Some(0x0Au8)
    } else if e == 0x66 {
        Some(0x0Cu8)
    } else if e == 0x72 {
        Some(0x0Du8)
    } else {
        None
    }
}

/// Read a JSON string's content at `i`, the opening quote already behind:
/// bytes up to the closing quote, short escapes and `\u00..` escapes below
/// 0x80 unescaped, unescaped control bytes refused.  The result holds the
/// position after the closing quote and the unescaped bytes.
pub open spec fn sp_string(s: Seq<u8>, i: int) -> Option<(int, Seq<u8>)>
    decreases s.len() - i,
{
    if i < 0 || i >= s.len() {
        None
    } else if s[i] == QUOTE {
        Some((i + 1, Seq::empty()))
    } else if s[i] == BACKSLASH {
        if i + 1 < s.len() {
            let e = s[i + 1];
            if e == 0x75 {
                if i + 6 <= s.len() && is_hex(s[i + 2]) && is_hex(s[i + 3]) && is_hex(s[i + 4])
                    && is_hex(s[i + 5]) {
                    let v = hex_val(s[i + 2]) * 0x1000 + hex_val(s[i + 3]) * 0x100 + hex_val(
                        s[i + 4],
                    ) * 0x10 + hex_val(s[i + 5]);
                    if v < 0x80 {
                        match sp_string(s, i + 6) {
                            Some(r) => Some((r.0, seq![v as u8] + r.1)),
                            None => None,
                        }
                    } else {
                        None
                    }
                } else {
                    None
                }
            } else {
                match simple_unesc(e) {
                    Some(b) => match sp_string(s, i + 2) {
                        Some(r) => Some((r.0, seq![b] + r.1)),
                        None => None,
                    },
                    None => None,
                }
            }
        } else {
            None
        }
    } else if s[i] < 0x20 {
        None
    } else {
        match sp_string(s, i + 1) {
            Some(r) => Some((r.0, seq![s[i]] + r.1)),
            None => None,
        }
    }
}

/// Reading a string moves the position forward, and not past the end.
pub proof fn lemma_sp_string_advances(s: Seq<u8>, i: int)
    ensures
        sp_string(s, i) matches Some(r) ==> i < r.0 <= s.len(),
    decreases s.len() - i,
{
    if 0 <= i < s.len() {
        if i + 1 <= s.len() {
            lemma_sp_string_advances(s, i + 1);
        }
        if i + 2 <= s.len() {
            lemma_sp_string_advances(s, i + 2);
        }
        if i + 6 <= s.len() {
            lemma_sp_string_advances(s, i + 6);
        }
    }
}

/// The first position at or after `i` holding no decimal digit.
pub open spec fn sp_digits_end(s: Seq<u8>, i: int) -> int
    decreases s.len() - i,
{
    if i < 0 || i >= s.len() || !is_digit(s[i]) {
        i
    } else {
        sp_digits_end(s, i + 1)
    }
}

/// The value of the decimal digits of `s` from `i` to `j`.
pub open spec fn digits_val(s: Seq<u8>, i: int, j: int) -> nat
    decreases j - i,
{
    if j <= i {
        0
    } else {
        digits_val(s, i, j - 1) * 10 + (s[j - 1] - 0x30) as nat
    }
}

/// Read an unsigned JSON number at `i`: a nonempty digit run without a
/// superfluous leading zero.  The result holds the position after it and its
/// value.
pub open spec fn sp_number(s: Seq<u8>, i: int) -> Option<(int, nat)> {
    let j = sp_digits_end(s, i);
    if j == i {
        None
    } else if s[i] == 0x30 && j > i + 1 {
        None
    } else {
        Some((j, digits_val(s, i, j)))
    }
}

/// Read a message id at `i`: a number that fits the id's machine type.
pub open spec fn sp_id_val(s: Seq<u8>, i: int) -> Option<(int, usize)> {
    match sp_number(s, i) {
        Some(q) => if q.1 <= usize::MAX {
            Some((q.0, q.1 as usize))
        } else {
            None
        },
        None => None,
    }
}

/// Read an optional id field at `i`: either the key followed by a number or
/// by `null`, or nothing at all; both of the latter leave the id absent.
pub open spec fn sp_opt_id(s: Seq<u8>, i: int, key: Seq<u8>) -> Option<(int, Option<usize>)> {
    match sp_lit(s, i, key) {
        None => Some((i, None)),
        Some(j) => match sp_lit(s, j, l_null()) {
            Some(k) => Some((k, None)),
            None => match sp_id_val(s, j) {
                Some(q) => Some((q.0, Some(q.1))),
                None => None,
            },
        },
    }
}

/// Read the two optional id fields, `msg_id` before `in_reply_to`.
pub open spec fn sp_ids(s: Seq<u8>, i: int) -> Option<(int, Option<usize>, Option<usize>)> {
    match sp_opt_id(s, i, l_msg_id()) {
        None => None,
        Some(a) => match sp_opt_id(s, a.0, l_in_reply_to()) {
            None => None,
            Some(b) => Some((b.0, a.1, b.1)),
        },
    }
}

/// Read the rest of a string array at `i`, the opening bracket behind: `]`
/// at once, or quoted strings, comma-separated before all but the first.
pub open spec fn sp_items(s: Seq<u8>, i: int, first: bool) -> Option<(int, Seq<Seq<u8>>)>
    decreases s.len() - i,
    via sp_items_dec
{
    if i < 0 || i >= s.len() {
        None
    } else if s[i] == RBRACKET {
        Some((i + 1, Seq::empty()))
    } else {
        let j: int = if first {
            i
        } else {
            i + 1
        };
        if (first || s[i] == COMMA) && j < s.len() && s[j] == QUOTE {
            match sp_string(s, j + 1) {
                Some(r) => match sp_items(s, r.0, false) {
                    Some(t) => Some((t.0, seq![r.1] + t.1)),
                    None => None,
                },
                None => None,
            }
        } else {
            None
        }
    }
}

#[via_fn]
proof fn sp_items_dec(s: Seq<u8>, i: int, first: bool) {
    if 0 <= i < s.len() && s[i] != RBRACKET {
        let j: int = if first {
            i
        } else {
            i + 1
        };
        if (first || s[i] == COMMA) && j < s.len() && s[j] == QUOTE {
            lemma_sp_string_advances(s, j + 1);
        }
    }
}

/// A message as the grammar yields it, its strings still raw bytes.
pub enum RawPayload {
    Init { node_id: Seq<u8>, node_ids: Seq<Seq<u8>> },
    InitOk,
    Echo { echo: Seq<u8> },
    EchoOk { echo: Seq<u8> },
}

/// The fields read out of one line, before UTF-8 decoding.
pub struct RawMessage {
    pub source: Seq<u8>,
    pub destination: Seq<u8>,
    pub id: Option<usize>,
    pub in_reply_to: Option<usize>,
    pub payload: RawPayload,
}

/// Read the closing braces at `k` and demand the line's end there.
pub open spec fn sp_finish(s: Seq<u8>, k: int, m: RawMessage) -> Option<RawMessage> {
    match sp_lit(s, k, l_close()) {
        Some(e) => if e == s.len() {
            Some(m)
        } else {
            None
        },
        None => None,
    }
}

/// Read an `echo` field at `k`: the key, a quote, the string.
pub open spec fn sp_echo_field(s: Seq<u8>, k: int) -> Option<(int, Seq<u8>)> {
    match sp_lit(s, k, l_echo()) {
        None => None,
        Some(k1) => if k1 < s.len() && s[k1] == QUOTE {
            sp_string(s, k1 + 1)
        } else {
            None
        },
    }
}

/// Read a message body's fields at `i`, where its quoted `type` tag begins:
/// the tag, the optional ids, the payload's fields, the closing braces.
pub open spec fn sp_body(s: Seq<u8>, i: int, src: Seq<u8>, dst: Seq<u8>) -> Option<RawMessage> {
    match sp_lit(s, i, l_tag_init_ok()) {
        Some(j) => match sp_ids(s, j) {
            None => None,
            Some(ids) => sp_finish(
                s,
                ids.0,
                RawMessage {
                    source: src,
                    destination: dst,
                    id: ids.1,
                    in_reply_to: ids.2,
                    payload: RawPayload::InitOk,
                },
            ),
        },
        None => match sp_lit(s, i, l_tag_init()) {
            Some(j) => match sp_ids(s, j) {
                None => None,
                Some(ids) => match sp_lit(s, ids.0, l_node_id()) {
                    None => None,
                    Some(k1) => if k1 < s.len() && s[k1] == QUOTE {
                        match sp_string(s, k1 + 1) {
                            None => None,
                            Some(nid) => match sp_lit(s, nid.0, l_node_ids()) {
                                None => None,
                                Some(k2) => match sp_items(s, k2, true) {
                                    None => None,
                                    Some(items) => sp_finish(
                                        s,
                                        items.0,
                                        RawMessage {
                                            source: src,
                                            destination: dst,
                                            id: ids.1,
                                            in_reply_to: ids.2,
                                            payload: RawPayload::Init {
                                                node_id: nid.1,
                                                node_ids: items.1,
                                            },
                                        },
                                    ),
                                },
                            },
                        }
                    } else {
                        None
                    },
                },
            },
            None => match sp_lit(s, i, l_tag_echo()) {
                Some(j) => match sp_ids(s, j) {
                    None => None,
                    Some(ids) => match sp_echo_field(s, ids.0) {
                        None => None,
                        Some(e) => sp_finish(
                            s,
                            e.0,
                            RawMessage {
                                source: src,
                                destination: dst,
                                id: ids.1,
                                in_reply_to: ids.2,
                                payload: RawPayload::Echo { echo: e.1 },
                            },
                        ),
                    },
                },
                None => match sp_lit(s, i, l_tag_echo_ok()) {
                    Some(j) => match sp_ids(s, j) {
                        None => None,
                        Some(ids) => match sp_echo_field(s, ids.0) {
                            None => None,
                            Some(e) => sp_finish(
                                s,
                                e.0,
                                RawMessage {
                                    source: src,
                                    destination: dst,
                                    id: ids.1,
                                    in_reply_to: ids.2,
                                    payload: RawPayload::EchoOk { echo: e.1 },
                                },
                            ),
                        },
                    },
                    None => None,
                },
            },
        },
    }
}

/// Read one whole line as a message: the envelope's keys and strings, the
/// body between them, nothing after.
pub open spec fn sp_message(s: Seq<u8>) -> Option<RawMessage> {
    match sp_lit(s, 0, l_src()) {
        None => None,
        Some(i1) => if i1 < s.len() && s[i1] == QUOTE {
            match sp_string(s, i1 + 1) {
                None => None,
                Some(src) => match sp_lit(s, src.0, l_dest()) {
                    None => None,
                    Some(i2) => if i2 < s.len() && s[i2] == QUOTE {
                        match sp_string(s, i2 + 1) {
                            None => None,
                            Some(dst) => match sp_lit(s, dst.0, l_body()) {
                                None => None,
                                Some(i3) => sp_body(s, i3, src.1, dst.1),
                            },
                        }
                    } else {
                        None
                    },
                },
            }
        } else {
            None
        },
    }
}

/// Every string field the grammar read is valid UTF-8.
pub open spec fn raw_utf8_ok(r: RawMessage) -> bool {
    &&& valid_utf8(r.source)
    &&& valid_utf8(r.destination)
    &&& match r.payload {
        RawPayload::Init { node_id, node_ids } => valid_utf8(node_id) && all_items_utf8(node_ids),
        RawPayload::InitOk => true,
        RawPayload::Echo { echo } => valid_utf8(echo),
        RawPayload::EchoOk { echo } => valid_utf8(echo),
    }
}

// ---------------------------------------------------------------------------
// The executable parsers, each proved against its spec-level counterpart.
// ---------------------------------------------------------------------------

/// Match `lit` at `i`.
fn p_lit(s: &[u8], i: usize, lit: &Vec<u8>) -> (r: Option<usize>)
    ensures
        r matches Some(j) ==> sp_lit(s@, i as int, lit@) == Some(j as int) && i <= j <= s@.len(),
        r is None ==> sp_lit(s@, i as int, lit@) is None,
{
    if i > s.len() || s.len() - i < lit.len() {
        return None;
    }
    let mut k: usize = 0;
    while k < lit.len()
        invariant
            k <= lit@.len(),
            i + lit@.len() <= s@.len(),
            s@.len() <= usize::MAX,
            forall|t: int| 0 <= t < k ==> s@[i + t] == lit@[t],
        decreases lit@.len() - k,
    {
        if s[i + k] != lit[k] {
            proof {
                assert(s@.subrange(i as int, i + lit@.len())[k as int] == s@[i + k]);
            }
            return None;
        }
        k += 1;
    }
    proof {
        assert(s@.subrange(i as int, i + lit@.len()) =~= lit@);
    }
    Some(i + lit.len())
}

/// What the string scanner's loop still has ahead of it: reading on from
/// `cur` with `acc` already unescaped yields what reading from `i` yields.
pub open spec fn str_cont(s: Seq<u8>, i: int, cur: int, acc: Seq<u8>) -> bool {
    match sp_string(s, i) {
        Some(p) => sp_string(s, cur) matches Some(q) && p.0 == q.0 && p.1 == acc + q.1,
        None => sp_string(s, cur) is None,
    }
}

/// Read a JSON string's content at `i`, the opening quote already behind.
fn p_string(s: &[u8], i: usize) -> (r: Option<(usize, Vec<u8>)>)
    ensures
        r matches Some(p) ==> sp_string(s@, i as int) == Some((p.0 as int, p.1@)) && i < p.0
            <= s@.len(),
        r is None ==> sp_string(s@, i as int) is None,
{
    let mut acc: Vec<u8> = Vec::new();
    let mut cur: usize = i;
    loop
        invariant
            i <= cur,
            str_cont(s@, i as int, cur as int, acc@),
        decreases s@.len() - cur,
    {
        if cur >= s.len() {
            return None;
        }
        let b = s[cur];
        if b == QUOTE {
            proof {
                assert(acc@ + Seq::<u8>::empty() =~= acc@);
            }
            return Some((cur + 1, acc));
        } else if b == BACKSLASH {
            if s.len() - cur < 2 {
                return None;
            }
            let e = s[cur + 1];
            if e == 0x75 {
                if s.len() - cur < 6 {
                    return None;
                }
                let h1 = s[cur + 2];
                let h2 = s[cur + 3];
                let h3 = s[cur + 4];
                let h4 = s[cur + 5];
                if !(is_hex_x(h1) && is_hex_x(h2) && is_hex_x(h3) && is_hex_x(h4)) {
                    return None;
                }
                let v: u32 = (hex_val_x(h1) as u32) * 0x1000 + (hex_val_x(h2) as u32) * 0x100 + (
                hex_val_x(h3) as u32) * 0x10 + (hex_val_x(h4) as u32);
                if v >= 0x80 {
                    return None;
                }
                let ghost acc0 = acc@;
                acc.push(v as u8);
                proof {
                    let q = sp_string(s@, cur as int).unwrap();
                    let qn = sp_string(s@, cur as int + 6).unwrap();
                    assert(acc0 + (seq![v as u8] + qn.1) =~= acc@ + qn.1);
                }
                cur = cur + 6;
            } else {
                let u = match simple_unesc_x(e) {
                    Some(u) => u,
                    None => {
                        return None;
                    },
                };
                let ghost acc0 = acc@;
                acc.push(u);
                proof {
                    if sp_string(s@, cur as int) is Some {
                        let qn = sp_string(s@, cur as int + 2).unwrap();
                        assert(acc0 + (seq![u] + qn.1) =~= acc@ + qn.1);
                    }
                }
                cur = cur + 2;
            }
        } else if b < 0x20 {
            return None;
        } else {
            let ghost acc0 = acc@;
            acc.push(b);
            proof {
                if sp_string(s@, cur as int) is Some {
                    let qn = sp_string(s@, cur as int + 1).unwrap();
                    assert(acc0 + (seq![b] + qn.1) =~= acc@ + qn.1);
                }
            }
            cur = cur + 1;
        }
    }
}

/// Is `b` an ASCII hexadecimal digit?
fn is_hex_x(b: u8) -> (r: bool)
    ensures
        r == is_hex(b),
{
    (0x30 <= b && b <= 0x39) || (0x41 <= b && b <= 0x46) || (0x61 <= b && b <= 0x66)
}

/// The value of the hexadecimal digit `b`.
fn hex_val_x(b: u8) -> (v: u8)
    requires
        is_hex(b),
    ensures
        v as nat == hex_val(b),
        v < 16,
{
    if 0x30 <= b && b <= 0x39 {
        b - 0x30
    } else if 0x41 <= b && b <= 0x46 {
        b - 0x37
    } else {
        b - 0x57
    }
}

/// The byte a short escape stands for.
fn simple_unesc_x(e: u8) -> (r: Option<u8>)
    ensures
        r == simple_unesc(e),
{
    if e == QUOTE {
        Some(QUOTE)
    } else if e == BACKSLASH {
        Some(BACKSLASH)
    } else if e == 0x2F {
        Some(0x2F)
    } else if e == 0x62 {
        Some(0x08)
    } else if e == 0x74 {
        Some(0x09)
    } else if e == 0x6E {
        Some(0x0A)
    } else if e == 0x66 {
        Some(0x0C)
    } else if e == 0x72 {
        Some(0x0D)
    } else {
        None
    }
}

/// Read a message id at `i`, refusing one that does not fit its type.
fn p_number(s: &[u8], i: usize) -> (r: Option<(usize, usize)>)
    requires
        i <= s@.len(),
    ensures
        r matches Some(p) ==> sp_id_val(s@, i as int) == Some((p.0 as int, p.1)) && i < p.0
            <= s@.len(),
        r is None ==> sp_id_val(s@, i as int) is None,
{
    let mut j: usize = i;
    let mut acc: u128 = 0;
    let mut over: bool = false;
    while digit_at(s, j)
        invariant
            i <= j <= s@.len(),
            sp_digits_end(s@, i as int) == sp_digits_end(s@, j as int),
            forall|t: int| i <= t < j ==> is_digit(s@[t]),
            !over ==> acc as nat == digits_val(s@, i as int, j as int) && acc <= usize::MAX
                as u128,
            over ==> digits_val(s@, i as int, j as int) > usize::MAX,
        decreases s@.len() - j,
    {
        let b = s[j];
        let d = (b - 0x30) as u128;
        if !over {
            let na = acc * 10 + d;
            if na > (usize::MAX as u128) {
                over = true;
                proof {
                    assert(digits_val(s@, i as int, j as int + 1) == digits_val(
                        s@,
                        i as int,
                        j as int,
                    ) * 10 + (b - 0x30) as nat);
                }
            } else {
                acc = na;
            }
        } else {
            proof {
                assert(digits_val(s@, i as int, j as int + 1) >= digits_val(
                    s@,
                    i as int,
                    j as int,
                ));
            }
        }
        j += 1;
    }
    if j == i {
        return None;
    }
    if s[i] == 0x30 && j > i + 1 {
        return None;
    }
    if over {
        return None;
    }
    Some((j, acc as usize))
}

/// Does a decimal digit stand at `j`?
fn digit_at(s: &[u8], j: usize) -> (r: bool)
    ensures
        r == (j < s@.len() && is_digit(s@[j as int])),
{
    j < s.len() && 0x30 <= s[j] && s[j] <= 0x39
}

/// Read an optional id field at `i`.
fn p_opt_id(s: &[u8], i: usize, key: &Vec<u8>) -> (r: Option<(usize, Option<usize>)>)
    requires
        i <= s@.len(),
    ensures
        r matches Some(p) ==> sp_opt_id(s@, i as int, key@) == Some((p.0 as int, p.1)) && i <= p.0
            <= s@.len(),
        r is None ==> sp_opt_id(s@, i as int, key@) is None,
{
    match p_lit(s, i, key) {
        None => Some((i, None)),
        Some(j) => {
            let nul = l_null_vec();
            match p_lit(s, j, &nul) {
                Some(k) => Some((k, None)),
                None => match p_number(s, j) {
                    Some(p) => Some((p.0, Some(p.1))),
                    None => None,
                },
            }
        },
    }
}

/// What the array loop still has ahead of it, like [`str_cont`].
pub open spec fn items_cont(
    s: Seq<u8>,
    i: int,
    cur: int,
    first: bool,
    acc: Seq<Seq<u8>>,
) -> bool {
    match sp_items(s, i, true) {
        Some(p) => sp_items(s, cur, first) matches Some(q) && p.0 == q.0 && p.1 == acc + q.1,
        None => sp_items(s, cur, first) is None,
    }
}

/// Read the rest of a string array at `i`, the opening bracket behind.
fn p_items(s: &[u8], i: usize) -> (r: Option<(usize, Vec<Vec<u8>>)>)
    requires
        i <= s@.len(),
    ensures
        r matches Some(p) ==> sp_items(s@, i as int, true) == Some((p.0 as int, p.1.deep_view()))
            && i < p.0 <= s@.len(),
        r is None ==> sp_items(s@, i as int, true) is None,
{
    let mut acc: Vec<Vec<u8>> = Vec::new();
    let mut cur: usize = i;
    let mut first: bool = true;
    loop
        invariant
            i <= cur,
            items_cont(s@, i as int, cur as int, first, acc.deep_view()),
        decreases s@.len() - cur,
    {
        if cur >= s.len() {
            return None;
        }
        if s[cur] == RBRACKET {
            proof {
                assert(acc.deep_view() + Seq::<Seq<u8>>::empty() =~= acc.deep_view());
            }
            return Some((cur + 1, acc));
        }
        let j: usize = if first {
            cur
        } else {
            if s[cur] != COMMA {
                return None;
            }
            cur + 1
        };
        if j >= s.len() {
            return None;
        }
        if s[j] != QUOTE {
            return None;
        }
        match p_string(s, j + 1) {
            None => {
                return None;
            },
            Some((k, item)) => {
                let ghost acc0 = acc.deep_view();
                let ghost itemv = item@;
                acc.push(item);
                proof {
                    assert(acc.deep_view() =~~= acc0 + seq![itemv]);
                    if sp_items(s@, i as int, true) is Some {
                        let qn = sp_items(s@, k as int, false).unwrap();
                        assert(acc0 + (seq![itemv] + qn.1) =~= acc.deep_view() + qn.1);
                    }
                }
                first = false;
                cur = k;
            },
        }
    }
}

/// Read the two optional id fields at `i`.
fn p_ids(s: &[u8], i: usize) -> (r: Option<(usize, Option<usize>, Option<usize>)>)
    requires
        i <= s@.len(),
    ensures
        r matches Some(p) ==> sp_ids(s@, i as int) == Some((p.0 as int, p.1, p.2)) && i <= p.0
            <= s@.len(),
        r is None ==> sp_ids(s@, i as int) is None,
{
    let key1 = l_msg_id_vec();
    match p_opt_id(s, i, &key1) {
        None => None,
        Some((a0, a1)) => {
            let key2 = l_in_reply_to_vec();
            match p_opt_id(s, a0, &key2) {
                None => None,
                Some((b0, b1)) => Some((b0, a1, b1)),
            }
        },
    }
}

/// Read an `echo` field at `k`.
fn p_echo_field(s: &[u8], k: usize) -> (r: Option<(usize, Vec<u8>)>)
    requires
        k <= s@.len(),
    ensures
        r matches Some(p) ==> sp_echo_field(s@, k as int) == Some((p.0 as int, p.1@)) && k < p.0
            <= s@.len(),
        r is None ==> sp_echo_field(s@, k as int) is None,
{
    let key = l_echo_vec();
    match p_lit(s, k, &key) {
        None => None,
        Some(k1) => {
            if k1 >= s.len() {
                return None;
            }
            if s[k1] != QUOTE {
                return None;
            }
            p_string(s, k1 + 1)
        },
    }
}

/// Read the closing braces at `k` and demand the line's end there.
fn p_finish(s: &[u8], k: usize) -> (ok: bool)
    requires
        k <= s@.len(),
    ensures
        ok <==> (sp_lit(s@, k as int, l_close()) matches Some(e) && e == s@.len()),
{
    let key = l_close_vec();
    match p_lit(s, k, &key) {
        Some(e) => e == s.len(),
        None => false,
    }
}

/// The message a raw record denotes: each string field UTF-8 decoded.
pub open spec fn raw_view(r: RawMessage) -> MessageView {
    MessageView {
        source: decode_utf8(r.source),
        destination: decode_utf8(r.destination),
        body: BodyView {
            id: r.id,
            in_reply_to: r.in_reply_to,
            payload: match r.payload {
                RawPayload::Init { node_id, node_ids } => PayloadView::Init {
                    node_id: decode_utf8(node_id),
                    node_ids: node_ids.map_values(|b: Seq<u8>| decode_utf8(b)),
                },
                RawPayload::InitOk => PayloadView::InitOk,
                RawPayload::Echo { echo } => PayloadView::Echo { echo: decode_utf8(echo) },
                RawPayload::EchoOk { echo } => PayloadView::EchoOk { echo: decode_utf8(echo) },
            },
        },
    }
}

/// The record is not a well-formed message in the wire form this codec
/// accepts.
#[derive(Clone, Copy, Debug, PartialEq, Eq, Structural)]
pub struct DecodeError;

/// Relies on `String::from_utf8`: it succeeds exactly on bytes that are
/// valid UTF-8 and returns the string of the decoded characters.
#[verifier::external_body]
fn bytes_to_string(v: &Vec<u8>) -> (r: Option<String>)
    ensures
        r is Some <==> valid_utf8(v@),
        r matches Some(s) ==> s@ == decode_utf8(v@),
{
    String::from_utf8(v.clone()).ok()
}

/// Every byte sequence among `items` is valid UTF-8.
pub open spec fn all_items_utf8(items: Seq<Seq<u8>>) -> bool {
    forall|t: int| 0 <= t < items.len() ==> valid_utf8(#[trigger] items[t])
}

/// Turn the raw string items into strings, in order; fails exactly when one
/// of them is not valid UTF-8.
fn items_to_strings(items: &Vec<Vec<u8>>) -> (r: Option<Vec<String>>)
    ensures
        r is Some <==> all_items_utf8(items.deep_view()),
        r matches Some(v) ==> v.deep_view() == items.deep_view().map_values(
            |b: Seq<u8>| decode_utf8(b),
        ),
{
    let mut out: Vec<String> = Vec::new();
    let mut t: usize = 0;
    while t < items.len()
        invariant
            t <= items@.len(),
            out@.len() == t,
            forall|u: int|
                0 <= u < t ==> valid_utf8(#[trigger] items.deep_view()[u]) && out@[u]@
                    == decode_utf8(items.deep_view()[u]),
        decreases items@.len() - t,
    {
        proof {
            assert(items.deep_view()[t as int] == items@[t as int].deep_view());
            assert(items@[t as int].deep_view() =~= items@[t as int]@);
        }
        match bytes_to_string(&items[t]) {
            Some(s) => {
                out.push(s);
            },
            None => {
                proof {
                    assert(!valid_utf8(items.deep_view()[t as int]));
                    assert(!all_items_utf8(items.deep_view()));
                }
                return None;
            },
        }
        t += 1;
    }
    proof {
        assert forall|u: int| 0 <= u < out@.len() implies #[trigger] out.deep_view()[u]
            == decode_utf8(items.deep_view()[u]) by {
            assert(out.deep_view()[u] == out@[u].deep_view());
        }
        assert(out.deep_view() =~= items.deep_view().map_values(|b: Seq<u8>| decode_utf8(b)));
    }
    Some(out)
}

/// Decode one line's bytes into a message.
///
/// Succeeds exactly on a line of the shape [`sp_message`] reads whose string
/// fields are valid UTF-8, and yields exactly the message that line spells.
pub fn decode_message(line: &[u8]) -> (r: Result<Message, DecodeError>)
    ensures
        r is Ok <==> (sp_message(line@) matches Some(raw) && raw_utf8_ok(raw)),
        r matches Ok(m) ==> (sp_message(line@) matches Some(raw) && m@ == raw_view(raw)),
{
    let l_src_v = l_src_vec();
    let i1 = match p_lit(line, 0, &l_src_v) {
        Some(j) => j,
        None => {
            return Err(DecodeError);
        },
    };
    if i1 >= line.len() {
        return Err(DecodeError);
    }
    if line[i1] != QUOTE {
        return Err(DecodeError);
    }
    let (src_end, src_b) = match p_string(line, i1 + 1) {
        Some(p) => p,
        None => {
            return Err(DecodeError);
        },
    };
    let l_dest_v = l_dest_vec();
    let i2 = match p_lit(line, src_end, &l_dest_v) {
        Some(j) => j,
        None => {
            return Err(DecodeError);
        },
    };
    if i2 >= line.len() {
        return Err(DecodeError);
    }
    if line[i2] != QUOTE {
        return Err(DecodeError);
    }
    let (dst_end, dst_b) = match p_string(line, i2 + 1) {
        Some(p) => p,
        None => {
            return Err(DecodeError);
        },
    };
    let l_body_v = l_body_vec();
    let i3 = match p_lit(line, dst_end, &l_body_v) {
        Some(j) => j,
        None => {
            return Err(DecodeError);
        },
    };
    let tag_init_ok_v = l_tag_init_ok_vec();
    if let Some(j) = p_lit(line, i3, &tag_init_ok_v) {
        let (k, id, irt) = match p_ids(line, j) {
            Some(p) => p,
            None => {
                return Err(DecodeError);
            },
        };
        if !p_finish(line, k) {
            return Err(DecodeError);
        }
        let source = match bytes_to_string(&src_b) {
            Some(s) => s,
            None => {
                return Err(DecodeError);
            },
        };
        let destination = match bytes_to_string(&dst_b) {
            Some(s) => s,
            None => {
                return Err(DecodeError);
            },
        };
        return Ok(
            Message {
                source,
                destination,
                body: Body { id, in_reply_to: irt, payload: Payload::InitOk },
            },
        );
    }
    let tag_init_v = l_tag_init_vec();
    if let Some(j) = p_lit(line, i3, &tag_init_v) {
        let (k, id, irt) = match p_ids(line, j) {
            Some(p) => p,
            None => {
                return Err(DecodeError);
            },
        };
        let l_node_id_v = l_node_id_vec();
        let k1 = match p_lit(line, k, &l_node_id_v) {
            Some(p) => p,
            None => {
                return Err(DecodeError);
            },
        };
        if k1 >= line.len() {
            return Err(DecodeError);
        }
        if line[k1] != QUOTE {
            return Err(DecodeError);
        }
        let (k2p, nid_b) = match p_string(line, k1 + 1) {
            Some(p) => p,
            None => {
                return Err(DecodeError);
            },
        };
        let l_node_ids_v = l_node_ids_vec();
        let k2 = match p_lit(line, k2p, &l_node_ids_v) {
            Some(p) => p,
            None => {
                return Err(DecodeError);
            },
        };
        let (k3, items) = match p_items(line, k2) {
            Some(p) => p,
            None => {
                return Err(DecodeError);
            },
        };
        if !p_finish(line, k3) {
            return Err(DecodeError);
        }
        let source = match bytes_to_string(&src_b) {
            Some(s) => s,
            None => {
                return Err(DecodeError);
            },
        };
        let destination = match bytes_to_string(&dst_b) {
            Some(s) => s,
            None => {
                return Err(DecodeError);
            },
        };
        let node_id = match bytes_to_string(&nid_b) {
            Some(s) => s,
            None => {
                return Err(DecodeError);
            },
        };
        let node_ids = match items_to_strings(&items) {
            Some(v) => v,
            None => {
                return Err(DecodeError);
            },
        };
        return Ok(
            Message {
                source,
                destination,
                body: Body {
                    id,
                    in_reply_to: irt,
                    payload: Payload::Init { node_id, node_ids },
                },
            },
        );
    }
    let tag_echo_v = l_tag_echo_vec();
    if let Some(j) = p_lit(line, i3, &tag_echo_v) {
        let (k, id, irt) = match p_ids(line, j) {
            Some(p) => p,
            None => {
                return Err(DecodeError);
            },
        };
        let (k2, echo_b) = match p_echo_field(line, k) {
            Some(p) => p,
            None => {
                return Err(DecodeError);
            },
        };
        if !p_finish(line, k2) {
            return Err(DecodeError);
        }
        let source = match bytes_to_string(&src_b) {
            Some(s) => s,
            None => {
                return Err(DecodeError);
            },
        };
        let destination = match bytes_to_string(&dst_b) {
            Some(s) => s,
            None => {
                return Err(DecodeError);
            },
        };
        let echo = match bytes_to_string(&echo_b) {
            Some(s) => s,
            None => {
                return Err(DecodeError);
            },
        };
        return Ok(
            Message {
                source,
                destination,
                body: Body { id, in_reply_to: irt, payload: Payload::Echo { echo } },
            },
        );
    }
    let tag_echo_ok_v = l_tag_echo_ok_vec();
    if let Some(j) = p_lit(line, i3, &tag_echo_ok_v) {
        let (k, id, irt) = match p_ids(line, j) {
            Some(p) => p,
            None => {
                return Err(DecodeError);
            },
        };
        let (k2, echo_b) = match p_echo_field(line, k) {
            Some(p) => p,
            None => {
                return Err(DecodeError);
            },
        };
        if !p_finish(line, k2) {
            return Err(DecodeError);
        }
        let source = match bytes_to_string(&src_b) {
            Some(s) => s,
            None => {
                return Err(DecodeError);
            },
        };
        let destination = match bytes_to_string(&dst_b) {
            Some(s) => s,
            None => {
                return Err(DecodeError);
            },
        };
        let echo = match bytes_to_string(&echo_b) {
            Some(s) => s,
            None => {
                return Err(DecodeError);
            },
        };
        return Ok(
            Message {
                source,
                destination,
                body: Body { id, in_reply_to: irt, payload: Payload::EchoOk { echo } },
            },
        );
    }
    Err(DecodeError)
}

// ---------------------------------------------------------------------------
// The codec inverts itself: what the encoder writes, the decoder reads back.
// ---------------------------------------------------------------------------

/// The bytes of `s` from `i` on begin with `piece`.
pub open spec fn bytes_at(s: Seq<u8>, i: int, piece: Seq<u8>) -> bool {
    0 <= i && i + piece.len() <= s.len() && s.subrange(i, i + piece.len()) == piece
}

/// A concatenation standing at `i` is its parts standing side by side.
proof fn lemma_bytes_at_split(s: Seq<u8>, i: int, a: Seq<u8>, b: Seq<u8>)
    requires
        bytes_at(s, i, a + b),
    ensures
        bytes_at(s, i, a),
        bytes_at(s, i + a.len(), b),
{
    let ab = a + b;
    assert forall|t: int| 0 <= t < a.len() implies s[i + t] == a[t] by {
        assert(s.subrange(i, i + ab.len())[t] == ab[t]);
    }
    assert forall|t: int| 0 <= t < b.len() implies s[i + a.len() + t] == b[t] by {
        assert(s.subrange(i, i + ab.len())[a.len() + t] == ab[a.len() + t]);
    }
    assert(s.subrange(i, i + a.len()) =~= a);
    assert(s.subrange(i + a.len(), i + a.len() + b.len()) =~= b);
}

/// A piece standing at `i` fixes each of `s`'s bytes under it.
proof fn lemma_bytes_at_index(s: Seq<u8>, i: int, piece: Seq<u8>, t: int)
    requires
        bytes_at(s, i, piece),
        0 <= t < piece.len(),
    ensures
        s[i + t] == piece[t],
{
    assert(s.subrange(i, i + piece.len())[t] == piece[t]);
}

/// Escaping can also be unfolded from the front.
proof fn lemma_esc_bytes_first(b: Seq<u8>)
    requires
        b.len() > 0,
    ensures
        esc_bytes(b) == esc_byte(b[0]) + esc_bytes(b.drop_first()),
    decreases b.len(),
{
    if b.len() == 1 {
        assert(b.drop_last() =~= Seq::<u8>::empty());
        assert(b.drop_first() =~= Seq::<u8>::empty());
        assert(esc_bytes(b) =~= esc_byte(b[0]) + esc_bytes(b.drop_first()));
    } else {
        lemma_esc_bytes_first(b.drop_last());
        assert(b.drop_last().drop_first() =~= b.drop_first().drop_last());
        assert(b.drop_last()[0] == b[0]);
        assert(b.drop_first().last() == b.last());
        assert(esc_bytes(b) =~= esc_byte(b[0]) + esc_bytes(b.drop_first()));
    }
}

/// The two hexadecimal digits the encoder writes read back as themselves.
proof fn lemma_hex_digit_inverse(n: nat)
    requires
        n < 16,
    ensures
        is_hex(hex_digit(n)),
        hex_val(hex_digit(n)) == n,
{
}

/// Scanning escaped content up to a closing quote undoes the escaping.
proof fn lemma_scan_escaped(s: Seq<u8>, i: int, b: Seq<u8>)
    requires
        bytes_at(s, i, esc_bytes(b)),
        i + esc_bytes(b).len() < s.len(),
        s[i + esc_bytes(b).len()] == QUOTE,
    ensures
        sp_string(s, i) == Some((i + esc_bytes(b).len() + 1, b)),
    decreases b.len(),
{
    if b.len() == 0 {
        assert(s[i] == QUOTE);
        assert(Seq::<u8>::empty() =~= b);
    } else {
        let b0 = b[0];
        let eb = esc_byte(b0);
        let rest = b.drop_first();
        lemma_esc_bytes_first(b);
        lemma_bytes_at_split(s, i, eb, esc_bytes(rest));
        assert forall|t: int| 0 <= t < eb.len() implies s[i + t] == eb[t] by {
            lemma_bytes_at_index(s, i, eb, t);
        }
        assert(s[i] == eb[0]) by {
            lemma_bytes_at_index(s, i, eb, 0);
        }
        if eb.len() >= 2 {
            assert(s[i + 1] == eb[1]) by {
                lemma_bytes_at_index(s, i, eb, 1);
            }
        }
        lemma_scan_escaped(s, i + eb.len(), rest);
        if eb.len() == 1 {
            // the byte stands for itself: no quote, backslash or control byte
            assert(s[i] == b0);
            assert(b0 != QUOTE && b0 != BACKSLASH && !(b0 < 0x20));
            assert(seq![b0] + rest =~= b);
        } else if eb.len() == 2 {
            assert(s[i] == BACKSLASH);
            assert(simple_unesc(s[i + 1]) == Some(b0));
            assert(seq![b0] + rest =~= b);
        } else {
            // the `\u00..` form of a control byte
            assert(s[i] == BACKSLASH && s[i + 1] == 0x75);
            lemma_hex_digit_inverse((b0 / 16) as nat);
            lemma_hex_digit_inverse((b0 % 16) as nat);
            assert(s[i + 2] == 0x30 && s[i + 3] == 0x30);
            assert(hex_val(s[i + 4]) == b0 / 16 && hex_val(s[i + 5]) == b0 % 16);
            assert(hex_val(s[i + 2]) * 0x1000 + hex_val(s[i + 3]) * 0x100 + hex_val(s[i + 4])
                * 0x10 + hex_val(s[i + 5]) == b0);
            assert(seq![b0] + rest =~= b);
        }
    }
}

/// Every byte the encoder writes for a number is a decimal digit, and the
/// leading one is zero only for the number zero itself.
proof fn lemma_dec_digits_are_digits(n: nat)
    ensures
        dec_digits(n).len() >= 1,
        forall|t: int| 0 <= t < dec_digits(n).len() ==> is_digit(#[trigger] dec_digits(n)[t]),
        n > 0 ==> dec_digits(n)[0] != 0x30,
        n < 10 ==> dec_digits(n).len() == 1,
    decreases n,
{
    if n >= 10 {
        lemma_dec_digits_are_digits(n / 10);
        assert forall|t: int| 0 <= t < dec_digits(n).len() implies is_digit(
            #[trigger] dec_digits(n)[t],
        ) by {
            if t < dec_digits(n / 10).len() {
                assert(dec_digits(n)[t] == dec_digits(n / 10)[t]);
            } else {
                assert(dec_digits(n)[t] == (0x30 + n % 10) as u8);
            }
        }
        assert(dec_digits(n)[0] == dec_digits(n / 10)[0]);
    }
}

/// A run of digits bounded by a non-digit ends the scan exactly there.
proof fn lemma_digits_end_run(s: Seq<u8>, i: int, j: int)
    requires
        0 <= i <= j <= s.len(),
        forall|t: int| i <= t < j ==> is_digit(#[trigger] s[t]),
        j == s.len() || !is_digit(s[j]),
    ensures
        sp_digits_end(s, i) == j,
    decreases j - i,
{
    if i < j {
        lemma_digits_end_run(s, i + 1, j);
    }
}

/// The digits the encoder writes for `n` read back as the value `n`.
proof fn lemma_digits_val_inverse(s: Seq<u8>, i: int, n: nat)
    requires
        bytes_at(s, i, dec_digits(n)),
    ensures
        digits_val(s, i, i + dec_digits(n).len()) == n,
    decreases n,
{
    if n < 10 {
        lemma_bytes_at_index(s, i, dec_digits(n), 0);
        assert(s[i] == (0x30 + n) as u8);
        assert(digits_val(s, i, i + 1) == digits_val(s, i, i) * 10 + (s[i] - 0x30) as nat);
    } else {
        let l10 = dec_digits(n / 10).len() as int;
        lemma_bytes_at_split(s, i, dec_digits(n / 10), seq![(0x30 + n % 10) as u8]);
        lemma_digits_val_inverse(s, i, n / 10);
        lemma_bytes_at_index(s, i + l10, seq![(0x30 + n % 10) as u8], 0);
        assert(s[i + l10] == (0x30 + n % 10) as u8);
        assert(dec_digits(n).len() == l10 + 1);
        assert(digits_val(s, i, i + l10 + 1) == digits_val(s, i, i + l10) * 10 + (s[i + l10]
            - 0x30) as nat);
    }
}

/// A number the encoder wrote, bounded by a non-digit, scans back to it.
proof fn lemma_scan_number(s: Seq<u8>, i: int, n: nat)
    requires
        bytes_at(s, i, dec_digits(n)),
        n <= usize::MAX,
        i + dec_digits(n).len() == s.len() || !is_digit(s[i + dec_digits(n).len()]),
    ensures
        sp_id_val(s, i) == Some((i + dec_digits(n).len(), n as usize)),
{
    let j = i + dec_digits(n).len();
    lemma_dec_digits_are_digits(n);
    assert forall|t: int| i <= t < j implies is_digit(#[trigger] s[t]) by {
        lemma_bytes_at_index(s, i, dec_digits(n), t - i);
    }
    lemma_digits_end_run(s, i, j);
    lemma_digits_val_inverse(s, i, n);
    lemma_bytes_at_index(s, i, dec_digits(n), 0);
    if n == 0 {
        assert(dec_digits(n).len() == 1);
    } else {
        assert(s[i] != 0x30);
    }
}

/// An id field the encoder wrote, key and value, reads back as that id.
proof fn lemma_scan_opt_id(s: Seq<u8>, i: int, key: Seq<u8>, o: Option<usize>)
    requires
        bytes_at(s, i, key),
        bytes_at(s, i + key.len(), enc_opt_id(o)),
        key.len() > 0,
        i + key.len() + enc_opt_id(o).len() == s.len() || !is_digit(
            s[i + key.len() + enc_opt_id(o).len()],
        ),
    ensures
        sp_opt_id(s, i, key) == Some((i + key.len() + enc_opt_id(o).len(), o)),
{
    let j = i + key.len();
    assert(sp_lit(s, i, key) == Some(j));
    match o {
        None => {
            assert(sp_lit(s, j, l_null()) == Some(j + 4));
        },
        Some(n) => {
            lemma_dec_digits_are_digits(n as nat);
            lemma_bytes_at_index(s, j, dec_digits(n as nat), 0);
            assert(sp_lit(s, j, l_null()) is None) by {
                if sp_lit(s, j, l_null()) is Some {
                    assert(s.subrange(j, j + 4)[0] == l_null()[0]);
                }
            }
            lemma_scan_number(s, j, n as nat);
        },
    }
}

/// A quoted string the encoder wrote scans back to its raw bytes.
proof fn lemma_scan_quoted(s: Seq<u8>, i: int, x: Seq<char>)
    requires
        bytes_at(s, i, quoted(x)),
    ensures
        i < s.len(),
        s[i] == QUOTE,
        sp_string(s, i + 1) == Some((i + quoted(x).len(), encode_utf8(x))),
{
    let esc = esc_bytes(encode_utf8(x));
    lemma_bytes_at_split(s, i, seq![QUOTE] + esc, seq![QUOTE]);
    lemma_bytes_at_split(s, i, seq![QUOTE], esc);
    lemma_bytes_at_index(s, i, seq![QUOTE], 0);
    lemma_bytes_at_index(s, i + 1 + esc.len(), seq![QUOTE], 0);
    lemma_scan_escaped(s, i + 1, encode_utf8(x));
}

/// The comma-led items that follow the first one in a written array.
pub open spec fn enc_more_items(ids: Seq<Seq<char>>) -> Seq<u8>
    decreases ids.len(),
{
    if ids.len() == 0 {
        Seq::empty()
    } else {
        seq![COMMA] + quoted(ids[0]) + enc_more_items(ids.drop_first())
    }
}

/// Appending one more item to the comma-led rest of an array.
proof fn lemma_enc_more_snoc(ids: Seq<Seq<char>>, x: Seq<char>)
    ensures
        enc_more_items(ids.push(x)) == enc_more_items(ids) + seq![COMMA] + quoted(x),
    decreases ids.len(),
{
    if ids.len() == 0 {
        assert(ids.push(x).drop_first() =~= Seq::<Seq<char>>::empty());
        assert(ids.push(x)[0] == x);
        assert(enc_more_items(Seq::<Seq<char>>::empty()) == Seq::<u8>::empty());
        assert(enc_more_items(ids.push(x)) == seq![COMMA] + quoted(x) + Seq::<u8>::empty());
        assert(enc_more_items(ids.push(x)) =~= enc_more_items(ids) + seq![COMMA] + quoted(x));
    } else {
        lemma_enc_more_snoc(ids.drop_first(), x);
        assert(ids.push(x).drop_first() =~= ids.drop_first().push(x));
        assert(ids.push(x)[0] == ids[0]);
        let head = seq![COMMA] + quoted(ids[0]);
        let rest = enc_more_items(ids.drop_first());
        assert(enc_more_items(ids.push(x)) == head + ((rest + seq![COMMA]) + quoted(x)));
        vstd::seq_lib::lemma_concat_associative(head, rest + seq![COMMA], quoted(x));
        vstd::seq_lib::lemma_concat_associative(head, rest, seq![COMMA]);
    }
}

/// A written item list is its first item and the comma-led rest.
proof fn lemma_enc_items_unfold(ids: Seq<Seq<char>>)
    requires
        ids.len() > 0,
    ensures
        enc_string_items(ids) == quoted(ids[0]) + enc_more_items(ids.drop_first()),
    decreases ids.len(),
{
    if ids.len() == 1 {
        assert(ids.drop_first() =~= Seq::<Seq<char>>::empty());
        assert(enc_string_items(ids) =~= quoted(ids[0]) + enc_more_items(ids.drop_first()));
    } else {
        lemma_enc_items_unfold(ids.drop_last());
        lemma_enc_more_snoc(ids.drop_last().drop_first(), ids.last());
        assert(ids.drop_last().drop_first().push(ids.last()) =~= ids.drop_first());
        assert(ids.drop_last()[0] == ids[0]);
        assert(enc_string_items(ids) =~= quoted(ids[0]) + enc_more_items(ids.drop_first()));
    }
}

/// Comma-led items up to the closing bracket scan back, in order.
proof fn lemma_scan_more_items(s: Seq<u8>, i: int, ids: Seq<Seq<char>>)
    requires
        bytes_at(s, i, enc_more_items(ids)),
        i + enc_more_items(ids).len() < s.len(),
        s[i + enc_more_items(ids).len()] == RBRACKET,
    ensures
        sp_items(s, i, false) == Some(
            (
                i + enc_more_items(ids).len() + 1,
                ids.map_values(|x: Seq<char>| encode_utf8(x)),
            ),
        ),
    decreases ids.len(),
{
    if ids.len() == 0 {
        assert(s[i] == RBRACKET);
        assert(ids.map_values(|x: Seq<char>| encode_utf8(x)) =~= Seq::<Seq<u8>>::empty());
    } else {
        let rest = ids.drop_first();
        lemma_bytes_at_split(s, i, seq![COMMA] + quoted(ids[0]), enc_more_items(rest));
        lemma_bytes_at_split(s, i, seq![COMMA], quoted(ids[0]));
        lemma_bytes_at_index(s, i, seq![COMMA], 0);
        lemma_scan_quoted(s, i + 1, ids[0]);
        lemma_scan_more_items(s, i + 1 + quoted(ids[0]).len(), rest);
        assert(seq![encode_utf8(ids[0])] + rest.map_values(|x: Seq<char>| encode_utf8(x)) =~= ids
            .map_values(|x: Seq<char>| encode_utf8(x)));
    }
}

/// A written item list up to the closing bracket scans back, in order.
proof fn lemma_scan_items(s: Seq<u8>, i: int, ids: Seq<Seq<char>>)
    requires
        bytes_at(s, i, enc_string_items(ids)),
        i + enc_string_items(ids).len() < s.len(),
        s[i + enc_string_items(ids).len()] == RBRACKET,
    ensures
        sp_items(s, i, true) == Some(
            (
                i + enc_string_items(ids).len() + 1,
                ids.map_values(|x: Seq<char>| encode_utf8(x)),
            ),
        ),
{
    if ids.len() == 0 {
        assert(s[i] == RBRACKET);
        assert(ids.map_values(|x: Seq<char>| encode_utf8(x)) =~= Seq::<Seq<u8>>::empty());
    } else {
        let rest = ids.drop_first();
        lemma_enc_items_unfold(ids);
        lemma_bytes_at_split(s, i, quoted(ids[0]), enc_more_items(rest));
        lemma_scan_quoted(s, i, ids[0]);
        lemma_scan_more_items(s, i + quoted(ids[0]).len(), rest);
        assert(seq![encode_utf8(ids[0])] + rest.map_values(|x: Seq<char>| encode_utf8(x)) =~= ids
            .map_values(|x: Seq<char>| encode_utf8(x)));
    }
}

/// A literal cannot stand at `i` where some byte under it differs.
proof fn lemma_lit_mismatch(s: Seq<u8>, i: int, lit: Seq<u8>, t: int, b: u8)
    requires
        0 <= i,
        0 <= t < lit.len(),
        i + t < s.len(),
        s[i + t] == b,
        lit[t] != b,
    ensures
        sp_lit(s, i, lit) is None,
{
    if sp_lit(s, i, lit) is Some {
        assert(s.subrange(i, i + lit.len())[t] == lit[t]);
    }
}

/// Where the two id fields the encoder wrote, beginning at `i`, end.
pub open spec fn ids_end(i: int, id: Option<usize>, irt: Option<usize>) -> int {
    i + l_msg_id().len() + enc_opt_id(id).len() + l_in_reply_to().len() + enc_opt_id(irt).len()
}

/// The two id fields the encoder wrote read back as those ids.
proof fn lemma_scan_ids(s: Seq<u8>, i: int, id: Option<usize>, irt: Option<usize>)
    requires
        bytes_at(s, i, l_msg_id()),
        bytes_at(s, i + l_msg_id().len(), enc_opt_id(id)),
        bytes_at(s, i + l_msg_id().len() + enc_opt_id(id).len(), l_in_reply_to()),
        bytes_at(s, ids_end(i, id, irt) - enc_opt_id(irt).len(), enc_opt_id(irt)),
        ids_end(i, id, irt) == s.len() || !is_digit(s[ids_end(i, id, irt)]),
    ensures
        sp_ids(s, i) == Some((ids_end(i, id, irt), id, irt)),
{
    let j = i + l_msg_id().len() + enc_opt_id(id).len();
    // the byte after the first id is the comma opening the second key
    lemma_bytes_at_index(s, j, l_in_reply_to(), 0);
    lemma_scan_opt_id(s, i, l_msg_id(), id);
    lemma_scan_opt_id(s, j, l_in_reply_to(), irt);
}

/// Where the quoted `type` tag stands in the wire form of `m`.
pub open spec fn off_tag(m: MessageView) -> int {
    l_src().len() + quoted(m.source).len() + l_dest().len() + quoted(m.destination).len()
        + l_body().len() as int
}

/// Where the id fields stand in the wire form of `m`.
pub open spec fn off_ids(m: MessageView) -> int {
    off_tag(m) + tag_lit(m.body.payload).len() as int
}

/// Where the payload's own fields stand in the wire form of `m`.
pub open spec fn off_payload(m: MessageView) -> int {
    ids_end(off_ids(m), m.body.id, m.body.in_reply_to)
}

/// Where the closing braces stand in the wire form of `m`.
pub open spec fn off_close(m: MessageView) -> int {
    off_payload(m) + enc_payload_fields(m.body.payload).len() as int
}

/// The envelope of the wire form of `m` scans back, leaving the body at
/// [`off_tag`], with each later piece standing at its place.
#[verifier::rlimit(100)]
proof fn lemma_scan_envelope(m: MessageView)
    ensures
        sp_message(spec_encode(m)) == sp_body(
            spec_encode(m),
            off_tag(m),
            encode_utf8(m.source),
            encode_utf8(m.destination),
        ),
        bytes_at(spec_encode(m), off_tag(m), tag_lit(m.body.payload)),
        bytes_at(spec_encode(m), off_ids(m), l_msg_id()),
        bytes_at(spec_encode(m), off_ids(m) + l_msg_id().len(), enc_opt_id(m.body.id)),
        bytes_at(
            spec_encode(m),
            off_ids(m) + l_msg_id().len() + enc_opt_id(m.body.id).len(),
            l_in_reply_to(),
        ),
        bytes_at(
            spec_encode(m),
            off_payload(m) - enc_opt_id(m.body.in_reply_to).len(),
            enc_opt_id(m.body.in_reply_to),
        ),
        bytes_at(spec_encode(m), off_payload(m), enc_payload_fields(m.body.payload)),
        bytes_at(spec_encode(m), off_close(m), l_close()),
        off_close(m) + l_close().len() == spec_encode(m).len(),
{
    reveal(spec_encode);
    let s = spec_encode(m);
    let p = m.body.payload;
    let h1 = l_src();
    let h2 = h1 + quoted(m.source);
    let h3 = h2 + l_dest();
    let h4 = h3 + quoted(m.destination);
    let h5 = h4 + l_body();
    let h6 = h5 + tag_lit(p);
    let h7 = h6 + l_msg_id();
    let h8 = h7 + enc_opt_id(m.body.id);
    let h9 = h8 + l_in_reply_to();
    let h10 = h9 + enc_opt_id(m.body.in_reply_to);
    let h11 = h10 + enc_payload_fields(p);
    assert(bytes_at(s, 0, h11 + l_close())) by {
        assert(s.subrange(0, s.len() as int) =~= s);
    }
    lemma_bytes_at_split(s, 0, h11, l_close());
    lemma_bytes_at_split(s, 0, h10, enc_payload_fields(p));
    lemma_bytes_at_split(s, 0, h9, enc_opt_id(m.body.in_reply_to));
    lemma_bytes_at_split(s, 0, h8, l_in_reply_to());
    lemma_bytes_at_split(s, 0, h7, enc_opt_id(m.body.id));
    lemma_bytes_at_split(s, 0, h6, l_msg_id());
    lemma_bytes_at_split(s, 0, h5, tag_lit(p));
    lemma_bytes_at_split(s, 0, h4, l_body());
    lemma_bytes_at_split(s, 0, h3, quoted(m.destination));
    lemma_bytes_at_split(s, 0, h2, l_dest());
    lemma_bytes_at_split(s, 0, h1, quoted(m.source));
    assert(sp_lit(s, 0, l_src()) == Some(h1.len() as int));
    lemma_scan_quoted(s, h1.len() as int, m.source);
    assert(sp_lit(s, h2.len() as int, l_dest()) == Some(h3.len() as int));
    lemma_scan_quoted(s, h3.len() as int, m.destination);
    assert(sp_lit(s, h4.len() as int, l_body()) == Some(h5.len() as int));
}

/// The raw record the wire form of `m` spells: each string field in its
/// UTF-8 bytes.
pub open spec fn raw_of(m: MessageView) -> RawMessage {
    RawMessage {
        source: encode_utf8(m.source),
        destination: encode_utf8(m.destination),
        id: m.body.id,
        in_reply_to: m.body.in_reply_to,
        payload: match m.body.payload {
            PayloadView::Init { node_id, node_ids } => RawPayload::Init {
                node_id: encode_utf8(node_id),
                node_ids: node_ids.map_values(|x: Seq<char>| encode_utf8(x)),
            },
            PayloadView::InitOk => RawPayload::InitOk,
            PayloadView::Echo { echo } => RawPayload::Echo { echo: encode_utf8(echo) },
            PayloadView::EchoOk { echo } => RawPayload::EchoOk { echo: encode_utf8(echo) },
        },
    }
}

/// The raw record of `m` is valid UTF-8 throughout and denotes `m`.
proof fn lemma_raw_of_view(m: MessageView)
    ensures
        raw_utf8_ok(raw_of(m)),
        raw_view(raw_of(m)) == m,
{
    broadcast use vstd::utf8::encode_utf8_valid_utf8;
    broadcast use vstd::utf8::encode_utf8_decode_utf8;

    match m.body.payload {
        PayloadView::Init { node_id, node_ids } => {
            let raw_ids = node_ids.map_values(|x: Seq<char>| encode_utf8(x));
            assert forall|t: int| 0 <= t < raw_ids.len() implies valid_utf8(
                #[trigger] raw_ids[t],
            ) by {
                assert(raw_ids[t] == encode_utf8(node_ids[t]));
            }
            assert(raw_ids.map_values(|bb: Seq<u8>| decode_utf8(bb)) =~= node_ids) by {
                assert forall|t: int| 0 <= t < raw_ids.len() implies raw_ids.map_values(
                    |bb: Seq<u8>| decode_utf8(bb),
                )[t] == node_ids[t] by {
                    assert(raw_ids[t] == encode_utf8(node_ids[t]));
                }
            }
        },
        _ => {},
    }
}

/// The `init` payload's fields the encoder wrote scan back in order.
#[verifier::rlimit(100)]
proof fn lemma_scan_init_fields(s: Seq<u8>, b: int, node_id: Seq<char>, node_ids: Seq<Seq<char>>)
    requires
        bytes_at(
            s,
            b,
            l_node_id() + quoted(node_id) + l_node_ids() + enc_string_items(node_ids)
                + seq![RBRACKET],
        ),
    ensures
        sp_lit(s, b, l_node_id()) == Some(b + l_node_id().len()),
        b + l_node_id().len() < s.len(),
        s[b + l_node_id().len()] == QUOTE,
        sp_string(s, b + l_node_id().len() + 1) == Some(
            (b + l_node_id().len() + quoted(node_id).len(), encode_utf8(node_id)),
        ),
        sp_lit(s, b + l_node_id().len() + quoted(node_id).len(), l_node_ids()) == Some(
            b + l_node_id().len() + quoted(node_id).len() + l_node_ids().len(),
        ),
        sp_items(s, b + l_node_id().len() + quoted(node_id).len() + l_node_ids().len(), true)
            == Some(
            (
                b + l_node_id().len() + quoted(node_id).len() + l_node_ids().len()
                    + enc_string_items(node_ids).len() + 1,
                node_ids.map_values(|x: Seq<char>| encode_utf8(x)),
            ),
        ),
{
    let g1 = l_node_id();
    let g2 = g1 + quoted(node_id);
    let g3 = g2 + l_node_ids();
    let g4 = g3 + enc_string_items(node_ids);
    lemma_bytes_at_split(s, b, g4, seq![RBRACKET]);
    lemma_bytes_at_split(s, b, g3, enc_string_items(node_ids));
    lemma_bytes_at_split(s, b, g2, l_node_ids());
    lemma_bytes_at_split(s, b, g1, quoted(node_id));
    lemma_scan_quoted(s, b + g1.len(), node_id);
    lemma_bytes_at_index(s, b + g4.len(), seq![RBRACKET], 0);
    lemma_scan_items(s, b + g3.len(), node_ids);
}

/// Unfolding the body grammar on an `init` record's parts.
proof fn lemma_body_unfold_init(
    s: Seq<u8>,
    i3: int,
    j: int,
    k: int,
    k1: int,
    k2: int,
    e: int,
    src: Seq<u8>,
    dst: Seq<u8>,
    id: Option<usize>,
    irt: Option<usize>,
    nid: Seq<u8>,
    items: Seq<Seq<u8>>,
)
    requires
        sp_lit(s, i3, l_tag_init_ok()) is None,
        sp_lit(s, i3, l_tag_init()) == Some(j),
        sp_ids(s, j) == Some((k, id, irt)),
        sp_lit(s, k, l_node_id()) == Some(k1),
        k1 < s.len(),
        s[k1] == QUOTE,
        sp_string(s, k1 + 1) == Some((k2, nid)),
        sp_lit(s, k2, l_node_ids()) == Some(k2 + l_node_ids().len()),
        sp_items(s, k2 + l_node_ids().len(), true) == Some((e, items)),
        sp_lit(s, e, l_close()) == Some(s.len() as int),
    ensures
        sp_body(s, i3, src, dst) == Some(
            RawMessage {
                source: src,
                destination: dst,
                id: id,
                in_reply_to: irt,
                payload: RawPayload::Init { node_id: nid, node_ids: items },
            },
        ),
{
}

/// Unfolding the body grammar on an `echo` record's parts.
proof fn lemma_body_unfold_echo(
    s: Seq<u8>,
    i3: int,
    j: int,
    k: int,
    e: int,
    src: Seq<u8>,
    dst: Seq<u8>,
    id: Option<usize>,
    irt: Option<usize>,
    echo_b: Seq<u8>,
)
    requires
        sp_lit(s, i3, l_tag_init_ok()) is None,
        sp_lit(s, i3, l_tag_init()) is None,
        sp_lit(s, i3, l_tag_echo()) == Some(j),
        sp_ids(s, j) == Some((k, id, irt)),
        sp_echo_field(s, k) == Some((e, echo_b)),
        sp_lit(s, e, l_close()) == Some(s.len() as int),
    ensures
        sp_body(s, i3, src, dst) == Some(
            RawMessage {
                source: src,
                destination: dst,
                id: id,
                in_reply_to: irt,
                payload: RawPayload::Echo { echo: echo_b },
            },
        ),
{
}

/// Unfolding the body grammar on an `echo_ok` record's parts.
proof fn lemma_body_unfold_echo_ok(
    s: Seq<u8>,
    i3: int,
    j: int,
    k: int,
    e: int,
    src: Seq<u8>,
    dst: Seq<u8>,
    id: Option<usize>,
    irt: Option<usize>,
    echo_b: Seq<u8>,
)
    requires
        sp_lit(s, i3, l_tag_init_ok()) is None,
        sp_lit(s, i3, l_tag_init()) is None,
        sp_lit(s, i3, l_tag_echo()) is None,
        sp_lit(s, i3, l_tag_echo_ok()) == Some(j),
        sp_ids(s, j) == Some((k, id, irt)),
        sp_echo_field(s, k) == Some((e, echo_b)),
        sp_lit(s, e, l_close()) == Some(s.len() as int),
    ensures
        sp_body(s, i3, src, dst) == Some(
            RawMessage {
                source: src,
                destination: dst,
                id: id,
                in_reply_to: irt,
                payload: RawPayload::EchoOk { echo: echo_b },
            },
        ),
{
}

/// One payload's case of [`lemma_encode_then_decode`].
#[verifier::rlimit(100)]
proof fn lemma_encode_then_decode_init_ok(m: MessageView)
    requires
        m.body.payload is InitOk,
    ensures
        sp_message(spec_encode(m)) == Some(raw_of(m)),
{
    let s = spec_encode(m);
    let p = m.body.payload;
    let i3 = off_tag(m);
    lemma_scan_envelope(m);
    assert(sp_lit(s, i3, l_tag_init_ok()) == Some(off_ids(m)));
    assert(enc_payload_fields(p) =~= Seq::<u8>::empty());
    lemma_bytes_at_index(s, off_close(m), l_close(), 0);
    lemma_scan_ids(s, off_ids(m), m.body.id, m.body.in_reply_to);
    let raw = raw_of(m);
    assert(sp_finish(s, off_payload(m), raw) == Some(raw));
    assert(sp_body(s, i3, encode_utf8(m.source), encode_utf8(m.destination)) == Some(raw));
}

/// One payload's case of [`lemma_encode_then_decode`].
#[verifier::rlimit(100)]
proof fn lemma_encode_then_decode_init(m: MessageView)
    requires
        m.body.payload is Init,
    ensures
        sp_message(spec_encode(m)) == Some(raw_of(m)),
{
    let s = spec_encode(m);
    let p = m.body.payload;
    let i3 = off_tag(m);
    lemma_scan_envelope(m);
    let node_id = p->Init_node_id;
    let node_ids = p->Init_node_ids;
    assert(s[i3 + 5] == 0x22) by {
        lemma_bytes_at_index(s, i3, l_tag_init(), 5);
    }
    lemma_lit_mismatch(s, i3, l_tag_init_ok(), 5, 0x22);
    assert(sp_lit(s, i3, l_tag_init()) == Some(off_ids(m)));
    let b = off_payload(m);
    lemma_scan_init_fields(s, b, node_id, node_ids);
    assert(s[b] == 0x2C) by {
        assert(s.subrange(b, b + l_node_id().len())[0] == l_node_id()[0]);
    }
    lemma_scan_ids(s, off_ids(m), m.body.id, m.body.in_reply_to);
    assert(sp_lit(s, off_close(m), l_close()) == Some(s.len() as int));
    lemma_body_unfold_init(
        s,
        i3,
        off_ids(m),
        off_payload(m),
        b + l_node_id().len(),
        b + l_node_id().len() + quoted(node_id).len(),
        off_close(m),
        encode_utf8(m.source),
        encode_utf8(m.destination),
        m.body.id,
        m.body.in_reply_to,
        encode_utf8(node_id),
        node_ids.map_values(|x: Seq<char>| encode_utf8(x)),
    );
}

/// One payload's case of [`lemma_encode_then_decode`].
#[verifier::rlimit(100)]
proof fn lemma_encode_then_decode_echo(m: MessageView)
    requires
        m.body.payload is Echo,
    ensures
        sp_message(spec_encode(m)) == Some(raw_of(m)),
{
    let s = spec_encode(m);
    let p = m.body.payload;
    let i3 = off_tag(m);
    lemma_scan_envelope(m);
    let echo = p->Echo_echo;
    assert(s[i3 + 1] == 0x65) by {
        lemma_bytes_at_index(s, i3, l_tag_echo(), 1);
    }
    lemma_lit_mismatch(s, i3, l_tag_init_ok(), 1, 0x65);
    lemma_lit_mismatch(s, i3, l_tag_init(), 1, 0x65);
    assert(sp_lit(s, i3, l_tag_echo()) == Some(off_ids(m)));
    let b = off_payload(m);
    lemma_bytes_at_split(s, b, l_echo(), quoted(echo));
    lemma_bytes_at_index(s, b, l_echo(), 0);
    lemma_scan_ids(s, off_ids(m), m.body.id, m.body.in_reply_to);
    lemma_scan_quoted(s, b + l_echo().len(), echo);
    assert(sp_echo_field(s, b) == Some((off_close(m), encode_utf8(echo))));
    assert(sp_lit(s, off_close(m), l_close()) == Some(s.len() as int));
    lemma_body_unfold_echo(
        s,
        i3,
        off_ids(m),
        off_payload(m),
        off_close(m),
        encode_utf8(m.source),
        encode_utf8(m.destination),
        m.body.id,
        m.body.in_reply_to,
        encode_utf8(echo),
    );
}

/// One payload's case of [`lemma_encode_then_decode`].
#[verifier::rlimit(100)]
proof fn lemma_encode_then_decode_echo_ok(m: MessageView)
    requires
        m.body.payload is EchoOk,
    ensures
        sp_message(spec_encode(m)) == Some(raw_of(m)),
{
    let s = spec_encode(m);
    let p = m.body.payload;
    let i3 = off_tag(m);
    lemma_scan_envelope(m);
    let echo = p->EchoOk_echo;
    assert(s[i3 + 1] == 0x65 && s[i3 + 5] == 0x5F) by {
        lemma_bytes_at_index(s, i3, l_tag_echo_ok(), 1);
        lemma_bytes_at_index(s, i3, l_tag_echo_ok(), 5);
    }
    lemma_lit_mismatch(s, i3, l_tag_init_ok(), 1, 0x65);
    lemma_lit_mismatch(s, i3, l_tag_init(), 1, 0x65);
    lemma_lit_mismatch(s, i3, l_tag_echo(), 5, 0x5F);
    assert(sp_lit(s, i3, l_tag_echo_ok()) == Some(off_ids(m)));
    let b = off_payload(m);
    lemma_bytes_at_split(s, b, l_echo(), quoted(echo));
    lemma_bytes_at_index(s, b, l_echo(), 0);
    lemma_scan_ids(s, off_ids(m), m.body.id, m.body.in_reply_to);
    lemma_scan_quoted(s, b + l_echo().len(), echo);
    assert(sp_echo_field(s, b) == Some((off_close(m), encode_utf8(echo))));
    assert(sp_lit(s, off_close(m), l_close()) == Some(s.len() as int));
    lemma_body_unfold_echo_ok(
        s,
        i3,
        off_ids(m),
        off_payload(m),
        off_close(m),
        encode_utf8(m.source),
        encode_utf8(m.destination),
        m.body.id,
        m.body.in_reply_to,
        encode_utf8(echo),
    );
}

/// Law: the decoder reads back what the encoder writes.  The wire form of
/// any message parses as a record, the record's string fields are valid
/// UTF-8, and the message it denotes is the encoded one itself.
pub proof fn lemma_encode_then_decode(m: MessageView)
    ensures
        sp_message(spec_encode(m)) matches Some(raw) && raw_utf8_ok(raw) && raw_view(raw) == m,
{
    match m.body.payload {
        PayloadView::InitOk => lemma_encode_then_decode_init_ok(m),
        PayloadView::Init { .. } => lemma_encode_then_decode_init(m),
        PayloadView::Echo { .. } => lemma_encode_then_decode_echo(m),
        PayloadView::EchoOk { .. } => lemma_encode_then_decode_echo_ok(m),
    }
    lemma_raw_of_view(m);
}


} // verus!

//! The status frame wire format.
//!
//! One frame is one UTF-8 JSON object holding a `StatusUpdate`, with the
//! fields in a fixed order. The serializer emits the canonical form below;
//! the parser reads it back, unescaping strings and rejecting malformed
//! text. `lemma_status_round_trip` proves that parsing a serialized
//! snapshot, with anything at all behind it in the buffer, yields exactly
//! the snapshot that was serialized.
//!
//! ```text
//! {"agent_name":A,"error":E,"external_llamacpp_addr":"...","slots_idle":N,
//!  "slots_processing":M,"is_authorized":B,"is_slots_endpoint_enabled":B}
//! ```

use vstd::prelude::*;
use vstd::string::StringSliceAdditionalSpecFns;
use vstd::utf8::decode_utf8;
use vstd::utf8::encode_utf8;
use vstd::utf8::encode_utf8_decode_utf8;
use vstd::utf8::encode_utf8_valid_utf8;
use vstd::utf8::is_ascii_chars;
use vstd::utf8::is_ascii_chars_encode_utf8;
use vstd::utf8::valid_utf8;

use crate::json::LBRACE;
use crate::json::QUOTE;
use crate::json::RBRACE;
use crate::json::dec_digits;
use crate::json::emit_escaped;
use crate::json::emit_lit;
use crate::json::emit_u64;
use crate::json::esc;
use crate::json::expect_lit;
use crate::json::is_digit;
use crate::json::lemma_expect_at;
use crate::json::lemma_num_at;
use crate::json::lemma_str_at;
use crate::json::parse_num;
use crate::json::parse_string_raw;
use crate::json::sp_expect;
use crate::json::sp_num;
use crate::json::sp_str;
use crate::status_update::StatusUpdate;
use crate::status_update::StatusUpdateView;
use crate::status_update::opt_string_view;

verus! {

/// First key chunk of a frame.
pub open spec fn key_agent_name() -> Seq<u8> {
    "\"agent_name\":".spec_bytes()
}

pub open spec fn key_error() -> Seq<u8> {
    ",\"error\":".spec_bytes()
}

pub open spec fn key_external_llamacpp_addr() -> Seq<u8> {
    ",\"external_llamacpp_addr\":".spec_bytes()
}

pub open spec fn key_slots_idle() -> Seq<u8> {
    ",\"slots_idle\":".spec_bytes()
}

pub open spec fn key_slots_processing() -> Seq<u8> {
    ",\"slots_processing\":".spec_bytes()
}

pub open spec fn key_is_authorized() -> Seq<u8> {
    ",\"is_authorized\":".spec_bytes()
}

pub open spec fn key_is_slots_endpoint_enabled() -> Seq<u8> {
    ",\"is_slots_endpoint_enabled\":".spec_bytes()
}

pub open spec fn lit_null() -> Seq<u8> {
    "null".spec_bytes()
}

pub open spec fn lit_true() -> Seq<u8> {
    "true".spec_bytes()
}

pub open spec fn lit_false() -> Seq<u8> {
    "false".spec_bytes()
}

/// The byte shapes of the fixed wire words the parser branches on: their
/// lengths and first bytes, and the first bytes of the key chunks that
/// terminate a digit run.
pub proof fn lemma_wire_lits()
    ensures
        lit_null().len() == 4,
        lit_null()[0] == 110,
        lit_true().len() == 4,
        lit_true()[0] == 116,
        lit_false().len() == 5,
        lit_false()[0] == 102,
        key_slots_processing().len() >= 1,
        key_slots_processing()[0] == 44,
        key_is_authorized().len() >= 1,
        key_is_authorized()[0] == 44,
{
    reveal_strlit("null");
    reveal_strlit("true");
    reveal_strlit("false");
    reveal_strlit(",\"slots_processing\":");
    reveal_strlit(",\"is_authorized\":");
    assert(is_ascii_chars("null"@));
    assert(is_ascii_chars("true"@));
    assert(is_ascii_chars("false"@));
    assert(is_ascii_chars(",\"slots_processing\":"@));
    assert(is_ascii_chars(",\"is_authorized\":"@));
    is_ascii_chars_encode_utf8("null"@);
    is_ascii_chars_encode_utf8("true"@);
    is_ascii_chars_encode_utf8("false"@);
    is_ascii_chars_encode_utf8(",\"slots_processing\":"@);
    is_ascii_chars_encode_utf8(",\"is_authorized\":"@);
    assert(lit_null()[0] == 'n' as u8);
    assert(lit_true()[0] == 't' as u8);
    assert(lit_false()[0] == 'f' as u8);
    assert(key_slots_processing()[0] == ',' as u8);
    assert(key_is_authorized()[0] == ',' as u8);
}

/// A string value on the wire: quoted, escaped UTF-8.
pub open spec fn ser_str_val(s: Seq<char>) -> Seq<u8> {
    seq![QUOTE] + esc(encode_utf8(s)) + seq![QUOTE]
}

/// An optional string value: `null` or a string.
pub open spec fn ser_opt_str(v: Option<Seq<char>>) -> Seq<u8> {
    match v {
        Some(s) => ser_str_val(s),
        None => lit_null(),
    }
}

/// A tri-state value: `true`, `false` or `null`.
pub open spec fn ser_tri(v: Option<bool>) -> Seq<u8> {
    match v {
        Some(true) => lit_true(),
        Some(false) => lit_false(),
        None => lit_null(),
    }
}

/// The canonical serialization of a status snapshot.
pub open spec fn ser_status(u: StatusUpdateView) -> Seq<u8> {
    seq![LBRACE] + key_agent_name() + ser_opt_str(u.agent_name) + key_error() + ser_opt_str(
        u.error,
    ) + key_external_llamacpp_addr() + ser_str_val(u.external_llamacpp_addr) + key_slots_idle()
        + dec_digits(u.slots_idle) + key_slots_processing() + dec_digits(u.slots_processing)
        + key_is_authorized() + ser_tri(u.is_authorized) + key_is_slots_endpoint_enabled()
        + ser_tri(u.is_slots_endpoint_enabled) + seq![RBRACE]
}

/// Matching one byte.
pub open spec fn sp_byte(b: Seq<u8>, pos: int, c: u8) -> Option<int> {
    if 0 <= pos < b.len() && b[pos] == c {
        Some(pos + 1)
    } else {
        None
    }
}

/// Parsing a quoted string value into its characters; malformed escapes
/// and invalid UTF-8 are rejected.
pub open spec fn sp_string_val(b: Seq<u8>, pos: int) -> Option<(Seq<char>, int)> {
    match sp_byte(b, pos, QUOTE) {
        Some(p) => match sp_str(b, p) {
            Some((raw, end)) => if valid_utf8(raw) {
                Some((decode_utf8(raw), end))
            } else {
                None
            },
            None => None,
        },
        None => None,
    }
}

/// Parsing an optional string value: a string or `null`.
pub open spec fn sp_opt_str_val(b: Seq<u8>, pos: int) -> Option<(Option<Seq<char>>, int)> {
    if 0 <= pos < b.len() && b[pos] == QUOTE {
        match sp_string_val(b, pos) {
            Some((s, end)) => Some((Some(s), end)),
            None => None,
        }
    } else {
        match sp_expect(b, pos, lit_null()) {
            Some(end) => Some((None, end)),
            None => None,
        }
    }
}

/// Parsing a tri-state value: `true`, `false` or `null`.
pub open spec fn sp_tri(b: Seq<u8>, pos: int) -> Option<(Option<bool>, int)> {
    match sp_expect(b, pos, lit_true()) {
        Some(end) => Some((Some(true), end)),
        None => match sp_expect(b, pos, lit_false()) {
            Some(end) => Some((Some(false), end)),
            None => match sp_expect(b, pos, lit_null()) {
                Some(end) => Some((None, end)),
                None => None,
            },
        },
    }
}

/// Parsing one status frame from `pos`: the snapshot and the position
/// just after the closing brace.
pub open spec fn sp_status(b: Seq<u8>, pos: int) -> Option<(StatusUpdateView, int)> {
    match sp_byte(b, pos, LBRACE) {
        None => None,
        Some(p1) => match sp_expect(b, p1, key_agent_name()) {
            None => None,
            Some(p2) => match sp_opt_str_val(b, p2) {
                None => None,
                Some((agent_name, p3)) => match sp_expect(b, p3, key_error()) {
                    None => None,
                    Some(p4) => match sp_opt_str_val(b, p4) {
                        None => None,
                        Some((error, p5)) => match sp_expect(
                            b,
                            p5,
                            key_external_llamacpp_addr(),
                        ) {
                            None => None,
                            Some(p6) => match sp_string_val(b, p6) {
                                None => None,
                                Some((addr, p7)) => match sp_expect(b, p7, key_slots_idle()) {
                                    None => None,
                                    Some(p8) => match sp_num(b, p8) {
                                        None => None,
                                        Some((slots_idle, p9)) => match sp_expect(
                                            b,
                                            p9,
                                            key_slots_processing(),
                                        ) {
                                            None => None,
                                            Some(p10) => match sp_num(b, p10) {
                                                None => None,
                                                Some((slots_processing, p11)) => match sp_expect(
                                                    b,
                                                    p11,
                                                    key_is_authorized(),
                                                ) {
                                                    None => None,
                                                    Some(p12) => match sp_tri(b, p12) {
                                                        None => None,
                                                        Some((is_authorized, p13)) => match sp_expect(
                                                            b,
                                                            p13,
                                                            key_is_slots_endpoint_enabled(),
                                                        ) {
                                                            None => None,
                                                            Some(p14) => match sp_tri(b, p14) {
                                                                None => None,
                                                                Some((is_slots_endpoint_enabled, p15)) => match sp_byte(
                                                                    b,
                                                                    p15,
                                                                    RBRACE,
                                                                ) {
                                                                    None => None,
                                                                    Some(end) => Some(
                                                                        (
                                                                            StatusUpdateView {
                                                                                agent_name,
                                                                                error,
                                                                                external_llamacpp_addr: addr,
                                                                                slots_idle,
                                                                                slots_processing,
                                                                                is_authorized,
                                                                                is_slots_endpoint_enabled,
                                                                            },
                                                                            end,
                                                                        ),
                                                                    ),
                                                                },
                                                            },
                                                        },
                                                    },
                                                },
                                            },
                                        },
                                    },
                                },
                            },
                        },
                    },
                },
            },
        },
    }
}

/// Appends a quoted, escaped string value.
fn emit_str_val(out: &mut Vec<u8>, s: &str)
    ensures
        final(out)@ == old(out)@ + ser_str_val(s@),
{
    out.push(QUOTE);
    emit_escaped(out, s);
    out.push(QUOTE);
    proof {
        assert(out@ =~= old(out)@ + ser_str_val(s@));
    }
}

/// Appends an optional string value: `null` or a string.
fn emit_opt_str(out: &mut Vec<u8>, v: &Option<String>)
    ensures
        final(out)@ == old(out)@ + ser_opt_str(opt_string_view(*v)),
{
    match v {
        Some(s) => {
            emit_str_val(out, s.as_str());
        },
        None => {
            emit_lit(out, "null");
        },
    }
}

/// Appends a tri-state value: `true`, `false` or `null`.
fn emit_tri(out: &mut Vec<u8>, v: Option<bool>)
    ensures
        final(out)@ == old(out)@ + ser_tri(v),
{
    match v {
        Some(true) => emit_lit(out, "true"),
        Some(false) => emit_lit(out, "false"),
        None => emit_lit(out, "null"),
    }
}

/// Serializes one status snapshot into its canonical frame.
pub fn serialize_status_update(u: &StatusUpdate) -> (r: Vec<u8>)
    ensures
        r@ == ser_status(u@),
{
    let mut out: Vec<u8> = Vec::new();
    out.push(LBRACE);
    emit_lit(&mut out, "\"agent_name\":");
    emit_opt_str(&mut out, &u.agent_name);
    emit_lit(&mut out, ",\"error\":");
    emit_opt_str(&mut out, &u.error);
    emit_lit(&mut out, ",\"external_llamacpp_addr\":");
    emit_str_val(&mut out, u.external_llamacpp_addr.as_str());
    emit_lit(&mut out, ",\"slots_idle\":");
    emit_u64(&mut out, u.slots_idle as u64);
    emit_lit(&mut out, ",\"slots_processing\":");
    emit_u64(&mut out, u.slots_processing as u64);
    emit_lit(&mut out, ",\"is_authorized\":");
    emit_tri(&mut out, u.is_authorized);
    emit_lit(&mut out, ",\"is_slots_endpoint_enabled\":");
    emit_tri(&mut out, u.is_slots_endpoint_enabled);
    out.push(RBRACE);
    proof {
        assert(out@ =~= ser_status(u@));
    }
    out
}

/// Relies on String::from_utf8: it accepts exactly the byte strings that
/// are valid UTF-8, and the characters of the result encode back to the
/// given bytes.
#[verifier::external_body]
fn string_from_utf8(v: Vec<u8>) -> (r: Option<String>)
    ensures
        r is Some <==> valid_utf8(v@),
        match r {
            Some(s) => encode_utf8(s@) == v@,
            None => true,
        },
{
    String::from_utf8(v).ok()
}

/// Matches one byte; the position after it on success.
fn expect_byte(buf: &Vec<u8>, pos: usize, c: u8) -> (r: Option<usize>)
    ensures
        match r {
            Some(end) => sp_byte(buf@, pos as int, c) == Some(end as int) && end <= buf@.len(),
            None => sp_byte(buf@, pos as int, c) is None,
        },
{
    if pos < buf.len() && buf[pos] == c {
        Some(pos + 1)
    } else {
        None
    }
}

/// Parses a quoted string value into an owned string.
fn parse_str_val(buf: &Vec<u8>, pos: usize) -> (r: Option<(String, usize)>)
    ensures
        match r {
            Some(v) => sp_string_val(buf@, pos as int) == Some((v.0@, v.1 as int)) && v.1
                <= buf@.len(),
            None => sp_string_val(buf@, pos as int) is None,
        },
{
    match expect_byte(buf, pos, QUOTE) {
        Some(p) => match parse_string_raw(buf, p) {
            Some((raw, end)) => {
                match string_from_utf8(raw) {
                    Some(s) => {
                        proof {
                            encode_utf8_decode_utf8(s@);
                        }
                        Some((s, end))
                    },
                    None => None,
                }
            },
            None => None,
        },
        None => None,
    }
}

/// Parses an optional string value: a string or `null`.
fn parse_opt_str(buf: &Vec<u8>, pos: usize) -> (r: Option<(Option<String>, usize)>)
    ensures
        match r {
            Some(v) => sp_opt_str_val(buf@, pos as int) == Some(
                (opt_string_view(v.0), v.1 as int),
            ) && v.1 <= buf@.len(),
            None => sp_opt_str_val(buf@, pos as int) is None,
        },
{
    if pos < buf.len() && buf[pos] == QUOTE {
        match parse_str_val(buf, pos) {
            Some((s, end)) => Some((Some(s), end)),
            None => None,
        }
    } else {
        match expect_lit(buf, pos, "null") {
            Some(end) => {
                Some((None, end))
            },
            None => None,
        }
    }
}

/// Parses a tri-state value: `true`, `false` or `null`.
fn parse_tri(buf: &Vec<u8>, pos: usize) -> (r: Option<(Option<bool>, usize)>)
    ensures
        match r {
            Some(v) => sp_tri(buf@, pos as int) == Some((v.0, v.1 as int)) && v.1 <= buf@.len(),
            None => sp_tri(buf@, pos as int) is None,
        },
{
    match expect_lit(buf, pos, "true") {
        Some(end) => {
            return Some((Some(true), end));
        },
        None => {},
    }
    match expect_lit(buf, pos, "false") {
        Some(end) => {
            return Some((Some(false), end));
        },
        None => {},
    }
    match expect_lit(buf, pos, "null") {
        Some(end) => {
            return Some((None, end));
        },
        None => {},
    }
    None
}

/// Parses a count, which must fit in a `usize`.
fn parse_count(buf: &Vec<u8>, pos: usize) -> (r: Option<(usize, usize)>)
    ensures
        match r {
            Some(v) => sp_num(buf@, pos as int) == Some((v.0 as nat, v.1 as int)) && v.1
                <= buf@.len(),
            None => match sp_num(buf@, pos as int) {
                Some(v) => v.0 > usize::MAX,
                None => true,
            },
        },
{
    match parse_num(buf, pos) {
        Some((n, end)) => {
            if n > usize::MAX as u64 {
                None
            } else {
                Some((n as usize, end))
            }
        },
        None => None,
    }
}

/// Parses one status frame at `pos`: the snapshot and the position just
/// after the closing brace. Absent when the buffer does not hold a
/// well-formed frame there, or a count does not fit in a `usize`.
pub fn parse_status_update(buf: &Vec<u8>, pos: usize) -> (r: Option<(StatusUpdate, usize)>)
    ensures
        match r {
            Some(v) => sp_status(buf@, pos as int) == Some((v.0@, v.1 as int)) && v.1
                <= buf@.len(),
            None => match sp_status(buf@, pos as int) {
                None => true,
                Some(v) => v.0.slots_idle > usize::MAX || v.0.slots_processing > usize::MAX,
            },
        },
{
    let p1 = match expect_byte(buf, pos, LBRACE) {
        Some(p) => p,
        None => {
            return None;
        },
    };
    let p2 = match expect_lit(buf, p1, "\"agent_name\":") {
        Some(p) => p,
        None => {
            return None;
        },
    };
    let (agent_name, p3) = match parse_opt_str(buf, p2) {
        Some(v) => v,
        None => {
            return None;
        },
    };
    let p4 = match expect_lit(buf, p3, ",\"error\":") {
        Some(p) => p,
        None => {
            return None;
        },
    };
    let (error, p5) = match parse_opt_str(buf, p4) {
        Some(v) => v,
        None => {
            return None;
        },
    };
    let p6 = match expect_lit(buf, p5, ",\"external_llamacpp_addr\":") {
        Some(p) => p,
        None => {
            return None;
        },
    };
    let (external_llamacpp_addr, p7) = match parse_str_val(buf, p6) {
        Some(v) => v,
        None => {
            return None;
        },
    };
    let p8 = match expect_lit(buf, p7, ",\"slots_idle\":") {
        Some(p) => p,
        None => {
            return None;
        },
    };
    let (slots_idle, p9) = match parse_count(buf, p8) {
        Some(v) => v,
        None => {
            return None;
        },
    };
    let p10 = match expect_lit(buf, p9, ",\"slots_processing\":") {
        Some(p) => p,
        None => {
            return None;
        },
    };
    let (slots_processing, p11) = match parse_count(buf, p10) {
        Some(v) => v,
        None => {
            return None;
        },
    };
    let p12 = match expect_lit(buf, p11, ",\"is_authorized\":") {
        Some(p) => p,
        None => {
            return None;
        },
    };
    let (is_authorized, p13) = match parse_tri(buf, p12) {
        Some(v) => v,
        None => {
            return None;
        },
    };
    let p14 = match expect_lit(buf, p13, ",\"is_slots_endpoint_enabled\":") {
        Some(p) => p,
        None => {
            return None;
        },
    };
    let (is_slots_endpoint_enabled, p15) = match parse_tri(buf, p14) {
        Some(v) => v,
        None => {
            return None;
        },
    };
    let end = match expect_byte(buf, p15, RBRACE) {
        Some(p) => p,
        None => {
            return None;
        },
    };
    Some(
        (
            StatusUpdate {
                agent_name,
                error,
                external_llamacpp_addr,
                slots_idle,
                slots_processing,
                is_authorized,
                is_slots_endpoint_enabled,
            },
            end,
        ),
    )
}

/// A serialized string value parses back to its characters.
pub proof fn lemma_str_val_at(b: Seq<u8>, pos: int, s: Seq<char>)
    requires
        0 <= pos,
        pos + ser_str_val(s).len() <= b.len(),
        b.subrange(pos, pos + ser_str_val(s).len()) =~= ser_str_val(s),
    ensures
        sp_string_val(b, pos) == Some((s, pos + ser_str_val(s).len())),
{
    let e = esc(encode_utf8(s));
    let w = ser_str_val(s);
    assert(w.len() == e.len() + 2);
    assert(b[pos] == w[0]);
    assert(w[0] == QUOTE);
    assert(b.subrange(pos + 1, pos + 1 + e.len()) =~= e) by {
        assert forall|i: int| 0 <= i < e.len() implies b[pos + 1 + i] == e[i] by {
            assert(b[pos + 1 + i] == w[1 + i]);
            assert(w[1 + i] == e[i]);
        }
    }
    assert(b[pos + 1 + e.len()] == w[1 + e.len() as int]);
    assert(w[1 + e.len() as int] == QUOTE);
    lemma_str_at(b, pos + 1, encode_utf8(s));
    encode_utf8_valid_utf8(s);
    encode_utf8_decode_utf8(s);
}

/// A serialized optional string parses back to itself.
pub proof fn lemma_opt_str_at(b: Seq<u8>, pos: int, v: Option<Seq<char>>)
    requires
        0 <= pos,
        pos + ser_opt_str(v).len() <= b.len(),
        b.subrange(pos, pos + ser_opt_str(v).len()) =~= ser_opt_str(v),
    ensures
        sp_opt_str_val(b, pos) == Some((v, pos + ser_opt_str(v).len())),
{
    lemma_wire_lits();
    match v {
        Some(s) => {
            assert(b[pos] == ser_str_val(s)[0]);
            assert(ser_str_val(s)[0] == QUOTE);
            lemma_str_val_at(b, pos, s);
        },
        None => {
            assert(b[pos] == lit_null()[0]);
            assert(b[pos] != QUOTE);
            lemma_expect_at(b, pos, lit_null());
        },
    }
}

/// A region that does not start with the first byte of a word cannot
/// match that word.
proof fn lemma_expect_mismatch(b: Seq<u8>, pos: int, lit: Seq<u8>)
    requires
        0 <= pos < b.len(),
        lit.len() >= 1,
        b[pos] != lit[0],
    ensures
        sp_expect(b, pos, lit) is None,
{
    if pos + lit.len() <= b.len() {
        assert(b.subrange(pos, pos + lit.len())[0] == b[pos]);
    }
}

/// A serialized tri-state value parses back to itself.
pub proof fn lemma_tri_at(b: Seq<u8>, pos: int, v: Option<bool>)
    requires
        0 <= pos,
        pos + ser_tri(v).len() <= b.len(),
        b.subrange(pos, pos + ser_tri(v).len()) =~= ser_tri(v),
    ensures
        sp_tri(b, pos) == Some((v, pos + ser_tri(v).len())),
{
    lemma_wire_lits();
    assert(b[pos] == ser_tri(v)[0]);
    match v {
        Some(true) => {
            lemma_expect_at(b, pos, lit_true());
        },
        Some(false) => {
            lemma_expect_mismatch(b, pos, lit_true());
            lemma_expect_at(b, pos, lit_false());
        },
        None => {
            lemma_expect_mismatch(b, pos, lit_true());
            lemma_expect_mismatch(b, pos, lit_false());
            lemma_expect_at(b, pos, lit_null());
        },
    }
}

/// A region known to hold a concatenation splits into its two parts.
pub(crate) proof fn lemma_split_region(b: Seq<u8>, off: int, x: Seq<u8>, y: Seq<u8>)
    requires
        0 <= off,
        off + x.len() + y.len() <= b.len(),
        b.subrange(off, off + x.len() + y.len()) =~= x + y,
    ensures
        b.subrange(off, off + x.len()) =~= x,
        b.subrange(off + x.len(), off + x.len() + y.len()) =~= y,
{
    let whole = b.subrange(off, off + x.len() + y.len());
    assert forall|i: int| 0 <= i < x.len() implies b[off + i] == x[i] by {
        assert(whole[i] == (x + y)[i]);
    }
    assert forall|i: int| 0 <= i < y.len() implies b[off + x.len() + i] == y[i] by {
        assert(whole[x.len() + i] == (x + y)[x.len() + i]);
    }
}


/// Where each piece of a serialized snapshot stands in a buffer that
/// begins with it: the brace, the key chunks and the values, back to
/// back, whatever bytes follow the frame.
#[verifier::rlimit(100)]
pub(crate) proof fn lemma_status_regions(u: StatusUpdateView, rest: Seq<u8>)
    ensures
        ({
            let c1 = key_agent_name();
            let w1 = ser_opt_str(u.agent_name);
            let c2 = key_error();
            let w2 = ser_opt_str(u.error);
            let c3 = key_external_llamacpp_addr();
            let w3 = ser_str_val(u.external_llamacpp_addr);
            let c4 = key_slots_idle();
            let w4 = dec_digits(u.slots_idle);
            let c5 = key_slots_processing();
            let w5 = dec_digits(u.slots_processing);
            let c6 = key_is_authorized();
            let w6 = ser_tri(u.is_authorized);
            let c7 = key_is_slots_endpoint_enabled();
            let w7 = ser_tri(u.is_slots_endpoint_enabled);
            let b = ser_status(u) + rest;
            let p1 = 1int;
            let p2 = p1 + c1.len();
            let p3 = p2 + w1.len();
            let p4 = p3 + c2.len();
            let p5 = p4 + w2.len();
            let p6 = p5 + c3.len();
            let p7 = p6 + w3.len();
            let p8 = p7 + c4.len();
            let p9 = p8 + w4.len();
            let p10 = p9 + c5.len();
            let p11 = p10 + w5.len();
            let p12 = p11 + c6.len();
            let p13 = p12 + w6.len();
            let p14 = p13 + c7.len();
            let p15 = p14 + w7.len();
            &&& ser_status(u).len() == p15 + 1
            &&& b.len() == ser_status(u).len() + rest.len()
            &&& b[0] == LBRACE
            &&& b.subrange(p1, p2) == c1
            &&& b.subrange(p2, p3) == w1
            &&& b.subrange(p3, p4) == c2
            &&& b.subrange(p4, p5) == w2
            &&& b.subrange(p5, p6) == c3
            &&& b.subrange(p6, p7) == w3
            &&& b.subrange(p7, p8) == c4
            &&& b.subrange(p8, p9) == w4
            &&& b.subrange(p9, p10) == c5
            &&& b.subrange(p10, p11) == w5
            &&& b.subrange(p11, p12) == c6
            &&& b.subrange(p12, p13) == w6
            &&& b.subrange(p13, p14) == c7
            &&& b.subrange(p14, p15) == w7
            &&& b[p15] == RBRACE
        }),
{
    let c1 = key_agent_name();
    let w1 = ser_opt_str(u.agent_name);
    let c2 = key_error();
    let w2 = ser_opt_str(u.error);
    let c3 = key_external_llamacpp_addr();
    let w3 = ser_str_val(u.external_llamacpp_addr);
    let c4 = key_slots_idle();
    let w4 = dec_digits(u.slots_idle);
    let c5 = key_slots_processing();
    let w5 = dec_digits(u.slots_processing);
    let c6 = key_is_authorized();
    let w6 = ser_tri(u.is_authorized);
    let c7 = key_is_slots_endpoint_enabled();
    let w7 = ser_tri(u.is_slots_endpoint_enabled);
    let g1 = seq![LBRACE];
    let g2 = g1 + c1;
    let g3 = g2 + w1;
    let g4 = g3 + c2;
    let g5 = g4 + w2;
    let g6 = g5 + c3;
    let g7 = g6 + w3;
    let g8 = g7 + c4;
    let g9 = g8 + w4;
    let g10 = g9 + c5;
    let g11 = g10 + w5;
    let g12 = g11 + c6;
    let g13 = g12 + w6;
    let g14 = g13 + c7;
    let g15 = g14 + w7;
    let z = seq![RBRACE];
    let w = ser_status(u);
    assert(w == g15 + z);
    let b = w + rest;
    assert(b.subrange(0, w.len() as int) =~= w) by {
        assert forall|m: int| 0 <= m < w.len() implies b[m] == w[m] by {}
    }
    lemma_split_region(b, 0, g15, z);
    lemma_split_region(b, 0, g14, w7);
    lemma_split_region(b, 0, g13, c7);
    lemma_split_region(b, 0, g12, w6);
    lemma_split_region(b, 0, g11, c6);
    lemma_split_region(b, 0, g10, w5);
    lemma_split_region(b, 0, g9, c5);
    lemma_split_region(b, 0, g8, w4);
    lemma_split_region(b, 0, g7, c4);
    lemma_split_region(b, 0, g6, w3);
    lemma_split_region(b, 0, g5, c3);
    lemma_split_region(b, 0, g4, w2);
    lemma_split_region(b, 0, g3, c2);
    lemma_split_region(b, 0, g2, w1);
    lemma_split_region(b, 0, g1, c1);
    assert(b[0] == LBRACE) by {
        assert(b.subrange(0, 1)[0] == g1[0]);
    }
    assert(b[(g15.len()) as int] == RBRACE) by {
        assert(b.subrange(g15.len() as int, g15.len() as int + 1)[0] == z[0]);
    }
}

/// Parsing inverts serialization: a serialized snapshot at the front of a
/// buffer, whatever follows it, parses back to exactly that snapshot,
/// consuming exactly its bytes.
#[verifier::rlimit(100)]
pub proof fn lemma_status_round_trip(u: StatusUpdateView, rest: Seq<u8>)
    ensures
        sp_status(ser_status(u) + rest, 0) == Some((u, ser_status(u).len() as int)),
{
    lemma_wire_lits();
    crate::json::lemma_dec_digits(u.slots_idle);
    crate::json::lemma_dec_digits(u.slots_processing);
    let c1 = key_agent_name();
    let w1 = ser_opt_str(u.agent_name);
    let c2 = key_error();
    let w2 = ser_opt_str(u.error);
    let c3 = key_external_llamacpp_addr();
    let w3 = ser_str_val(u.external_llamacpp_addr);
    let c4 = key_slots_idle();
    let w4 = dec_digits(u.slots_idle);
    let c5 = key_slots_processing();
    let w5 = dec_digits(u.slots_processing);
    let c6 = key_is_authorized();
    let w6 = ser_tri(u.is_authorized);
    let c7 = key_is_slots_endpoint_enabled();
    let w7 = ser_tri(u.is_slots_endpoint_enabled);
    let w = ser_status(u);
    let b = w + rest;
    lemma_status_regions(u, rest);
    let p1 = 1int;
    let p2 = p1 + c1.len();
    let p3 = p2 + w1.len();
    let p4 = p3 + c2.len();
    let p5 = p4 + w2.len();
    let p6 = p5 + c3.len();
    let p7 = p6 + w3.len();
    let p8 = p7 + c4.len();
    let p9 = p8 + w4.len();
    let p10 = p9 + c5.len();
    let p11 = p10 + w5.len();
    let p12 = p11 + c6.len();
    let p13 = p12 + w6.len();
    let p14 = p13 + c7.len();
    let p15 = p14 + w7.len();
    assert(w.len() == p15 + 1);
    lemma_expect_at(b, p1, c1);
    lemma_opt_str_at(b, p2, u.agent_name);
    lemma_expect_at(b, p3, c2);
    lemma_opt_str_at(b, p4, u.error);
    lemma_expect_at(b, p5, c3);
    lemma_str_val_at(b, p6, u.external_llamacpp_addr);
    lemma_expect_at(b, p7, c4);
    assert(b[p9] == c5[0]) by {
        assert(b.subrange(p9, p10)[0] == c5[0]);
    }
    assert(!is_digit(b[p9]));
    lemma_num_at(b, p8, u.slots_idle);
    lemma_expect_at(b, p9, c5);
    assert(b[p11] == c6[0]) by {
        assert(b.subrange(p11, p12)[0] == c6[0]);
    }
    assert(!is_digit(b[p11]));
    lemma_num_at(b, p10, u.slots_processing);
    lemma_expect_at(b, p11, c6);
    lemma_tri_at(b, p12, u.is_authorized);
    lemma_expect_at(b, p13, c7);
    lemma_tri_at(b, p14, u.is_slots_endpoint_enabled);
    assert(b[p15] == RBRACE);
    assert(sp_status(b, 0) == Some((u, w.len() as int)));
}

} // verus!

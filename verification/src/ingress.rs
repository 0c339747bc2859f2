//! The status-update ingress: framing and connection lifecycle decisions.
//!
//! One `StatusIngress` serves one persistent agent connection. Bytes
//! arrive in arbitrary chunks; the ingress buffers them until a complete
//! frame is present — found by scanning for the closing brace outside any
//! string — then parses it. A malformed complete frame closes the
//! connection without touching the pool. The idle rule of the wire
//! contract is a pure function here: a connection with no frame for three
//! monitoring intervals is closed and its peer quarantined; a peer whose
//! quarantine expired without a fresh status update is removed.

use vstd::prelude::*;
use vstd::utf8::encode_utf8;
use vstd::utf8::is_ascii_chars;
use vstd::utf8::is_ascii_chars_encode_utf8;

use crate::codec::key_agent_name;
use crate::codec::key_error;
use crate::codec::key_external_llamacpp_addr;
use crate::codec::key_is_authorized;
use crate::codec::key_is_slots_endpoint_enabled;
use crate::codec::key_slots_idle;
use crate::codec::key_slots_processing;
use crate::codec::lit_false;
use crate::codec::lit_null;
use crate::codec::lit_true;
use crate::codec::parse_status_update;
use crate::codec::ser_opt_str;
use crate::codec::ser_status;
use crate::codec::ser_str_val;
use crate::codec::ser_tri;
use crate::codec::sp_status;
use crate::json::BACKSLASH;
use crate::json::DIGIT_ZERO;
use crate::json::LBRACE;
use crate::json::LOWER_U;
use crate::json::QUOTE;
use crate::json::RBRACE;
use crate::json::dec_digits;
use crate::json::esc;
use crate::json::esc_byte;
use crate::json::hex_digit;
use crate::json::is_digit;
use crate::status_update::StatusUpdate;
use crate::status_update::StatusUpdateView;
use crate::upstream_peer::UpstreamPeer;

verus! {

/// Position just after the first closing brace outside a string, if the
/// buffer holds one: the end of the first complete frame.
pub open spec fn sp_frame_end(b: Seq<u8>, pos: int, in_str: bool, esc_next: bool) -> Option<int>
    decreases b.len() - pos,
{
    if !(0 <= pos < b.len()) {
        None
    } else if in_str {
        if esc_next {
            sp_frame_end(b, pos + 1, true, false)
        } else if b[pos] == BACKSLASH {
            sp_frame_end(b, pos + 1, true, true)
        } else if b[pos] == QUOTE {
            sp_frame_end(b, pos + 1, false, false)
        } else {
            sp_frame_end(b, pos + 1, true, false)
        }
    } else if b[pos] == RBRACE {
        Some(pos + 1)
    } else if b[pos] == QUOTE {
        sp_frame_end(b, pos + 1, true, false)
    } else {
        sp_frame_end(b, pos + 1, false, false)
    }
}

/// Finds the end of the first complete frame in the buffer.
fn scan_frame(buf: &Vec<u8>) -> (r: Option<usize>)
    ensures
        match r {
            Some(end) => sp_frame_end(buf@, 0, false, false) == Some(end as int) && 0 < end
                <= buf@.len(),
            None => sp_frame_end(buf@, 0, false, false) is None,
        },
{
    let n = buf.len();
    let mut pos: usize = 0;
    let mut in_str: bool = false;
    let mut esc_next: bool = false;
    while pos < n
        invariant
            pos <= n,
            n == buf@.len(),
            !in_str ==> !esc_next,
            sp_frame_end(buf@, 0, false, false) == sp_frame_end(
                buf@,
                pos as int,
                in_str,
                esc_next,
            ),
        decreases n - pos,
    {
        let c = buf[pos];
        let ghost old_in_str = in_str;
        let ghost old_esc_next = esc_next;
        if in_str {
            if esc_next {
                esc_next = false;
            } else if c == BACKSLASH {
                esc_next = true;
            } else if c == QUOTE {
                in_str = false;
            }
        } else {
            if c == RBRACE {
                return Some(pos + 1);
            }
            if c == QUOTE {
                in_str = true;
            }
        }
        proof {
            assert(sp_frame_end(buf@, pos as int, old_in_str, old_esc_next) == sp_frame_end(
                buf@,
                pos + 1,
                in_str,
                esc_next,
            ));
        }
        pos = pos + 1;
    }
    None
}

/// The scanner walks over any run of bytes outside a string that neither
/// opens a string nor closes the frame.
proof fn lemma_scan_out_plain(b: Seq<u8>, i: int, j: int)
    requires
        0 <= i <= j <= b.len(),
        forall|k: int| i <= k < j ==> #[trigger] b[k] != QUOTE && b[k] != RBRACE,
    ensures
        sp_frame_end(b, i, false, false) == sp_frame_end(b, j, false, false),
    decreases j - i,
{
    if i < j {
        lemma_scan_out_plain(b, i + 1, j);
    }
}

/// The scanner stays inside a string over any run of bytes that neither
/// closes the string nor escapes.
proof fn lemma_scan_in_plain(b: Seq<u8>, i: int, j: int)
    requires
        0 <= i <= j <= b.len(),
        forall|k: int| i <= k < j ==> #[trigger] b[k] != QUOTE && b[k] != BACKSLASH,
    ensures
        sp_frame_end(b, i, true, false) == sp_frame_end(b, j, true, false),
    decreases j - i,
{
    if i < j {
        lemma_scan_in_plain(b, i + 1, j);
    }
}

/// The scanner crosses an escaped string body and is still inside the
/// string after it.
proof fn lemma_scan_esc(b: Seq<u8>, i: int, s: Seq<u8>)
    requires
        0 <= i,
        i + esc(s).len() <= b.len(),
        b.subrange(i, i + esc(s).len()) =~= esc(s),
    ensures
        sp_frame_end(b, i, true, false) == sp_frame_end(b, i + esc(s).len(), true, false),
    decreases s.len(),
{
    if s.len() > 0 {
        let x = s[0];
        let rest = s.drop_first();
        let k = esc_byte(x).len();
        assert(esc(s) =~= esc_byte(x) + esc(rest));
        assert forall|m: int| 0 <= m < k implies b[i + m] == esc_byte(x)[m] by {
            assert(esc(s)[m] == esc_byte(x)[m]);
        }
        assert(b.subrange(i + k, i + k + esc(rest).len()) =~= esc(rest)) by {
            assert forall|m: int| 0 <= m < esc(rest).len() implies b[i + k + m] == esc(rest)[m] by {
                assert(esc(s)[k + m] == esc(rest)[m]);
            }
        }
        if x == QUOTE || x == BACKSLASH {
            assert(b[i] == BACKSLASH);
            assert(b[i + 1] == x);
            assert(sp_frame_end(b, i, true, false) == sp_frame_end(b, i + 1, true, true));
            assert(sp_frame_end(b, i + 1, true, true) == sp_frame_end(b, i + 2, true, false));
        } else if x < 32 {
            assert(b[i] == BACKSLASH);
            assert(b[i + 1] == LOWER_U);
            assert(b[i + 2] == DIGIT_ZERO);
            assert(b[i + 3] == DIGIT_ZERO);
            assert(b[i + 4] == hex_digit((x / 16) as nat));
            assert(b[i + 5] == hex_digit((x % 16) as nat));
            assert(b[i + 4] != QUOTE && b[i + 4] != BACKSLASH);
            assert(b[i + 5] != QUOTE && b[i + 5] != BACKSLASH);
            assert(sp_frame_end(b, i, true, false) == sp_frame_end(b, i + 1, true, true));
            assert(sp_frame_end(b, i + 1, true, true) == sp_frame_end(b, i + 2, true, false));
            assert(sp_frame_end(b, i + 2, true, false) == sp_frame_end(b, i + 3, true, false));
            assert(sp_frame_end(b, i + 3, true, false) == sp_frame_end(b, i + 4, true, false));
            assert(sp_frame_end(b, i + 4, true, false) == sp_frame_end(b, i + 5, true, false));
            assert(sp_frame_end(b, i + 5, true, false) == sp_frame_end(b, i + 6, true, false));
        } else {
            assert(esc_byte(x) =~= seq![x]);
            assert(b[i + 0] == esc_byte(x)[0]);
            assert(b[i] == x);
            assert(b[i] != QUOTE && b[i] != BACKSLASH);
            assert(sp_frame_end(b, i, true, false) == sp_frame_end(b, i + 1, true, false));
        }
        lemma_scan_esc(b, i + k, rest);
    }
}

/// The scanner crosses a whole string value and is outside strings after
/// its closing quote.
proof fn lemma_scan_str_val(b: Seq<u8>, i: int, s: Seq<char>)
    requires
        0 <= i,
        i + ser_str_val(s).len() <= b.len(),
        b.subrange(i, i + ser_str_val(s).len()) =~= ser_str_val(s),
    ensures
        sp_frame_end(b, i, false, false) == sp_frame_end(
            b,
            i + ser_str_val(s).len(),
            false,
            false,
        ),
{
    let e = esc(encode_utf8(s));
    let w = ser_str_val(s);
    assert(w.len() == e.len() + 2);
    assert(b[i] == w[0]);
    assert(w[0] == QUOTE);
    assert(b.subrange(i + 1, i + 1 + e.len()) =~= e) by {
        assert forall|m: int| 0 <= m < e.len() implies b[i + 1 + m] == e[m] by {
            assert(b[i + 1 + m] == w[1 + m]);
            assert(w[1 + m] == e[m]);
        }
    }
    lemma_scan_esc(b, i + 1, encode_utf8(s));
    assert(b[i + 1 + e.len()] == w[1 + e.len() as int]);
    assert(w[1 + e.len() as int] == QUOTE);
}

/// A fixed wire word free of quotes and braces: the scanner walks over it.
proof fn lemma_scan_word(b: Seq<u8>, i: int, lit: Seq<u8>)
    requires
        0 <= i,
        i + lit.len() <= b.len(),
        b.subrange(i, i + lit.len()) =~= lit,
        forall|m: int| 0 <= m < lit.len() ==> #[trigger] lit[m] != QUOTE && lit[m] != RBRACE,
    ensures
        sp_frame_end(b, i, false, false) == sp_frame_end(b, i + lit.len(), false, false),
{
    assert forall|k: int| i <= k < i + lit.len() implies #[trigger] b[k] != QUOTE && b[k]
        != RBRACE by {
        assert(b.subrange(i, i + lit.len())[k - i] == lit[k - i]);
    }
    lemma_scan_out_plain(b, i, i + lit.len());
}

/// A key chunk of the wire format: an optional comma, the quoted key
/// name, and a colon.
pub open spec fn key_shaped(k: Seq<u8>, q: int) -> bool {
    &&& 0 <= q
    &&& q + 3 <= k.len()
    &&& (forall|m: int| 0 <= m < q ==> #[trigger] k[m] == 44)
    &&& k[q] == QUOTE
    &&& k[k.len() - 2] == QUOTE
    &&& k[k.len() - 1] == 58
    &&& (forall|m: int| q < m < k.len() - 2 ==> #[trigger] k[m] != QUOTE && k[m] != BACKSLASH)
}

/// The scanner crosses a key chunk and is outside strings after it.
proof fn lemma_scan_key(b: Seq<u8>, i: int, k: Seq<u8>, q: int)
    requires
        0 <= i,
        i + k.len() <= b.len(),
        b.subrange(i, i + k.len()) =~= k,
        key_shaped(k, q),
    ensures
        sp_frame_end(b, i, false, false) == sp_frame_end(b, i + k.len(), false, false),
{
    assert forall|m: int| 0 <= m < k.len() implies b[i + m] == k[m] by {
        assert(b.subrange(i, i + k.len())[m] == k[m]);
    }
    assert forall|p: int| i <= p < i + q implies #[trigger] b[p] != QUOTE && b[p] != RBRACE by {
        assert(k[p - i] == 44);
    }
    lemma_scan_out_plain(b, i, i + q);
    assert(b[i + q] == QUOTE);
    assert(sp_frame_end(b, i + q, false, false) == sp_frame_end(b, i + q + 1, true, false));
    assert forall|p: int| i + q + 1 <= p < i + k.len() - 2 implies #[trigger] b[p] != QUOTE && b[p]
        != BACKSLASH by {
        assert(k[p - i] != QUOTE && k[p - i] != BACKSLASH);
    }
    lemma_scan_in_plain(b, i + q + 1, i + k.len() - 2);
    assert(b[i + k.len() - 2] == QUOTE);
    assert(sp_frame_end(b, i + k.len() - 2, true, false) == sp_frame_end(
        b,
        i + k.len() - 1,
        false,
        false,
    ));
    assert(b[i + k.len() - 1] == 58);
    assert(sp_frame_end(b, i + k.len() - 1, false, false) == sp_frame_end(
        b,
        i + k.len(),
        false,
        false,
    ));
}

/// The key chunks of the status wire format have the key chunk shape.
proof fn lemma_keys_shaped()
    ensures
        key_shaped(key_agent_name(), 0),
        key_shaped(key_error(), 1),
        key_shaped(key_external_llamacpp_addr(), 1),
        key_shaped(key_slots_idle(), 1),
        key_shaped(key_slots_processing(), 1),
        key_shaped(key_is_authorized(), 1),
        key_shaped(key_is_slots_endpoint_enabled(), 1),
{
    reveal_strlit("\"agent_name\":");
    reveal_strlit(",\"error\":");
    reveal_strlit(",\"external_llamacpp_addr\":");
    reveal_strlit(",\"slots_idle\":");
    reveal_strlit(",\"slots_processing\":");
    reveal_strlit(",\"is_authorized\":");
    reveal_strlit(",\"is_slots_endpoint_enabled\":");
    assert(is_ascii_chars("\"agent_name\":"@));
    assert(is_ascii_chars(",\"error\":"@));
    assert(is_ascii_chars(",\"external_llamacpp_addr\":"@));
    assert(is_ascii_chars(",\"slots_idle\":"@));
    assert(is_ascii_chars(",\"slots_processing\":"@));
    assert(is_ascii_chars(",\"is_authorized\":"@));
    assert(is_ascii_chars(",\"is_slots_endpoint_enabled\":"@));
    is_ascii_chars_encode_utf8("\"agent_name\":"@);
    is_ascii_chars_encode_utf8(",\"error\":"@);
    is_ascii_chars_encode_utf8(",\"external_llamacpp_addr\":"@);
    is_ascii_chars_encode_utf8(",\"slots_idle\":"@);
    is_ascii_chars_encode_utf8(",\"slots_processing\":"@);
    is_ascii_chars_encode_utf8(",\"is_authorized\":"@);
    is_ascii_chars_encode_utf8(",\"is_slots_endpoint_enabled\":"@);
    assert(key_shaped(key_agent_name(), 0));
    assert(key_shaped(key_error(), 1));
    assert(key_shaped(key_external_llamacpp_addr(), 1));
    assert(key_shaped(key_slots_idle(), 1));
    assert(key_shaped(key_slots_processing(), 1));
    assert(key_shaped(key_is_authorized(), 1));
    assert(key_shaped(key_is_slots_endpoint_enabled(), 1));
}

/// The bare wire words hold neither a quote nor a closing brace.
proof fn lemma_words_scan_safe()
    ensures
        forall|m: int|
            0 <= m < lit_null().len() ==> #[trigger] lit_null()[m] != QUOTE && lit_null()[m]
                != RBRACE,
        forall|m: int|
            0 <= m < lit_true().len() ==> #[trigger] lit_true()[m] != QUOTE && lit_true()[m]
                != RBRACE,
        forall|m: int|
            0 <= m < lit_false().len() ==> #[trigger] lit_false()[m] != QUOTE && lit_false()[m]
                != RBRACE,
{
    reveal_strlit("null");
    reveal_strlit("true");
    reveal_strlit("false");
    assert(is_ascii_chars("null"@));
    assert(is_ascii_chars("true"@));
    assert(is_ascii_chars("false"@));
    is_ascii_chars_encode_utf8("null"@);
    is_ascii_chars_encode_utf8("true"@);
    is_ascii_chars_encode_utf8("false"@);
}

/// The scanner crosses an optional string value.
proof fn lemma_scan_opt_str(b: Seq<u8>, i: int, v: Option<Seq<char>>)
    requires
        0 <= i,
        i + ser_opt_str(v).len() <= b.len(),
        b.subrange(i, i + ser_opt_str(v).len()) =~= ser_opt_str(v),
    ensures
        sp_frame_end(b, i, false, false) == sp_frame_end(
            b,
            i + ser_opt_str(v).len(),
            false,
            false,
        ),
{
    match v {
        Some(s) => lemma_scan_str_val(b, i, s),
        None => {
            lemma_words_scan_safe();
            lemma_scan_word(b, i, lit_null());
        },
    }
}

/// The scanner crosses a tri-state value.
proof fn lemma_scan_tri(b: Seq<u8>, i: int, v: Option<bool>)
    requires
        0 <= i,
        i + ser_tri(v).len() <= b.len(),
        b.subrange(i, i + ser_tri(v).len()) =~= ser_tri(v),
    ensures
        sp_frame_end(b, i, false, false) == sp_frame_end(b, i + ser_tri(v).len(), false, false),
{
    lemma_words_scan_safe();
    match v {
        Some(true) => lemma_scan_word(b, i, lit_true()),
        Some(false) => lemma_scan_word(b, i, lit_false()),
        None => lemma_scan_word(b, i, lit_null()),
    }
}

/// The scanner crosses a decimal number.
proof fn lemma_scan_num(b: Seq<u8>, i: int, n: nat)
    requires
        0 <= i,
        i + dec_digits(n).len() <= b.len(),
        b.subrange(i, i + dec_digits(n).len()) =~= dec_digits(n),
    ensures
        sp_frame_end(b, i, false, false) == sp_frame_end(
            b,
            i + dec_digits(n).len(),
            false,
            false,
        ),
{
    crate::json::lemma_dec_digits(n);
    assert forall|m: int|
        0 <= m < dec_digits(n).len() implies #[trigger] dec_digits(n)[m] != QUOTE && dec_digits(
        n,
    )[m] != RBRACE by {
        assert(is_digit(dec_digits(n)[m]));
    }
    lemma_scan_word(b, i, dec_digits(n));
}

/// The frame scanner finds exactly the end of a serialized snapshot at
/// the front of the buffer, whatever bytes follow it: together with
/// `lemma_status_round_trip`, a buffer that begins with a canonical frame
/// always steps to `FrameStep::Frame` with that snapshot.
#[verifier::rlimit(100)]
pub proof fn lemma_frame_end_of_status(u: StatusUpdateView, rest: Seq<u8>)
    ensures
        sp_frame_end(ser_status(u) + rest, 0, false, false) == Some(
            ser_status(u).len() as int,
        ),
{
    lemma_keys_shaped();
    crate::json::lemma_dec_digits(u.slots_idle);
    crate::json::lemma_dec_digits(u.slots_processing);
    crate::codec::lemma_status_regions(u, rest);
    let c1 = key_agent_name();
    let w1 = ser_opt_str(u.agent_name);
    let c2 = key_error();
    let w2 = ser_opt_str(u.error);
    let c3 = key_external_llamacpp_addr();
    let w3 = ser_str_val(u.external_llamacpp_addr);
    let c4 = key_slots_idle();
    let w4 = dec_digits(u.slots_idle);
    let c5 = key_slots_processing();
    let w5 = dec_digits(u.slots_processing);
    let c6 = key_is_authorized();
    let w6 = ser_tri(u.is_authorized);
    let c7 = key_is_slots_endpoint_enabled();
    let w7 = ser_tri(u.is_slots_endpoint_enabled);
    let w = ser_status(u);
    let b = w + rest;
    let p1 = 1int;
    let p2 = p1 + c1.len();
    let p3 = p2 + w1.len();
    let p4 = p3 + c2.len();
    let p5 = p4 + w2.len();
    let p6 = p5 + c3.len();
    let p7 = p6 + w3.len();
    let p8 = p7 + c4.len();
    let p9 = p8 + w4.len();
    let p10 = p9 + c5.len();
    let p11 = p10 + w5.len();
    let p12 = p11 + c6.len();
    let p13 = p12 + w6.len();
    let p14 = p13 + c7.len();
    let p15 = p14 + w7.len();
    assert(w.len() == p15 + 1);
    assert(b[0] == LBRACE);
    assert(sp_frame_end(b, 0, false, false) == sp_frame_end(b, 1, false, false));
    lemma_scan_key(b, p1, c1, 0);
    lemma_scan_opt_str(b, p2, u.agent_name);
    lemma_scan_key(b, p3, c2, 1);
    lemma_scan_opt_str(b, p4, u.error);
    lemma_scan_key(b, p5, c3, 1);
    lemma_scan_str_val(b, p6, u.external_llamacpp_addr);
    lemma_scan_key(b, p7, c4, 1);
    lemma_scan_num(b, p8, u.slots_idle);
    lemma_scan_key(b, p9, c5, 1);
    lemma_scan_num(b, p10, u.slots_processing);
    lemma_scan_key(b, p11, c6, 1);
    lemma_scan_tri(b, p12, u.is_authorized);
    lemma_scan_key(b, p13, c7, 1);
    lemma_scan_tri(b, p14, u.is_slots_endpoint_enabled);
    assert(b[p15] == RBRACE);
    assert(sp_frame_end(b, p15, false, false) == Some(p15 + 1));
}

/// One step of draining the ingress buffer.
pub enum FrameStep {
    /// A complete, well-formed frame was removed from the buffer.
    Frame(StatusUpdate),
    /// No complete frame is buffered yet; read more bytes.
    Incomplete,
    /// A complete frame did not parse; the connection must close and the
    /// pool stays untouched.
    Malformed,
}

/// The receive buffer of one agent connection.
pub struct StatusIngress {
    pub buffer: Vec<u8>,
}

impl StatusIngress {
    /// An ingress with an empty buffer.
    pub fn new() -> (r: StatusIngress)
        ensures
            r.buffer@ == Seq::<u8>::empty(),
    {
        let r = StatusIngress { buffer: Vec::new() };
        proof {
            assert(r.buffer@ =~= Seq::<u8>::empty());
        }
        r
    }

    /// Appends one received chunk, however the intermediaries split the
    /// stream.
    pub fn push_chunk(&mut self, chunk: &[u8])
        ensures
            final(self).buffer@ == old(self).buffer@ + chunk@,
    {
        self.buffer.extend_from_slice(chunk);
    }

    /// Takes the first complete frame out of the buffer, if one is there.
    pub fn next_frame(&mut self) -> (r: FrameStep)
        ensures
            match r {
                FrameStep::Incomplete => sp_frame_end(old(self).buffer@, 0, false, false) is None
                    && final(self).buffer@ == old(self).buffer@,
                FrameStep::Malformed => sp_frame_end(old(self).buffer@, 0, false, false) is Some
                    && final(self).buffer@ == old(self).buffer@ && match sp_status(
                    old(self).buffer@,
                    0,
                ) {
                    None => true,
                    Some(v) => v.0.slots_idle > usize::MAX || v.0.slots_processing > usize::MAX,
                },
                FrameStep::Frame(u) => match sp_status(old(self).buffer@, 0) {
                    Some(v) => u@ == v.0 && final(self).buffer@ == old(self).buffer@.skip(v.1),
                    None => false,
                },
            },
    {
        match scan_frame(&self.buffer) {
            None => FrameStep::Incomplete,
            Some(_end) => {
                match parse_status_update(&self.buffer, 0) {
                    Some((update, used)) => {
                        let tail = self.buffer.split_off(used);
                        self.buffer = tail;
                        FrameStep::Frame(update)
                    },
                    None => FrameStep::Malformed,
                }
            },
        }
    }
}

/// The deadline after which a silent connection is considered dead:
/// three monitoring intervals past the last frame.
pub fn idle_deadline(last_frame_at: u64, interval_ms: u64) -> (r: u64)
    ensures
        r as nat == if last_frame_at + interval_ms * 3 > u64::MAX {
            u64::MAX as nat
        } else {
            (last_frame_at + interval_ms * 3) as nat
        },
{
    let window: u64 = if interval_ms > u64::MAX / 3 {
        u64::MAX
    } else {
        interval_ms * 3
    };
    last_frame_at.saturating_add(window)
}

/// Whether a silent connection has outlived its idle deadline and must be
/// closed, its peer quarantined.
pub fn idle_expired(now: u64, last_frame_at: u64, interval_ms: u64) -> (r: bool)
    ensures
        r == (now as nat >= if last_frame_at + interval_ms * 3 > u64::MAX {
            u64::MAX as nat
        } else {
            (last_frame_at + interval_ms * 3) as nat
        }),
{
    now >= idle_deadline(last_frame_at, interval_ms)
}

/// Whether a peer's quarantine has expired without a fresh status update,
/// so the peer is to be removed. A status update lifts the quarantine, so
/// a reconnecting agent keeps its peer.
pub fn remove_due(peer: &UpstreamPeer, now: u64) -> (r: bool)
    ensures
        r == match peer@.quarantined_until {
            Some(deadline) => now as nat >= deadline,
            None => false,
        },
{
    match peer.quarantined_until {
        Some(deadline) => now >= deadline,
        None => false,
    }
}

} // verus!

//! Column layout helpers for the terminal dashboard.
//!
//! The dashboard renders the pool snapshot as a table. The functions here
//! compute the cell texts of one row and the column width hints; drawing
//! itself happens outside this crate.

use vstd::prelude::*;
use vstd::string::StrSliceExecFns;
use vstd::string::StringExecFns;
use vstd::string::StringSliceAdditionalSpecFns;
use vstd::utf8::encode_utf8;

use crate::upstream_peer::PeerView;
use crate::upstream_peer::UpstreamPeer;

verus! {

/// Largest timestamp (milliseconds since the epoch) the date formatter
/// accepts: the last millisecond of year 9999.
pub const MAX_FORMAT_TS: u64 = 253402300799999;

/// The text chrono renders for a millisecond timestamp with the format
/// `%Y/%m/%d, %H:%M:%S` in UTC; it depends on the timestamp alone.
pub uninterp spec fn strftime_of(ms: u64) -> Seq<char>;

/// Relies on chrono's `DateTime::<Utc>::from_timestamp_millis` and
/// `format`: for timestamps up to year 9999 the conversion succeeds, and
/// the rendered text is a function of the timestamp alone (fixed format,
/// UTC, no locale).
#[verifier::external_body]
fn strftime_millis(ms: u64) -> (r: String)
    requires
        ms <= MAX_FORMAT_TS,
    ensures
        r@ == strftime_of(ms),
{
    let datetime = chrono::DateTime::<chrono::Utc>::from_timestamp_millis(ms as i64)
        .expect("timestamp within year 9999 range");
    datetime.format("%Y/%m/%d, %H:%M:%S").to_string()
}

/// The decimal digit character for a value below ten.
pub open spec fn digit_char(d: nat) -> char {
    ((48 + d) as u8) as char
}

/// The decimal text of a number, most significant digit first.
pub open spec fn dec_chars(n: nat) -> Seq<char>
    decreases n,
{
    if n < 10 {
        seq![digit_char(n)]
    } else {
        dec_chars(n / 10).push(digit_char(n % 10))
    }
}

/// The one-character string for a decimal digit.
fn digit_literal(d: usize) -> (r: &'static str)
    requires
        d < 10,
    ensures
        r@ == seq![digit_char(d as nat)],
{
    proof {
        reveal_strlit("0");
        reveal_strlit("1");
        reveal_strlit("2");
        reveal_strlit("3");
        reveal_strlit("4");
        reveal_strlit("5");
        reveal_strlit("6");
        reveal_strlit("7");
        reveal_strlit("8");
        reveal_strlit("9");
    }
    let r: &'static str = if d == 0 {
        "0"
    } else if d == 1 {
        "1"
    } else if d == 2 {
        "2"
    } else if d == 3 {
        "3"
    } else if d == 4 {
        "4"
    } else if d == 5 {
        "5"
    } else if d == 6 {
        "6"
    } else if d == 7 {
        "7"
    } else if d == 8 {
        "8"
    } else {
        "9"
    };
    proof {
        assert(r@ =~= seq![digit_char(d as nat)]);
    }
    r
}

/// Renders a count as decimal text.
pub fn format_usize(n: usize) -> (s: String)
    ensures
        s@ == dec_chars(n as nat),
    decreases n,
{
    if n < 10 {
        String::from_str(digit_literal(n))
    } else {
        let mut s = format_usize(n / 10);
        s.append(digit_literal(n % 10));
        proof {
            assert(s@ =~= dec_chars(n as nat));
        }
        s
    }
}

/// Number of digits in the decimal text of a count.
pub fn dec_len(n: usize) -> (r: usize)
    ensures
        r == dec_chars(n as nat).len(),
        r >= 1,
    decreases n,
{
    if n < 10 {
        1
    } else {
        let rest = dec_len(n / 10);
        proof {
            assert(dec_chars(n as nat).len() == dec_chars((n / 10) as nat).len() + 1);
            lemma_dec_chars_len_small((n / 10) as nat);
        }
        rest + 1
    }
}

/// A decimal text is never longer than the number has bits.
proof fn lemma_dec_chars_len_small(n: nat)
    ensures
        dec_chars(n).len() <= n + 1,
    decreases n,
{
    if n >= 10 {
        lemma_dec_chars_len_small(n / 10);
    }
}

/// Byte length of a character sequence in UTF-8.
pub open spec fn str_blen(s: Seq<char>) -> nat {
    encode_utf8(s).len()
}

/// One accumulation step of the column width heuristic: a cell wider than
/// the running value adds its width.
pub open spec fn acc_step(acc: nat, v: nat) -> nat {
    if v > acc {
        if acc + v > usize::MAX {
            usize::MAX as nat
        } else {
            acc + v
        }
    } else {
        acc
    }
}

/// The column width heuristic folded over a row of cell widths.
pub open spec fn col_acc(vs: Seq<nat>) -> nat
    decreases vs.len(),
{
    if vs.len() == 0 {
        0
    } else {
        acc_step(col_acc(vs.drop_last()), vs.last())
    }
}

/// Width of an optional text cell; an absent value takes no room.
pub open spec fn opt_blen(v: Option<Seq<char>>) -> nat {
    match v {
        Some(s) => str_blen(s),
        None => 0,
    }
}

/// The widths of the name column cells.
pub open spec fn name_widths(s: Seq<PeerView>) -> Seq<nat> {
    s.map_values(|p: PeerView| opt_blen(p.agent_name))
}

/// The widths of the issue column cells.
pub open spec fn error_widths(s: Seq<PeerView>) -> Seq<nat> {
    s.map_values(|p: PeerView| opt_blen(p.error))
}

/// The widths of the address column cells.
pub open spec fn addr_widths(s: Seq<PeerView>) -> Seq<nat> {
    s.map_values(|p: PeerView| str_blen(p.external_llamacpp_addr))
}

/// The widths of the idle slots column cells.
pub open spec fn idle_widths(s: Seq<PeerView>) -> Seq<nat> {
    s.map_values(|p: PeerView| dec_chars(p.slots_idle).len())
}

/// The widths of the processing slots column cells.
pub open spec fn processing_widths(s: Seq<PeerView>) -> Seq<nat> {
    s.map_values(|p: PeerView| dec_chars(p.slots_processing).len())
}

/// The widths of the last update column cells.
pub open spec fn date_widths(s: Seq<PeerView>) -> Seq<nat> {
    s.map_values(|p: PeerView| str_blen(strftime_of(p.last_update as u64)))
}

/// Truncation of a width to the table's cell type.
pub open spec fn as_col(n: nat) -> u16 {
    (n % 0x10000) as u16
}

/// Computes the six column width hints of the agent table: name, issue,
/// address, last update, idle slots, processing slots.
pub fn constraint_len_calculator(items: Vec<UpstreamPeer>) -> (r: (u16, u16, u16, u16, u16, u16))
    requires
        forall|i: int|
            0 <= i < items.deep_view().len() ==> #[trigger] items.deep_view()[i].last_update
                <= MAX_FORMAT_TS,
    ensures
        ({
            let s = items.deep_view();
            &&& r.0 == as_col(col_acc(name_widths(s)))
            &&& r.1 == as_col(col_acc(error_widths(s)))
            &&& r.2 == as_col(col_acc(addr_widths(s)))
            &&& r.3 == as_col(col_acc(date_widths(s)))
            &&& r.4 == as_col(col_acc(idle_widths(s)))
            &&& r.5 == as_col(col_acc(processing_widths(s)))
        }),
{
    let ghost s: Seq<PeerView> = items.deep_view();
    let mut name: usize = 0;
    let mut error: usize = 0;
    let mut addr: usize = 0;
    let mut date: usize = 0;
    let mut idle: usize = 0;
    let mut processing: usize = 0;
    let n = items.len();
    let mut i: usize = 0;
    proof {
        lemma_widths_take(s, 0);
    }
    while i < n
        invariant
            i <= n,
            n == items@.len(),
            s == items.deep_view(),
            s.len() == n,
            forall|k: int| 0 <= k < s.len() ==> #[trigger] s[k].last_update <= MAX_FORMAT_TS,
            name == col_acc(name_widths(s.take(i as int))),
            error == col_acc(error_widths(s.take(i as int))),
            addr == col_acc(addr_widths(s.take(i as int))),
            date == col_acc(date_widths(s.take(i as int))),
            idle == col_acc(idle_widths(s.take(i as int))),
            processing == col_acc(processing_widths(s.take(i as int))),
        decreases n - i,
    {
        proof {
            assert(s[i as int] == items@[i as int]@);
            assert(s[i as int].last_update <= MAX_FORMAT_TS);
        }
        let p = &items[i];
        let name_w = match &p.agent_name {
            Some(v) => v.as_str().as_bytes_vec().len(),
            None => 0,
        };
        let error_w = match &p.error {
            Some(v) => v.as_str().as_bytes_vec().len(),
            None => 0,
        };
        let addr_w = p.external_llamacpp_addr.as_str().as_bytes_vec().len();
        let date_w = strftime_millis(p.last_update).as_str().as_bytes_vec().len();
        let idle_w = dec_len(p.slots_idle);
        let processing_w = dec_len(p.slots_processing);
        proof {
            assert(name_w as nat == opt_blen(s[i as int].agent_name));
            assert(error_w as nat == opt_blen(s[i as int].error));
            assert(addr_w as nat == str_blen(s[i as int].external_llamacpp_addr));
            assert(date_w as nat == str_blen(strftime_of(s[i as int].last_update as u64)));
        }
        name = acc_widen(name, name_w);
        error = acc_widen(error, error_w);
        addr = acc_widen(addr, addr_w);
        date = acc_widen(date, date_w);
        idle = acc_widen(idle, idle_w);
        processing = acc_widen(processing, processing_w);
        proof {
            lemma_widths_step(s, i as int);
        }
        i = i + 1;
    }
    proof {
        assert(s.take(n as int) =~= s);
        assert(name == col_acc(name_widths(s)));
        assert(error == col_acc(error_widths(s)));
        assert(addr == col_acc(addr_widths(s)));
        assert(date == col_acc(date_widths(s)));
        assert(idle == col_acc(idle_widths(s)));
        assert(processing == col_acc(processing_widths(s)));
    }
    (to_col(name), to_col(error), to_col(addr), to_col(date), to_col(idle), to_col(processing))
}

/// Truncates a width to the table's cell type.
fn to_col(n: usize) -> (r: u16)
    ensures
        r == as_col(n as nat),
{
    (n % 0x10000) as u16
}

/// One accumulation step of the width heuristic.
fn acc_widen(acc: usize, v: usize) -> (r: usize)
    ensures
        r == acc_step(acc as nat, v as nat),
{
    if v > acc {
        acc.saturating_add(v)
    } else {
        acc
    }
}

/// The width sequences of a one-longer prefix end in the new peer's cells.
proof fn lemma_widths_step(s: Seq<PeerView>, i: int)
    requires
        0 <= i < s.len(),
    ensures
        name_widths(s.take(i + 1)).drop_last() =~= name_widths(s.take(i)),
        name_widths(s.take(i + 1)).last() == opt_blen(s[i].agent_name),
        error_widths(s.take(i + 1)).drop_last() =~= error_widths(s.take(i)),
        error_widths(s.take(i + 1)).last() == opt_blen(s[i].error),
        addr_widths(s.take(i + 1)).drop_last() =~= addr_widths(s.take(i)),
        addr_widths(s.take(i + 1)).last() == str_blen(s[i].external_llamacpp_addr),
        date_widths(s.take(i + 1)).drop_last() =~= date_widths(s.take(i)),
        date_widths(s.take(i + 1)).last() == str_blen(strftime_of(s[i].last_update as u64)),
        idle_widths(s.take(i + 1)).drop_last() =~= idle_widths(s.take(i)),
        idle_widths(s.take(i + 1)).last() == dec_chars(s[i].slots_idle).len(),
        processing_widths(s.take(i + 1)).drop_last() =~= processing_widths(s.take(i)),
        processing_widths(s.take(i + 1)).last() == dec_chars(s[i].slots_processing).len(),
{
    assert(s.take(i + 1).last() == s[i]);
}

/// The width sequences of the empty prefix are empty.
proof fn lemma_widths_take(s: Seq<PeerView>, i: int)
    ensures
        name_widths(s.take(0)).len() == 0,
        error_widths(s.take(0)).len() == 0,
        addr_widths(s.take(0)).len() == 0,
        date_widths(s.take(0)).len() == 0,
        idle_widths(s.take(0)).len() == 0,
        processing_widths(s.take(0)).len() == 0,
{
}

/// The row selected after moving down: one step, wrapping to the top
/// after the last row; an empty table or no selection selects the top.
pub fn next_row_index(selected: Option<usize>, len: usize) -> (r: usize)
    ensures
        r == match selected {
            Some(i) => if len > 0 && i + 1 < len {
                i + 1
            } else {
                0
            },
            None => 0,
        },
{
    match selected {
        Some(i) => {
            if len > 0 && i < len - 1 {
                i + 1
            } else {
                0
            }
        },
        None => 0,
    }
}

/// The row selected after moving up: one step, wrapping to the bottom
/// before the first row; an empty table or no selection selects the top.
pub fn previous_row_index(selected: Option<usize>, len: usize) -> (r: usize)
    ensures
        r == match selected {
            Some(i) => if i == 0 {
                if len > 0 {
                    (len - 1) as int
                } else {
                    0
                }
            } else {
                i as int
                    - 1
            },
            None => 0,
        },
{
    match selected {
        Some(i) => {
            if i == 0 {
                if len > 0 {
                    len - 1
                } else {
                    0
                }
            } else {
                i - 1
            }
        },
        None => 0,
    }
}

/// Renders one table row for a peer: name, issue, address, last update,
/// idle slots, processing slots.
pub fn ref_array(peer: UpstreamPeer) -> (r: [String; 6])
    requires
        peer@.last_update <= MAX_FORMAT_TS,
    ensures
        r@.len() == 6,
        r@[0]@ == match peer@.agent_name {
            Some(s) => s,
            None => ""@,
        },
        r@[1]@ == match peer@.error {
            Some(s) => s,
            None => "None"@,
        },
        r@[2]@ == peer@.external_llamacpp_addr,
        r@[3]@ == strftime_of(peer.last_update),
        r@[4]@ == dec_chars(peer@.slots_idle),
        r@[5]@ == dec_chars(peer@.slots_processing),
{
    let has_name = match peer.agent_name {
        Some(name) => name,
        None => String::from_str(""),
    };
    let has_issue = match peer.error {
        Some(issue) => issue,
        None => String::from_str("None"),
    };
    let date_as_string = strftime_millis(peer.last_update);
    let idle = format_usize(peer.slots_idle);
    let processing = format_usize(peer.slots_processing);
    [has_name, has_issue, peer.external_llamacpp_addr, date_as_string, idle, processing]
}

} // verus!

//! Extraction of statistics from raw `ping` output text, for the Unix and
//! the Windows dialect, by the same heuristic scanning the tool itself
//! invites: summary lines are found by their landmark substrings and pulled
//! apart around them, and anything that does not parse leaves its field
//! absent rather than failing.

use crate::num::is_digit;
use crate::num::loss_e4;
use crate::num::loss_e4_exec;
use crate::num::avg_round_tenth;
use crate::num::avg_round_tenth_exec;
use crate::num::parse_scaled_exec;
use crate::num::parse_u64_exec;
use crate::num::round_tenth;
use crate::num::round_tenth_exec;
use crate::num::seq_min;
use crate::num::seq_max;
use crate::num::spec_parse_scaled;
use crate::num::spec_parse_u64;
use crate::num::SCALED_LIMIT;
use crate::report::render_report;
use crate::report::spec_report;
use crate::stats::spec_detect;
use crate::stats::detect;
use crate::stats::PingStatistics;
use crate::stats::Platform;
use crate::text::chars_of;
use crate::text::contains_exec;
use crate::text::contains_seq;
use crate::text::count_occ;
use crate::text::count_occ_exec;
use crate::text::find_sub;
use crate::text::first_idx;
use crate::text::first_match;
use crate::text::first_some;
use crate::text::first_where;
use crate::text::lemma_first_idx_unique;
use crate::text::lemma_first_some_found;
use crate::text::lemma_first_some_step;
use crate::text::lemma_first_where_found;
use crate::text::lemma_first_where_step;
use crate::text::split_lines;
use crate::text::split_lines_exec;
use crate::text::split_sep;
use crate::text::split_sep_exec;
use crate::text::subvec;
use crate::text::views;
use vstd::prelude::*;

verus! {

/// Whitespace as the summary tokens use it.
pub open spec fn is_ws(c: char) -> bool {
    c == ' ' || c == '\t' || c == '\r'
}

/// A character a decimal number is written with.
pub open spec fn is_numch(c: char) -> bool {
    is_digit(c) || c == '.'
}

/// The first whitespace-delimited word of `t`.
pub open spec fn spec_first_word(t: Seq<char>) -> Seq<char> {
    let a = first_idx(t, |c: char| !is_ws(c));
    let rest = t.skip(a as int);
    rest.take(first_idx(rest, |c: char| is_ws(c)) as int)
}

/// Start of the longest all-numeric suffix of `t`.
pub open spec fn num_suffix_start(t: Seq<char>) -> int
    decreases t.len(),
{
    if t.len() == 0 {
        0
    } else if is_numch(t.last()) {
        num_suffix_start(t.drop_last())
    } else {
        t.len() as int
    }
}

proof fn lemma_num_suffix_props(t: Seq<char>)
    ensures
        0 <= num_suffix_start(t) <= t.len(),
        forall|k: int| num_suffix_start(t) <= k < t.len() ==> is_numch(t[k]),
        num_suffix_start(t) > 0 ==> !is_numch(t[num_suffix_start(t) - 1]),
    decreases t.len(),
{
    if t.len() == 0 {
    } else if is_numch(t.last()) {
        lemma_num_suffix_props(t.drop_last());
        assert forall|k: int| num_suffix_start(t) <= k < t.len() implies is_numch(t[k]) by {
            if k < t.len() - 1 {
                assert(t.drop_last()[k] == t[k]);
            }
        }
        if num_suffix_start(t) > 0 {
            assert(t.drop_last()[num_suffix_start(t) - 1] == t[num_suffix_start(t) - 1]);
        }
    } else {
    }
}

proof fn lemma_num_suffix_unique(t: Seq<char>, j: int)
    requires
        0 <= j <= t.len(),
        j > 0 ==> !is_numch(t[j - 1]),
        forall|k: int| j <= k < t.len() ==> is_numch(t[k]),
    ensures
        num_suffix_start(t) == j,
{
    lemma_num_suffix_props(t);
    let s = num_suffix_start(t);
    if s < j {
        assert(is_numch(t[j - 1]));
        assert(false);
    }
    if j < s {
        assert(is_numch(t[s - 1]));
        assert(false);
    }
}

/// A token yields a leading count when it carries the given landmark.
pub open spec fn tok_leading(tok: Seq<char>, pat: Seq<char>) -> Option<u64> {
    if contains_seq(tok, pat) {
        spec_parse_u64(spec_first_word(tok))
    } else {
        None
    }
}

pub open spec fn tok_transmitted(tok: Seq<char>) -> Option<u64> {
    tok_leading(tok, "transmitted"@)
}

pub open spec fn tok_received(tok: Seq<char>) -> Option<u64> {
    tok_leading(tok, "received"@)
}

/// The number immediately before the first percent sign of a token that
/// speaks of loss.
pub open spec fn tok_loss(tok: Seq<char>) -> Option<u64> {
    if contains_seq(tok, "loss"@) {
        let p = first_idx(tok, |c: char| c == '%');
        if p < tok.len() {
            let pre = tok.take(p as int);
            spec_parse_scaled(pre.skip(num_suffix_start(pre)))
        } else {
            None
        }
    } else {
        None
    }
}

/// The value between `"time "` and the following `"ms"` of a token.
pub open spec fn tok_time(tok: Seq<char>) -> Option<u64> {
    if contains_seq(tok, "time "@) {
        let a = tok.skip((first_match(tok, "time "@) + 5) as int);
        let m = first_match(a, "ms"@);
        if m + 2 <= a.len() {
            spec_parse_scaled(a.take(m as int))
        } else {
            None
        }
    } else {
        None
    }
}

/// The Unix summary line: it speaks of transmitted packets and of received ones.
pub open spec fn is_unix_summary(l: Seq<char>) -> bool {
    contains_seq(l, "packets transmitted"@) && contains_seq(l, "received"@)
}

pub open spec fn unix_tx(l: Seq<char>) -> Option<u64> {
    first_some(split_sep(l, ", "@), |x: Seq<char>| tok_transmitted(x))
}

pub open spec fn unix_rx(l: Seq<char>) -> Option<u64> {
    first_some(split_sep(l, ", "@), |x: Seq<char>| tok_received(x))
}

pub open spec fn unix_loss(l: Seq<char>) -> Option<u64> {
    first_some(split_sep(l, ", "@), |x: Seq<char>| tok_loss(x))
}

pub open spec fn unix_time(l: Seq<char>) -> Option<u64> {
    first_some(split_sep(l, ", "@), |x: Seq<char>| tok_time(x))
}

/// The Unix round-trip-time line.
pub open spec fn is_rtt_line(l: Seq<char>) -> bool {
    contains_seq(l, "rtt min/avg/max"@)
}

/// The four slash-separated values between `" = "` and `" ms"`: all four
/// must be present and parse, or none is taken.
pub open spec fn rtt_of_line(l: Seq<char>) -> Option<(u64, u64, u64, u64)> {
    if contains_seq(l, " = "@) {
        let vp = l.skip((first_match(l, " = "@) + 3) as int);
        if contains_seq(vp, " ms"@) {
            let vs = vp.take(first_match(vp, " ms"@) as int);
            let vals = split_sep(vs, "/"@);
            if vals.len() >= 4 && spec_parse_scaled(vals[0]) is Some && spec_parse_scaled(
                vals[1],
            ) is Some && spec_parse_scaled(vals[2]) is Some && spec_parse_scaled(vals[3]) is Some {
                Some(
                    (
                        spec_parse_scaled(vals[0])->Some_0,
                        spec_parse_scaled(vals[1])->Some_0,
                        spec_parse_scaled(vals[2])->Some_0,
                        spec_parse_scaled(vals[3])->Some_0,
                    ),
                )
            } else {
                None
            }
        } else {
            None
        }
    } else {
        None
    }
}

/// Everything the Unix extractor yields on a text: the fields of the first
/// summary line, and the round-trip times of the first such line, taken all
/// together or not at all.
pub open spec fn spec_unix_stats(t: Seq<char>) -> PingStatistics {
    let ls = split_lines(t);
    let sum = first_where(ls, |l: Seq<char>| is_unix_summary(l));
    let rtt = match first_where(ls, |l: Seq<char>| is_rtt_line(l)) {
        Some(l) => rtt_of_line(l),
        None => None,
    };
    PingStatistics {
        packets_transmitted: match sum {
            Some(l) => unix_tx(l),
            None => None,
        },
        packets_received: match sum {
            Some(l) => unix_rx(l),
            None => None,
        },
        packets_lost: None,
        packet_loss_e4: match sum {
            Some(l) => unix_loss(l),
            None => None,
        },
        total_time_ms_e4: match sum {
            Some(l) => unix_time(l),
            None => None,
        },
        rtt_min_ms_e4: match rtt {
            Some(r) => Some(r.0),
            None => None,
        },
        rtt_avg_ms_e4: match rtt {
            Some(r) => Some(r.1),
            None => None,
        },
        rtt_max_ms_e4: match rtt {
            Some(r) => Some(r.2),
            None => None,
        },
        rtt_mdev_ms_e4: match rtt {
            Some(r) => Some(r.3),
            None => None,
        },
    }
}

fn is_ws_exec(c: char) -> (b: bool)
    ensures
        b == is_ws(c),
{
    c == ' ' || c == '\t' || c == '\r'
}

fn is_numch_exec(c: char) -> (b: bool)
    ensures
        b == is_numch(c),
{
    (c >= '0' && c <= '9') || c == '.'
}

/// The first whitespace-delimited word of a token.
fn first_word_exec(tok: &Vec<char>) -> (w: Vec<char>)
    ensures
        w@ == spec_first_word(tok@),
{
    let n: usize = tok.len();
    let mut a: usize = 0;
    while a < n && is_ws_exec(tok[a])
        invariant
            n == tok@.len(),
            a <= n,
            forall|k: int| 0 <= k < a ==> is_ws(tok@[k]),
        decreases n - a,
    {
        a = a + 1;
    }
    proof {
        lemma_first_idx_unique(tok@, |c: char| !is_ws(c), a as int);
    }
    let ghost rest = tok@.skip(a as int);
    let mut b: usize = a;
    while b < n && !is_ws_exec(tok[b])
        invariant
            n == tok@.len(),
            a <= b <= n,
            forall|k: int| a <= k < b ==> !is_ws(tok@[k]),
        decreases n - b,
    {
        b = b + 1;
    }
    proof {
        assert forall|k: int| 0 <= k < b - a implies !((|c: char| is_ws(c))(rest[k])) by {
            assert(rest[k] == tok@[a + k]);
        }
        if b < n {
            assert(rest[b - a] == tok@[b as int]);
        }
        lemma_first_idx_unique(rest, |c: char| is_ws(c), b - a);
    }
    let w = subvec(tok, a, b);
    assert(w@ =~= rest.take(b - a));
    w
}

fn tok_transmitted_exec(tok: &Vec<char>) -> (r: Option<u64>)
    ensures
        r == tok_transmitted(tok@),
{
    proof {
        reveal_strlit("transmitted");
    }
    let pat = chars_of("transmitted");
    if contains_exec(tok, &pat) {
        let w = first_word_exec(tok);
        parse_u64_exec(&w)
    } else {
        None
    }
}

fn tok_received_exec(tok: &Vec<char>) -> (r: Option<u64>)
    ensures
        r == tok_received(tok@),
{
    proof {
        reveal_strlit("received");
    }
    let pat = chars_of("received");
    if contains_exec(tok, &pat) {
        let w = first_word_exec(tok);
        parse_u64_exec(&w)
    } else {
        None
    }
}

fn tok_loss_exec(tok: &Vec<char>) -> (r: Option<u64>)
    ensures
        r == tok_loss(tok@),
{
    proof {
        reveal_strlit("loss");
    }
    let pat = chars_of("loss");
    if !contains_exec(tok, &pat) {
        return None;
    }
    let n: usize = tok.len();
    let mut p: usize = 0;
    while p < n && tok[p] != '%'
        invariant
            n == tok@.len(),
            p <= n,
            forall|k: int| 0 <= k < p ==> tok@[k] != '%',
        decreases n - p,
    {
        p = p + 1;
    }
    proof {
        lemma_first_idx_unique(tok@, |c: char| c == '%', p as int);
    }
    if p == n {
        return None;
    }
    let pre = subvec(tok, 0, p);
    assert(pre@ =~= tok@.take(p as int));
    let mut j: usize = p;
    while j > 0 && is_numch_exec(pre[j - 1])
        invariant
            p == pre@.len(),
            j <= p,
            forall|k: int| j <= k < p ==> is_numch(pre@[k]),
        decreases j,
    {
        j = j - 1;
    }
    proof {
        lemma_num_suffix_unique(pre@, j as int);
    }
    let frag = subvec(&pre, j, p);
    assert(frag@ =~= pre@.skip(j as int));
    parse_scaled_exec(&frag)
}

fn tok_time_exec(tok: &Vec<char>) -> (r: Option<u64>)
    ensures
        r == tok_time(tok@),
{
    proof {
        reveal_strlit("time ");
        reveal_strlit("ms");
    }
    let pat = chars_of("time ");
    match find_sub(tok, &pat) {
        Some(i) => {
            proof {
                assert(i + 5 <= tok@.len());
            }
            let nn: usize = tok.len();
            let a = subvec(tok, i + 5, nn);
            assert(a@ =~= tok@.skip(i + 5));
            let msp = chars_of("ms");
            match find_sub(&a, &msp) {
                Some(m) => {
                    let vs = subvec(&a, 0, m);
                    assert(vs@ =~= a@.take(m as int));
                    parse_scaled_exec(&vs)
                },
                None => None,
            }
        },
        None => None,
    }
}

fn is_unix_summary_exec(l: &Vec<char>) -> (b: bool)
    ensures
        b == is_unix_summary(l@),
{
    proof {
        reveal_strlit("packets transmitted");
        reveal_strlit("received");
    }
    let p1 = chars_of("packets transmitted");
    let p2 = chars_of("received");
    contains_exec(l, &p1) && contains_exec(l, &p2)
}

fn is_rtt_line_exec(l: &Vec<char>) -> (b: bool)
    ensures
        b == is_rtt_line(l@),
{
    proof {
        reveal_strlit("rtt min/avg/max");
    }
    let p = chars_of("rtt min/avg/max");
    contains_exec(l, &p)
}

/// Index of the first Unix summary line.
fn find_summary_line(lines: &Vec<Vec<char>>) -> (r: Option<usize>)
    ensures
        match r {
            Some(i) => i < lines@.len() && first_where(
                views(lines@),
                |l: Seq<char>| is_unix_summary(l),
            ) == Some(lines@[i as int]@),
            None => first_where(views(lines@), |l: Seq<char>| is_unix_summary(l)) is None,
        },
{
    let n: usize = lines.len();
    let mut i: usize = 0;
    proof {
        assert(views(lines@).skip(0) =~= views(lines@));
    }
    while i < n
        invariant
            n == lines@.len(),
            i <= n,
            first_where(views(lines@), |l: Seq<char>| is_unix_summary(l)) == first_where(
                views(lines@).skip(i as int),
                |l: Seq<char>| is_unix_summary(l),
            ),
        decreases n - i,
    {
        if is_unix_summary_exec(&lines[i]) {
            proof {
                lemma_first_where_found(views(lines@), |l: Seq<char>| is_unix_summary(l), i as int);
            }
            return Some(i);
        }
        proof {
            lemma_first_where_step(views(lines@), |l: Seq<char>| is_unix_summary(l), i as int);
        }
        i = i + 1;
    }
    proof {
        assert(views(lines@).skip(n as int) =~= Seq::<Seq<char>>::empty());
    }
    None
}

/// Index of the first round-trip-time line.
fn find_rtt_line(lines: &Vec<Vec<char>>) -> (r: Option<usize>)
    ensures
        match r {
            Some(i) => i < lines@.len() && first_where(
                views(lines@),
                |l: Seq<char>| is_rtt_line(l),
            ) == Some(lines@[i as int]@),
            None => first_where(views(lines@), |l: Seq<char>| is_rtt_line(l)) is None,
        },
{
    let n: usize = lines.len();
    let mut i: usize = 0;
    proof {
        assert(views(lines@).skip(0) =~= views(lines@));
    }
    while i < n
        invariant
            n == lines@.len(),
            i <= n,
            first_where(views(lines@), |l: Seq<char>| is_rtt_line(l)) == first_where(
                views(lines@).skip(i as int),
                |l: Seq<char>| is_rtt_line(l),
            ),
        decreases n - i,
    {
        if is_rtt_line_exec(&lines[i]) {
            proof {
                lemma_first_where_found(views(lines@), |l: Seq<char>| is_rtt_line(l), i as int);
            }
            return Some(i);
        }
        proof {
            lemma_first_where_step(views(lines@), |l: Seq<char>| is_rtt_line(l), i as int);
        }
        i = i + 1;
    }
    proof {
        assert(views(lines@).skip(n as int) =~= Seq::<Seq<char>>::empty());
    }
    None
}

fn unix_tx_exec(line: &Vec<char>) -> (r: Option<u64>)
    ensures
        r == unix_tx(line@),
{
    proof {
        reveal_strlit(", ");
    }
    let sep = chars_of(", ");
    let toks = split_sep_exec(line, &sep);
    let ghost tv = views(toks@);
    let n: usize = toks.len();
    let mut i: usize = 0;
    proof {
        assert(tv.skip(0) =~= tv);
    }
    while i < n
        invariant
            n == toks@.len(),
            i <= n,
            tv == views(toks@),
            tv == split_sep(line@, ", "@),
            first_some(tv, |x: Seq<char>| tok_transmitted(x)) == first_some(
                tv.skip(i as int),
                |x: Seq<char>| tok_transmitted(x),
            ),
        decreases n - i,
    {
        let o = tok_transmitted_exec(&toks[i]);
        if o.is_some() {
            proof {
                lemma_first_some_found(tv, |x: Seq<char>| tok_transmitted(x), i as int);
            }
            return o;
        }
        proof {
            lemma_first_some_step(tv, |x: Seq<char>| tok_transmitted(x), i as int);
        }
        i = i + 1;
    }
    proof {
        assert(tv.skip(n as int) =~= Seq::<Seq<char>>::empty());
    }
    None
}

fn unix_rx_exec(line: &Vec<char>) -> (r: Option<u64>)
    ensures
        r == unix_rx(line@),
{
    proof {
        reveal_strlit(", ");
    }
    let sep = chars_of(", ");
    let toks = split_sep_exec(line, &sep);
    let ghost tv = views(toks@);
    let n: usize = toks.len();
    let mut i: usize = 0;
    proof {
        assert(tv.skip(0) =~= tv);
    }
    while i < n
        invariant
            n == toks@.len(),
            i <= n,
            tv == views(toks@),
            tv == split_sep(line@, ", "@),
            first_some(tv, |x: Seq<char>| tok_received(x)) == first_some(
                tv.skip(i as int),
                |x: Seq<char>| tok_received(x),
            ),
        decreases n - i,
    {
        let o = tok_received_exec(&toks[i]);
        if o.is_some() {
            proof {
                lemma_first_some_found(tv, |x: Seq<char>| tok_received(x), i as int);
            }
            return o;
        }
        proof {
            lemma_first_some_step(tv, |x: Seq<char>| tok_received(x), i as int);
        }
        i = i + 1;
    }
    proof {
        assert(tv.skip(n as int) =~= Seq::<Seq<char>>::empty());
    }
    None
}

fn unix_loss_exec(line: &Vec<char>) -> (r: Option<u64>)
    ensures
        r == unix_loss(line@),
{
    proof {
        reveal_strlit(", ");
    }
    let sep = chars_of(", ");
    let toks = split_sep_exec(line, &sep);
    let ghost tv = views(toks@);
    let n: usize = toks.len();
    let mut i: usize = 0;
    proof {
        assert(tv.skip(0) =~= tv);
    }
    while i < n
        invariant
            n == toks@.len(),
            i <= n,
            tv == views(toks@),
            tv == split_sep(line@, ", "@),
            first_some(tv, |x: Seq<char>| tok_loss(x)) == first_some(
                tv.skip(i as int),
                |x: Seq<char>| tok_loss(x),
            ),
        decreases n - i,
    {
        let o = tok_loss_exec(&toks[i]);
        if o.is_some() {
            proof {
                lemma_first_some_found(tv, |x: Seq<char>| tok_loss(x), i as int);
            }
            return o;
        }
        proof {
            lemma_first_some_step(tv, |x: Seq<char>| tok_loss(x), i as int);
        }
        i = i + 1;
    }
    proof {
        assert(tv.skip(n as int) =~= Seq::<Seq<char>>::empty());
    }
    None
}

fn unix_time_exec(line: &Vec<char>) -> (r: Option<u64>)
    ensures
        r == unix_time(line@),
{
    proof {
        reveal_strlit(", ");
    }
    let sep = chars_of(", ");
    let toks = split_sep_exec(line, &sep);
    let ghost tv = views(toks@);
    let n: usize = toks.len();
    let mut i: usize = 0;
    proof {
        assert(tv.skip(0) =~= tv);
    }
    while i < n
        invariant
            n == toks@.len(),
            i <= n,
            tv == views(toks@),
            tv == split_sep(line@, ", "@),
            first_some(tv, |x: Seq<char>| tok_time(x)) == first_some(
                tv.skip(i as int),
                |x: Seq<char>| tok_time(x),
            ),
        decreases n - i,
    {
        let o = tok_time_exec(&toks[i]);
        if o.is_some() {
            proof {
                lemma_first_some_found(tv, |x: Seq<char>| tok_time(x), i as int);
            }
            return o;
        }
        proof {
            lemma_first_some_step(tv, |x: Seq<char>| tok_time(x), i as int);
        }
        i = i + 1;
    }
    proof {
        assert(tv.skip(n as int) =~= Seq::<Seq<char>>::empty());
    }
    None
}

fn rtt_of_line_exec(line: &Vec<char>) -> (r: Option<(u64, u64, u64, u64)>)
    ensures
        r == rtt_of_line(line@),
{
    proof {
        reveal_strlit(" = ");
        reveal_strlit(" ms");
        reveal_strlit("/");
    }
    let eq = chars_of(" = ");
    let i = match find_sub(line, &eq) {
        Some(i) => i,
        None => {
            return None;
        },
    };
    proof {
        assert(i + 3 <= line@.len());
    }
    let nn: usize = line.len();
    let vp = subvec(line, i + 3, nn);
    assert(vp@ =~= line@.skip(i + 3));
    let msp = chars_of(" ms");
    let m = match find_sub(&vp, &msp) {
        Some(m) => m,
        None => {
            return None;
        },
    };
    let vs = subvec(&vp, 0, m);
    assert(vs@ =~= vp@.take(m as int));
    let slash = chars_of("/");
    let vals = split_sep_exec(&vs, &slash);
    let ghost vv = views(vals@);
    if vals.len() < 4 {
        return None;
    }
    let a = parse_scaled_exec(&vals[0]);
    let b = parse_scaled_exec(&vals[1]);
    let c = parse_scaled_exec(&vals[2]);
    let d = parse_scaled_exec(&vals[3]);
    match (a, b, c, d) {
        (Some(a), Some(b), Some(c), Some(d)) => Some((a, b, c, d)),
        _ => None,
    }
}

/// Extracts statistics from Unix-style `ping` output.
pub fn parse_unix_ping(output: &str) -> (r: PingStatistics)
    ensures
        r == spec_unix_stats(output@),
{
    let text = chars_of(output);
    let lines = split_lines_exec(&text);
    let mut stats = PingStatistics::empty();
    match find_summary_line(&lines) {
        Some(i) => {
            stats.packets_transmitted = unix_tx_exec(&lines[i]);
            stats.packets_received = unix_rx_exec(&lines[i]);
            stats.packet_loss_e4 = unix_loss_exec(&lines[i]);
            stats.total_time_ms_e4 = unix_time_exec(&lines[i]);
        },
        None => {},
    }
    match find_rtt_line(&lines) {
        Some(i) => {
            match rtt_of_line_exec(&lines[i]) {
                Some(q) => {
                    stats.rtt_min_ms_e4 = Some(q.0);
                    stats.rtt_avg_ms_e4 = Some(q.1);
                    stats.rtt_max_ms_e4 = Some(q.2);
                    stats.rtt_mdev_ms_e4 = Some(q.3);
                },
                None => {},
            }
        },
        None => {},
    }
    stats
}

/// The Windows statistics line.
pub open spec fn is_lost_line(l: Seq<char>) -> bool {
    contains_seq(l, "Lost ="@)
}

/// What follows the first occurrence of `p` in `l`.
pub open spec fn after_first(l: Seq<char>, p: Seq<char>) -> Seq<char> {
    l.skip((first_match(l, p) + p.len()) as int)
}

/// The count after a marker, truncated at the first comma.
pub open spec fn win_count_field(l: Seq<char>, marker: Seq<char>) -> Option<u64> {
    let a = after_first(l, marker);
    spec_parse_u64(a.take(first_idx(a, |c: char| c == ',') as int))
}

/// The count after `"Lost = "`, truncated at the first space.
pub open spec fn win_lost_field(l: Seq<char>) -> Option<u64> {
    let a = after_first(l, "Lost = "@);
    spec_parse_u64(a.take(first_idx(a, |c: char| c == ' ') as int))
}

/// Sent, received and lost counts of a Windows statistics line; all three
/// markers must be present for any to be read.
pub open spec fn win_summary_fields(l: Seq<char>) -> (Option<u64>, Option<u64>, Option<u64>) {
    if contains_seq(l, "Sent = "@) && contains_seq(l, "Received = "@) && contains_seq(
        l,
        "Lost = "@,
    ) {
        (win_count_field(l, "Sent = "@), win_count_field(l, "Received = "@), win_lost_field(l))
    } else {
        (None, None, None)
    }
}

/// Transmitted, received, lost and loss-percent fields of a Windows text.
/// With a statistics line the counts come from it and the percentage is
/// recomputed from sent and received; without one, four probes are assumed,
/// the replies are counted, and the percentage is synthesized from those.
pub open spec fn win_packet_fields(t: Seq<char>) -> (
    Option<u64>,
    Option<u64>,
    Option<u64>,
    Option<u64>,
) {
    match first_where(split_lines(t), |l: Seq<char>| is_lost_line(l)) {
        Some(l) => {
            let f = win_summary_fields(l);
            let loss = if f.0 is Some && f.1 is Some {
                Some(loss_e4(f.0->Some_0, f.1->Some_0))
            } else {
                None
            };
            (f.0, f.1, f.2, loss)
        },
        None => {
            let rc = count_occ(t, "Reply from"@) as u64;
            (Some(4u64), Some(rc), None, Some(loss_e4(4u64, rc)))
        },
    }
}

/// The round-trip sample of one reply line: the value between the `"time"`
/// marker, five characters past its start, and the following `"ms"`.
pub open spec fn line_time_sample(l: Seq<char>) -> Option<u64> {
    if contains_seq(l, "time="@) || contains_seq(l, "time<"@) {
        let part = l.skip(first_match(l, "time"@) as int);
        let m = first_match(part, "ms"@);
        if m + 2 <= part.len() && m >= 5 {
            spec_parse_scaled(part.subrange(5, m as int))
        } else {
            None
        }
    } else {
        None
    }
}

/// All round-trip samples of a text, in line order.
pub open spec fn time_samples(ls: Seq<Seq<char>>) -> Seq<u64>
    decreases ls.len(),
{
    if ls.len() == 0 {
        Seq::empty()
    } else {
        match line_time_sample(ls[0]) {
            Some(v) => seq![v] + time_samples(ls.drop_first()),
            None => time_samples(ls.drop_first()),
        }
    }
}

/// Everything the Windows extractor yields on a text. Total time and mean
/// deviation never come from this dialect.
pub open spec fn spec_windows_stats(t: Seq<char>) -> PingStatistics {
    let p = win_packet_fields(t);
    let samples = time_samples(split_lines(t));
    PingStatistics {
        packets_transmitted: p.0,
        packets_received: p.1,
        packets_lost: p.2,
        packet_loss_e4: p.3,
        total_time_ms_e4: None,
        rtt_min_ms_e4: if samples.len() > 0 {
            Some(round_tenth(seq_min(samples) as nat) as u64)
        } else {
            None
        },
        rtt_avg_ms_e4: if samples.len() > 0 {
            Some(avg_round_tenth(samples) as u64)
        } else {
            None
        },
        rtt_max_ms_e4: if samples.len() > 0 {
            Some(round_tenth(seq_max(samples) as nat) as u64)
        } else {
            None
        },
        rtt_mdev_ms_e4: None,
    }
}

fn is_lost_line_exec(l: &Vec<char>) -> (b: bool)
    ensures
        b == is_lost_line(l@),
{
    proof {
        reveal_strlit("Lost =");
    }
    let p = chars_of("Lost =");
    contains_exec(l, &p)
}

/// Index of the first Windows statistics line.
fn find_lost_line(lines: &Vec<Vec<char>>) -> (r: Option<usize>)
    ensures
        match r {
            Some(i) => i < lines@.len() && first_where(
                views(lines@),
                |l: Seq<char>| is_lost_line(l),
            ) == Some(lines@[i as int]@),
            None => first_where(views(lines@), |l: Seq<char>| is_lost_line(l)) is None,
        },
{
    let n: usize = lines.len();
    let mut i: usize = 0;
    proof {
        assert(views(lines@).skip(0) =~= views(lines@));
    }
    while i < n
        invariant
            n == lines@.len(),
            i <= n,
            first_where(views(lines@), |l: Seq<char>| is_lost_line(l)) == first_where(
                views(lines@).skip(i as int),
                |l: Seq<char>| is_lost_line(l),
            ),
        decreases n - i,
    {
        if is_lost_line_exec(&lines[i]) {
            proof {
                lemma_first_where_found(views(lines@), |l: Seq<char>| is_lost_line(l), i as int);
            }
            return Some(i);
        }
        proof {
            lemma_first_where_step(views(lines@), |l: Seq<char>| is_lost_line(l), i as int);
        }
        i = i + 1;
    }
    proof {
        assert(views(lines@).skip(n as int) =~= Seq::<Seq<char>>::empty());
    }
    None
}

/// The comma-truncated count after a marker known to occur in the line.
fn win_count_field_exec(l: &Vec<char>, marker: &Vec<char>) -> (r: Option<u64>)
    requires
        marker@.len() > 0,
        contains_seq(l@, marker@),
    ensures
        r == win_count_field(l@, marker@),
{
    let i = match find_sub(l, marker) {
        Some(i) => i,
        None => {
            proof {
                assert(false);
            }
            return None;
        },
    };
    proof {
        assert(i + marker@.len() <= l@.len());
    }
    let nn: usize = l.len();
    let a = subvec(l, i + marker.len(), nn);
    assert(a@ =~= after_first(l@, marker@));
    let m: usize = a.len();
    let mut c: usize = 0;
    while c < m && a[c] != ','
        invariant
            m == a@.len(),
            c <= m,
            forall|k: int| 0 <= k < c ==> a@[k] != ',',
        decreases m - c,
    {
        c = c + 1;
    }
    proof {
        lemma_first_idx_unique(a@, |x: char| x == ',', c as int);
    }
    let w = subvec(&a, 0, c);
    assert(w@ =~= a@.take(c as int));
    parse_u64_exec(&w)
}

/// The space-truncated count after `"Lost = "`.
fn win_lost_field_exec(l: &Vec<char>) -> (r: Option<u64>)
    requires
        contains_seq(l@, "Lost = "@),
    ensures
        r == win_lost_field(l@),
{
    proof {
        reveal_strlit("Lost = ");
    }
    let marker = chars_of("Lost = ");
    let i = match find_sub(l, &marker) {
        Some(i) => i,
        None => {
            proof {
                assert(false);
            }
            return None;
        },
    };
    proof {
        assert(i + marker@.len() <= l@.len());
    }
    let nn: usize = l.len();
    let a = subvec(l, i + marker.len(), nn);
    assert(a@ =~= after_first(l@, "Lost = "@));
    let m: usize = a.len();
    let mut c: usize = 0;
    while c < m && a[c] != ' '
        invariant
            m == a@.len(),
            c <= m,
            forall|k: int| 0 <= k < c ==> a@[k] != ' ',
        decreases m - c,
    {
        c = c + 1;
    }
    proof {
        lemma_first_idx_unique(a@, |x: char| x == ' ', c as int);
    }
    let w = subvec(&a, 0, c);
    assert(w@ =~= a@.take(c as int));
    parse_u64_exec(&w)
}

/// The round-trip sample of one line, when it carries one.
fn line_time_sample_exec(l: &Vec<char>) -> (r: Option<u64>)
    ensures
        r == line_time_sample(l@),
        r is Some ==> r->Some_0 < SCALED_LIMIT,
{
    proof {
        reveal_strlit("time=");
        reveal_strlit("time<");
        reveal_strlit("time");
        reveal_strlit("ms");
    }
    let te = chars_of("time=");
    let tl = chars_of("time<");
    if !(contains_exec(l, &te) || contains_exec(l, &tl)) {
        return None;
    }
    let tp = chars_of("time");
    let i = match find_sub(l, &tp) {
        Some(i) => i,
        None => {
            proof {
                if contains_seq(l@, "time="@) {
                    let k = choose|k: int| crate::text::match_at(l@, "time="@, k);
                    assert(l@.subrange(k, k + 4) =~= l@.subrange(k, k + 5).take(4));
                    assert(l@.subrange(k, k + 5).take(4) =~= "time"@);
                    assert(crate::text::match_at(l@, "time"@, k));
                } else {
                    let k = choose|k: int| crate::text::match_at(l@, "time<"@, k);
                    assert(l@.subrange(k, k + 4) =~= l@.subrange(k, k + 5).take(4));
                    assert(l@.subrange(k, k + 5).take(4) =~= "time"@);
                    assert(crate::text::match_at(l@, "time"@, k));
                }
                assert(false);
            }
            return None;
        },
    };
    let nn: usize = l.len();
    let part = subvec(l, i, nn);
    assert(part@ =~= l@.skip(i as int));
    let msv = chars_of("ms");
    match find_sub(&part, &msv) {
        Some(m) => {
            if m >= 5 {
                let vs = subvec(&part, 5, m);
                assert(vs@ =~= part@.subrange(5, m as int));
                parse_scaled_exec(&vs)
            } else {
                None
            }
        },
        None => None,
    }
}

/// Collects the round-trip samples of all lines, in order.
fn collect_time_samples(lines: &Vec<Vec<char>>) -> (s: Vec<u64>)
    ensures
        s@ == time_samples(views(lines@)),
        forall|k: int| 0 <= k < s@.len() ==> s@[k] < SCALED_LIMIT,
{
    let ghost lv = views(lines@);
    let n: usize = lines.len();
    let mut out: Vec<u64> = Vec::new();
    let mut i: usize = 0;
    proof {
        assert(lv.skip(0) =~= lv);
    }
    while i < n
        invariant
            n == lines@.len(),
            i <= n,
            lv == views(lines@),
            time_samples(lv) == out@ + time_samples(lv.skip(i as int)),
            forall|k: int| 0 <= k < out@.len() ==> out@[k] < SCALED_LIMIT,
        decreases n - i,
    {
        proof {
            assert(lv.skip(i as int)[0] == lv[i as int]);
            assert(lv.skip(i as int).drop_first() =~= lv.skip(i + 1));
        }
        match line_time_sample_exec(&lines[i]) {
            Some(v) => {
                let ghost oldv = out@;
                out.push(v);
                proof {
                    assert(out@ =~= oldv.push(v));
                    assert(oldv.push(v) + time_samples(lv.skip(i + 1)) =~= oldv + (seq![v]
                        + time_samples(lv.skip(i + 1))));
                }
            },
            None => {},
        }
        i = i + 1;
    }
    proof {
        assert(lv.skip(n as int) =~= Seq::<Seq<char>>::empty());
        assert(out@ =~= out@ + time_samples(lv.skip(n as int)));
    }
    out
}

/// The least sample.
fn seq_min_exec(s: &Vec<u64>) -> (m: u64)
    requires
        s@.len() > 0,
    ensures
        m == seq_min(s@),
{
    let n: usize = s.len();
    let mut m: u64 = s[0];
    let mut i: usize = 1;
    assert(s@.take(1) =~= seq![s@[0]]);
    while i < n
        invariant
            n == s@.len(),
            1 <= i <= n,
            m == seq_min(s@.take(i as int)),
        decreases n - i,
    {
        proof {
            assert(s@.take(i + 1).drop_last() =~= s@.take(i as int));
            assert(s@.take(i + 1).last() == s@[i as int]);
        }
        if s[i] < m {
            m = s[i];
        }
        i = i + 1;
    }
    assert(s@.take(n as int) =~= s@);
    m
}

/// The greatest sample.
fn seq_max_exec(s: &Vec<u64>) -> (m: u64)
    requires
        s@.len() > 0,
    ensures
        m == seq_max(s@),
{
    let n: usize = s.len();
    let mut m: u64 = s[0];
    let mut i: usize = 1;
    assert(s@.take(1) =~= seq![s@[0]]);
    while i < n
        invariant
            n == s@.len(),
            1 <= i <= n,
            m == seq_max(s@.take(i as int)),
        decreases n - i,
    {
        proof {
            assert(s@.take(i + 1).drop_last() =~= s@.take(i as int));
            assert(s@.take(i + 1).last() == s@[i as int]);
        }
        if s[i] > m {
            m = s[i];
        }
        i = i + 1;
    }
    assert(s@.take(n as int) =~= s@);
    m
}

/// The least and greatest of a bounded sequence stay below the bound.
proof fn lemma_min_max_bound(s: Seq<u64>)
    requires
        s.len() > 0,
        forall|k: int| 0 <= k < s.len() ==> s[k] < SCALED_LIMIT,
    ensures
        seq_min(s) < SCALED_LIMIT,
        seq_max(s) < SCALED_LIMIT,
    decreases s.len(),
{
    if s.len() == 1 {
    } else {
        assert(forall|k: int| 0 <= k < s.len() - 1 ==> s.drop_last()[k] == s[k]);
        lemma_min_max_bound(s.drop_last());
    }
}

/// Extracts statistics from Windows-style `ping` output.
pub fn parse_windows_ping(output: &str) -> (r: PingStatistics)
    ensures
        r == spec_windows_stats(output@),
{
    proof {
        reveal_strlit("Sent = ");
        reveal_strlit("Received = ");
        reveal_strlit("Lost = ");
        reveal_strlit("Reply from");
    }
    let text = chars_of(output);
    let lines = split_lines_exec(&text);
    let mut stats = PingStatistics::empty();
    match find_lost_line(&lines) {
        Some(i) => {
            let sentp = chars_of("Sent = ");
            let recvp = chars_of("Received = ");
            let lostp = chars_of("Lost = ");
            if contains_exec(&lines[i], &sentp) && contains_exec(&lines[i], &recvp)
                && contains_exec(&lines[i], &lostp) {
                let tx = win_count_field_exec(&lines[i], &sentp);
                let rx = win_count_field_exec(&lines[i], &recvp);
                let lost = win_lost_field_exec(&lines[i]);
                stats.packets_transmitted = tx;
                stats.packets_received = rx;
                stats.packets_lost = lost;
                match (tx, rx) {
                    (Some(sent), Some(rcv)) => {
                        stats.packet_loss_e4 = Some(loss_e4_exec(sent, rcv));
                    },
                    _ => {},
                }
            }
        },
        None => {
            let reply = chars_of("Reply from");
            let rc: usize = count_occ_exec(&text, &reply);
            stats.packets_transmitted = Some(4);
            stats.packets_received = Some(rc as u64);
            stats.packet_loss_e4 = Some(loss_e4_exec(4, rc as u64));
        },
    }
    let samples = collect_time_samples(&lines);
    if samples.len() > 0 {
        proof {
            lemma_min_max_bound(samples@);
        }
        let mn = seq_min_exec(&samples);
        let mx = seq_max_exec(&samples);
        stats.rtt_min_ms_e4 = Some(round_tenth_exec(mn));
        stats.rtt_avg_ms_e4 = Some(avg_round_tenth_exec(&samples));
        stats.rtt_max_ms_e4 = Some(round_tenth_exec(mx));
    }
    stats
}

/// What a text parses to: the extractor its detected dialect selects.
pub open spec fn spec_ping_stats(t: Seq<char>) -> PingStatistics {
    if spec_detect(t) is Windows {
        spec_windows_stats(t)
    } else {
        spec_unix_stats(t)
    }
}

/// Detects the dialect of the output and extracts its statistics.
pub fn parse_ping_statistics(output: &str) -> (r: PingStatistics)
    ensures
        r == spec_ping_stats(output@),
{
    match detect(output) {
        Platform::Windows => parse_windows_ping(output),
        Platform::Unix => parse_unix_ping(output),
    }
}

/// Parses `ping` output and renders the report block for it.
pub fn parse_ping_output(output: &str) -> (r: String)
    ensures
        r@ == spec_report(spec_ping_stats(output@)),
{
    let stats = parse_ping_statistics(output);
    render_report(&stats)
}

/// Parsing is a pure function of the text: equal raw texts yield
/// field-for-field equal statistics, on every parse.
pub proof fn lemma_parse_deterministic(t1: Seq<char>, t2: Seq<char>)
    requires
        t1 == t2,
    ensures
        spec_ping_stats(t1) == spec_ping_stats(t2),
{
}

/// Unix round-trip fields obey an all-or-nothing policy: either all four of
/// minimum, average, maximum and mean deviation are present, or none is.
pub proof fn lemma_unix_rtt_all_or_nothing(t: Seq<char>)
    ensures
        spec_unix_stats(t).rtt_min_ms_e4 is Some <==> spec_unix_stats(t).rtt_avg_ms_e4 is Some,
        spec_unix_stats(t).rtt_min_ms_e4 is Some <==> spec_unix_stats(t).rtt_max_ms_e4 is Some,
        spec_unix_stats(t).rtt_min_ms_e4 is Some <==> spec_unix_stats(t).rtt_mdev_ms_e4 is Some,
{
}

/// Windows output never yields a mean deviation or a total time, and its
/// minimum, average and maximum are present together or not at all.
pub proof fn lemma_windows_rtt_shape(t: Seq<char>)
    ensures
        spec_windows_stats(t).rtt_mdev_ms_e4 is None,
        spec_windows_stats(t).total_time_ms_e4 is None,
        spec_windows_stats(t).rtt_min_ms_e4 is Some <==> spec_windows_stats(t).rtt_avg_ms_e4 is Some,
        spec_windows_stats(t).rtt_min_ms_e4 is Some <==> spec_windows_stats(t).rtt_max_ms_e4 is Some,
{
}

/// The Windows loss percentage is always the one recomputed from the sent
/// and received counts, present exactly when both counts are.
pub proof fn lemma_windows_loss_consistent(t: Seq<char>)
    ensures
        ({
            let s = spec_windows_stats(t);
            if s.packets_transmitted is Some && s.packets_received is Some {
                s.packet_loss_e4 == Some(
                    loss_e4(s.packets_transmitted->Some_0, s.packets_received->Some_0),
                )
            } else {
                s.packet_loss_e4 is None
            }
        }),
{
}

} // verus!

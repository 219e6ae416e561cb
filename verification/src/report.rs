//! Rendering of extracted statistics as a human-readable block: one labeled
//! line per present field, in a fixed order, with a fallback line when
//! nothing at all was extracted.

use crate::num::append_scaled;
use crate::num::append_u64;
use crate::num::dec_digits;
use crate::num::scaled_str;
use crate::stats::all_absent;
use crate::stats::PingStatistics;
use vstd::prelude::*;
use vstd::string::*;

verus! {

/// A labeled line for a packet count, empty when the field is absent.
pub open spec fn opt_count_line(label: Seq<char>, v: Option<u64>) -> Seq<char> {
    match v {
        Some(n) => label + dec_digits(n as nat) + "\n"@,
        None => Seq::empty(),
    }
}

/// A labeled line for a scaled decimal with a unit, empty when absent.
pub open spec fn opt_scaled_line(label: Seq<char>, v: Option<u64>, unit: Seq<char>) -> Seq<char> {
    match v {
        Some(x) => label + scaled_str(x as nat) + unit + "\n"@,
        None => Seq::empty(),
    }
}

/// The full report text for a statistics record: transmitted, received,
/// lost, loss percentage, total time, then the round-trip-time fields, each
/// only when present; or the fixed fallback line when every field is absent.
pub open spec fn spec_report(s: PingStatistics) -> Seq<char> {
    if all_absent(s) {
        "Unable to parse ping statistics from output"@
    } else {
        opt_count_line("Packets transmitted: "@, s.packets_transmitted) + opt_count_line(
            "Packets received: "@,
            s.packets_received,
        ) + opt_count_line("Packets lost: "@, s.packets_lost) + opt_scaled_line(
            "Packet loss: "@,
            s.packet_loss_e4,
            "%"@,
        ) + opt_scaled_line("Total time: "@, s.total_time_ms_e4, "ms"@) + opt_scaled_line(
            "RTT min: "@,
            s.rtt_min_ms_e4,
            "ms"@,
        ) + opt_scaled_line("RTT avg: "@, s.rtt_avg_ms_e4, "ms"@) + opt_scaled_line(
            "RTT max: "@,
            s.rtt_max_ms_e4,
            "ms"@,
        ) + opt_scaled_line("RTT mdev: "@, s.rtt_mdev_ms_e4, "ms"@)
    }
}

/// A record with every field absent renders as exactly the fallback line,
/// with no numeric fields in it.
pub proof fn lemma_unparsable_report(s: PingStatistics)
    requires
        all_absent(s),
    ensures
        spec_report(s) == "Unable to parse ping statistics from output"@,
{
}

/// Appends one labeled count line, or nothing.
fn append_count_line(out: &mut String, label: &str, v: &Option<u64>)
    ensures
        final(out)@ == old(out)@ + opt_count_line(label@, *v),
{
    match v {
        Some(n) => {
            let ghost base = out@;
            out.append(label);
            append_u64(out, *n);
            out.append("\n");
            assert(out@ =~= base + opt_count_line(label@, Some(*n)));
        },
        None => {
            assert(out@ =~= out@ + opt_count_line(label@, None::<u64>));
        },
    }
}

/// Appends one labeled scaled-decimal line, or nothing.
fn append_scaled_line(out: &mut String, label: &str, v: &Option<u64>, unit: &str)
    ensures
        final(out)@ == old(out)@ + opt_scaled_line(label@, *v, unit@),
{
    match v {
        Some(x) => {
            let ghost base = out@;
            out.append(label);
            append_scaled(out, *x);
            out.append(unit);
            out.append("\n");
            assert(out@ =~= base + opt_scaled_line(label@, Some(*x), unit@));
        },
        None => {
            assert(out@ =~= out@ + opt_scaled_line(label@, None::<u64>, unit@));
        },
    }
}

/// Renders statistics as the multi-line report block.
pub fn render_report(s: &PingStatistics) -> (r: String)
    ensures
        r@ == spec_report(*s),
{
    if s.packets_transmitted.is_none() && s.packets_received.is_none() && s.packets_lost.is_none()
        && s.packet_loss_e4.is_none() && s.total_time_ms_e4.is_none()
        && s.rtt_min_ms_e4.is_none() && s.rtt_avg_ms_e4.is_none() && s.rtt_max_ms_e4.is_none()
        && s.rtt_mdev_ms_e4.is_none() {
        return String::from_str("Unable to parse ping statistics from output");
    }
    let mut out = String::new();
    append_count_line(&mut out, "Packets transmitted: ", &s.packets_transmitted);
    append_count_line(&mut out, "Packets received: ", &s.packets_received);
    append_count_line(&mut out, "Packets lost: ", &s.packets_lost);
    append_scaled_line(&mut out, "Packet loss: ", &s.packet_loss_e4, "%");
    append_scaled_line(&mut out, "Total time: ", &s.total_time_ms_e4, "ms");
    append_scaled_line(&mut out, "RTT min: ", &s.rtt_min_ms_e4, "ms");
    append_scaled_line(&mut out, "RTT avg: ", &s.rtt_avg_ms_e4, "ms");
    append_scaled_line(&mut out, "RTT max: ", &s.rtt_max_ms_e4, "ms");
    append_scaled_line(&mut out, "RTT mdev: ", &s.rtt_mdev_ms_e4, "ms");
    assert(out@ =~= spec_report(*s));
    out
}

} // verus!

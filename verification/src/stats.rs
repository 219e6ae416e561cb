//! The structured outcome of a parse: which `ping` dialect produced the
//! text, and the statistics extracted from it.

use crate::text::chars_of;
use crate::text::contains_exec;
use crate::text::contains_seq;
use vstd::prelude::*;

verus! {

/// The dialect a raw `ping` output text is written in.
#[derive(Clone, Copy, Debug, PartialEq, Eq, Structural)]
pub enum Platform {
    Unix,
    Windows,
}

/// Statistics extracted from one `ping` output. Every field is optional:
/// a field a text does not yield stays absent. Counts are plain integers;
/// the loss percentage and the times in milliseconds are fixed-point values
/// scaled by ten thousand (see `num::DEC_SCALE`).
#[derive(Clone, Debug, PartialEq, Eq)]
pub struct PingStatistics {
    pub packets_transmitted: Option<u64>,
    pub packets_received: Option<u64>,
    pub packets_lost: Option<u64>,
    pub packet_loss_e4: Option<u64>,
    pub total_time_ms_e4: Option<u64>,
    pub rtt_min_ms_e4: Option<u64>,
    pub rtt_avg_ms_e4: Option<u64>,
    pub rtt_max_ms_e4: Option<u64>,
    pub rtt_mdev_ms_e4: Option<u64>,
}

impl PingStatistics {
    /// Statistics with every field absent.
    pub open spec fn spec_empty() -> PingStatistics {
        PingStatistics {
            packets_transmitted: None,
            packets_received: None,
            packets_lost: None,
            packet_loss_e4: None,
            total_time_ms_e4: None,
            rtt_min_ms_e4: None,
            rtt_avg_ms_e4: None,
            rtt_max_ms_e4: None,
            rtt_mdev_ms_e4: None,
        }
    }

    /// Builds statistics with every field absent.
    pub fn empty() -> (s: PingStatistics)
        ensures
            s == PingStatistics::spec_empty(),
    {
        PingStatistics {
            packets_transmitted: None,
            packets_received: None,
            packets_lost: None,
            packet_loss_e4: None,
            total_time_ms_e4: None,
            rtt_min_ms_e4: None,
            rtt_avg_ms_e4: None,
            rtt_max_ms_e4: None,
            rtt_mdev_ms_e4: None,
        }
    }
}

/// No field carries a value.
pub open spec fn all_absent(s: PingStatistics) -> bool {
    &&& s.packets_transmitted is None
    &&& s.packets_received is None
    &&& s.packets_lost is None
    &&& s.packet_loss_e4 is None
    &&& s.total_time_ms_e4 is None
    &&& s.rtt_min_ms_e4 is None
    &&& s.rtt_avg_ms_e4 is None
    &&& s.rtt_max_ms_e4 is None
    &&& s.rtt_mdev_ms_e4 is None
}

/// The dialect a text belongs to: a reply line or a loss summary in the
/// Windows wording makes it Windows, anything else counts as Unix.
pub open spec fn spec_detect(t: Seq<char>) -> Platform {
    if contains_seq(t, "Reply from"@) || contains_seq(t, "Lost ="@) {
        Platform::Windows
    } else {
        Platform::Unix
    }
}

/// Classifies raw `ping` output text. Text containing `"Reply from"` or
/// `"Lost ="` is Windows-style; all other text, the empty text included,
/// defaults to Unix-style.
pub fn detect(output: &str) -> (p: Platform)
    ensures
        p == spec_detect(output@),
        p is Windows <==> (contains_seq(output@, "Reply from"@) || contains_seq(
            output@,
            "Lost ="@,
        )),
{
    proof {
        reveal_strlit("Reply from");
        reveal_strlit("Lost =");
    }
    let text = chars_of(output);
    let reply = chars_of("Reply from");
    let lost = chars_of("Lost =");
    if contains_exec(&text, &reply) || contains_exec(&text, &lost) {
        Platform::Windows
    } else {
        Platform::Unix
    }
}

} // verus!

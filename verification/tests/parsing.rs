use pingstats::parse::parse_ping_output;
use pingstats::parse::parse_ping_statistics;
use pingstats::parse::parse_unix_ping;
use pingstats::parse::parse_windows_ping;
use pingstats::stats::detect;
use pingstats::stats::Platform;

#[test]
fn detect_windows_by_reply_line() {
    let t = "Reply from 192.168.1.1: bytes=32 time=1ms TTL=64";
    assert_eq!(detect(t), Platform::Windows);
}

#[test]
fn detect_windows_by_lost_line() {
    let t = "Packets: Sent = 4, Received = 4, Lost = 0 (0% loss),";
    assert_eq!(detect(t), Platform::Windows);
}

#[test]
fn detect_unix_by_default() {
    assert_eq!(detect("4 packets transmitted, 4 received"), Platform::Unix);
    assert_eq!(detect("anything else entirely"), Platform::Unix);
}

#[test]
fn detect_empty_defaults_to_unix() {
    assert_eq!(detect(""), Platform::Unix);
}

#[test]
fn unix_summary_line_fields() {
    let t = "4 packets transmitted, 4 received, 0% packet loss, time 3003ms";
    let s = parse_unix_ping(t);
    assert_eq!(s.packets_transmitted, Some(4));
    assert_eq!(s.packets_received, Some(4));
    assert_eq!(s.packet_loss_e4, Some(0));
    assert_eq!(s.total_time_ms_e4, Some(3003 * 10000));
    assert_eq!(s.rtt_min_ms_e4, None);
    assert_eq!(s.packets_lost, None);
}

#[test]
fn unix_rtt_line_fields() {
    let t = "rtt min/avg/max/mdev = 0.045/0.050/0.060/0.005 ms";
    let s = parse_unix_ping(t);
    assert_eq!(s.rtt_min_ms_e4, Some(450));
    assert_eq!(s.rtt_avg_ms_e4, Some(500));
    assert_eq!(s.rtt_max_ms_e4, Some(600));
    assert_eq!(s.rtt_mdev_ms_e4, Some(50));
    assert_eq!(s.packets_transmitted, None);
}

#[test]
fn unix_full_output() {
    let t = "PING host (10.0.0.2) 56(84) bytes of data.\n\
             64 bytes from 10.0.0.2: icmp_seq=1 ttl=64 time=0.045 ms\n\
             \n\
             --- host ping statistics ---\n\
             3 packets transmitted, 2 received, 33% packet loss, time 2004ms\n\
             rtt min/avg/max/mdev = 0.040/0.050/0.060/0.010 ms\n";
    let s = parse_unix_ping(t);
    assert_eq!(s.packets_transmitted, Some(3));
    assert_eq!(s.packets_received, Some(2));
    assert_eq!(s.packet_loss_e4, Some(33 * 10000));
    assert_eq!(s.total_time_ms_e4, Some(2004 * 10000));
    assert_eq!(s.rtt_min_ms_e4, Some(400));
    assert_eq!(s.rtt_avg_ms_e4, Some(500));
    assert_eq!(s.rtt_max_ms_e4, Some(600));
    assert_eq!(s.rtt_mdev_ms_e4, Some(100));
}

#[test]
fn unix_partial_rtt_line_yields_nothing() {
    let t = "rtt min/avg/max/mdev = 0.045/0.050/0.060 ms";
    let s = parse_unix_ping(t);
    assert_eq!(s.rtt_min_ms_e4, None);
    assert_eq!(s.rtt_avg_ms_e4, None);
    assert_eq!(s.rtt_max_ms_e4, None);
    assert_eq!(s.rtt_mdev_ms_e4, None);
}

#[test]
fn unix_loss_without_space_before_percent() {
    let t = "4 packets transmitted, 3 received, 25% packet loss, time 3004ms";
    let s = parse_unix_ping(t);
    assert_eq!(s.packet_loss_e4, Some(25 * 10000));
}

#[test]
fn unix_fractional_loss() {
    let t = "3 packets transmitted, 2 received, 33.3333% packet loss, time 2004ms";
    let s = parse_unix_ping(t);
    assert_eq!(s.packet_loss_e4, Some(333333));
}

#[test]
fn unix_nonnumeric_fields_stay_absent() {
    let t = "x packets transmitted, y received, z% packet loss, time qms";
    let s = parse_unix_ping(t);
    assert_eq!(s.packets_transmitted, None);
    assert_eq!(s.packets_received, None);
    assert_eq!(s.packet_loss_e4, None);
    assert_eq!(s.total_time_ms_e4, None);
}

#[test]
fn windows_summary_line_fields() {
    let t = "Packets: Sent = 4, Received = 4, Lost = 0 (0% loss),";
    let s = parse_windows_ping(t);
    assert_eq!(s.packets_transmitted, Some(4));
    assert_eq!(s.packets_received, Some(4));
    assert_eq!(s.packets_lost, Some(0));
    assert_eq!(s.packet_loss_e4, Some(0));
    assert_eq!(s.rtt_mdev_ms_e4, None);
}

#[test]
fn windows_summary_recomputes_loss() {
    let t = "Packets: Sent = 4, Received = 3, Lost = 1 (25% loss),";
    let s = parse_windows_ping(t);
    assert_eq!(s.packets_transmitted, Some(4));
    assert_eq!(s.packets_received, Some(3));
    assert_eq!(s.packets_lost, Some(1));
    assert_eq!(s.packet_loss_e4, Some(25 * 10000));
}

#[test]
fn windows_reply_times() {
    let t = "Reply from 10.0.0.1: bytes=32 time=1ms TTL=64\n\
             Reply from 10.0.0.1: bytes=32 time=2ms TTL=64\n\
             Reply from 10.0.0.1: bytes=32 time=3ms TTL=64\n";
    let s = parse_windows_ping(t);
    assert_eq!(s.rtt_min_ms_e4, Some(10000));
    assert_eq!(s.rtt_avg_ms_e4, Some(20000));
    assert_eq!(s.rtt_max_ms_e4, Some(30000));
    assert_eq!(s.rtt_mdev_ms_e4, None);
}

#[test]
fn windows_fallback_counts_replies() {
    let t = "Reply from 10.0.0.1: bytes=32 time=1ms TTL=64\n\
             Reply from 10.0.0.1: bytes=32 time=2ms TTL=64\n\
             Reply from 10.0.0.1: bytes=32 time=3ms TTL=64\n";
    let s = parse_windows_ping(t);
    assert_eq!(s.packets_transmitted, Some(4));
    assert_eq!(s.packets_received, Some(3));
    assert_eq!(s.packet_loss_e4, Some(25 * 10000));
    assert_eq!(s.packets_lost, None);
}

#[test]
fn windows_time_less_than_marker() {
    let t = "Reply from 10.0.0.1: bytes=32 time<1ms TTL=128";
    let s = parse_windows_ping(t);
    assert_eq!(s.rtt_min_ms_e4, Some(10000));
    assert_eq!(s.rtt_avg_ms_e4, Some(10000));
    assert_eq!(s.rtt_max_ms_e4, Some(10000));
    assert_eq!(s.packets_received, Some(1));
    assert_eq!(s.packet_loss_e4, Some(75 * 10000));
}

#[test]
fn windows_average_rounds_half_up() {
    let t = "Reply from 10.0.0.1: bytes=32 time=1ms TTL=64\n\
             Reply from 10.0.0.1: bytes=32 time=1.5ms TTL=64\n";
    let s = parse_windows_ping(t);
    assert_eq!(s.rtt_min_ms_e4, Some(10000));
    assert_eq!(s.rtt_avg_ms_e4, Some(13000));
    assert_eq!(s.rtt_max_ms_e4, Some(15000));
}

#[test]
fn windows_full_output() {
    let t = "Pinging host [10.0.0.1] with 32 bytes of data:\n\
             Reply from 10.0.0.1: bytes=32 time=1ms TTL=64\n\
             Reply from 10.0.0.1: bytes=32 time=2ms TTL=64\n\
             \n\
             Ping statistics for 10.0.0.1:\n\
             Packets: Sent = 4, Received = 2, Lost = 2 (50% loss),\n";
    let s = parse_windows_ping(t);
    assert_eq!(s.packets_transmitted, Some(4));
    assert_eq!(s.packets_received, Some(2));
    assert_eq!(s.packets_lost, Some(2));
    assert_eq!(s.packet_loss_e4, Some(50 * 10000));
    assert_eq!(s.rtt_min_ms_e4, Some(10000));
    assert_eq!(s.rtt_avg_ms_e4, Some(15000));
    assert_eq!(s.rtt_max_ms_e4, Some(20000));
}

#[test]
fn reparse_is_field_for_field_identical() {
    let t = "PING host (10.0.0.2) 56(84) bytes of data.\n\
             4 packets transmitted, 4 received, 0% packet loss, time 3003ms\n\
             rtt min/avg/max/mdev = 0.045/0.050/0.060/0.005 ms\n";
    let a = parse_ping_statistics(t);
    let b = parse_ping_statistics(t);
    assert_eq!(a, b);
    let w = "Reply from 10.0.0.1: bytes=32 time=1ms TTL=64";
    assert_eq!(parse_ping_statistics(w), parse_ping_statistics(w));
}

#[test]
fn dispatch_follows_detection() {
    let w = "Packets: Sent = 4, Received = 4, Lost = 0 (0% loss),";
    let s = parse_ping_statistics(w);
    assert_eq!(s.packets_lost, Some(0));
    let u = "4 packets transmitted, 4 received, 0% packet loss, time 3003ms";
    let s2 = parse_ping_statistics(u);
    assert_eq!(s2.packets_lost, None);
    assert_eq!(s2.total_time_ms_e4, Some(3003 * 10000));
}

#[test]
fn unix_first_summary_line_wins() {
    let t = "1 packets transmitted, 1 received, 0% packet loss, time 1ms\n\
             9 packets transmitted, 9 received, 0% packet loss, time 9ms\n";
    let s = parse_unix_ping(t);
    assert_eq!(s.packets_transmitted, Some(1));
    assert_eq!(s.packets_received, Some(1));
    assert_eq!(s.total_time_ms_e4, Some(10000));
}

#[test]
fn windows_timed_out_lines_yield_no_samples() {
    let t = "Pinging host with 32 bytes of data:\n\
             Request timed out.\n\
             Request timed out.\n\
             Packets: Sent = 2, Received = 0, Lost = 2 (100% loss),\n";
    let s = parse_windows_ping(t);
    assert_eq!(s.packets_transmitted, Some(2));
    assert_eq!(s.packets_received, Some(0));
    assert_eq!(s.packets_lost, Some(2));
    assert_eq!(s.packet_loss_e4, Some(100 * 10000));
    assert_eq!(s.rtt_min_ms_e4, None);
    assert_eq!(s.rtt_avg_ms_e4, None);
    assert_eq!(s.rtt_max_ms_e4, None);
}

#[test]
fn unparsable_output_gives_fallback_line() {
    assert_eq!(parse_ping_output(""), "Unable to parse ping statistics from output");
    assert_eq!(
        parse_ping_output("no recognizable summary here"),
        "Unable to parse ping statistics from output"
    );
}

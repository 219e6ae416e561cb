use pingstats::pages::dns_success_page;
use pingstats::pages::google_success_page;
use pingstats::pages::landing_page;
use pingstats::pages::ping_success_page;
use pingstats::parse::parse_ping_output;
use pingstats::parse::parse_unix_ping;
use pingstats::report::render_report;
use pingstats::stats::PingStatistics;

fn empty_stats() -> PingStatistics {
    PingStatistics {
        packets_transmitted: None,
        packets_received: None,
        packets_lost: None,
        packet_loss_e4: None,
        total_time_ms_e4: None,
        rtt_min_ms_e4: None,
        rtt_avg_ms_e4: None,
        rtt_max_ms_e4: None,
        rtt_mdev_ms_e4: None,
    }
}

#[test]
fn empty_record_renders_fallback_line() {
    let r = render_report(&empty_stats());
    assert_eq!(r, "Unable to parse ping statistics from output");
}

#[test]
fn unix_report_text() {
    let t = "4 packets transmitted, 4 received, 0% packet loss, time 3003ms\n\
             rtt min/avg/max/mdev = 0.045/0.050/0.060/0.005 ms\n";
    let r = parse_ping_output(t);
    assert_eq!(
        r,
        "Packets transmitted: 4\n\
         Packets received: 4\n\
         Packet loss: 0%\n\
         Total time: 3003ms\n\
         RTT min: 0.045ms\n\
         RTT avg: 0.05ms\n\
         RTT max: 0.06ms\n\
         RTT mdev: 0.005ms\n"
    );
}

#[test]
fn windows_report_text() {
    let t = "Reply from 10.0.0.1: bytes=32 time=1ms TTL=64\n\
             Reply from 10.0.0.1: bytes=32 time=2ms TTL=64\n\
             Reply from 10.0.0.1: bytes=32 time=3ms TTL=64\n\
             Packets: Sent = 4, Received = 3, Lost = 1 (25% loss),\n";
    let r = parse_ping_output(t);
    assert_eq!(
        r,
        "Packets transmitted: 4\n\
         Packets received: 3\n\
         Packets lost: 1\n\
         Packet loss: 25%\n\
         RTT min: 1ms\n\
         RTT avg: 2ms\n\
         RTT max: 3ms\n"
    );
}

#[test]
fn report_renders_only_present_fields() {
    let mut s = empty_stats();
    s.packet_loss_e4 = Some(125000);
    let r = render_report(&s);
    assert_eq!(r, "Packet loss: 12.5%\n");
}

#[test]
fn partial_rtt_text_renders_fallback() {
    let t = "rtt min/avg/max/mdev = 0.045/0.050/0.060 ms\n";
    let s = parse_unix_ping(t);
    let r = render_report(&s);
    assert_eq!(r, "Unable to parse ping statistics from output");
}

#[test]
fn landing_page_text() {
    let r = landing_page("Server A", "other-server:8080");
    assert_eq!(
        r,
        "<h1>Hello from Server A!</h1><p>This is Server A running on port 8080 for Docker DNS \
         resolution testing.</p><p><a href=\"/test-dns?target=other-server:8080\">Test DNS to \
         Target Server</a></p><p><a href=\"/test-google\">Test External Connectivity \
         (Google)</a></p><p><a href=\"/test-ping\">Test Ping to HWDocker001.RTLSBench.net</a></p>"
    );
}

#[test]
fn dns_success_page_text() {
    let r = dns_success_page("S", "t:8080", "hello");
    assert_eq!(
        r,
        "<h1>DNS Test Result from S</h1><p>\u{2705} Successfully connected to \
         t:8080</p><p>Response:</p><pre>hello</pre><p><a href=\"/\">Back to home</a></p>"
    );
}

#[test]
fn google_success_page_truncates_long_bodies() {
    let long_body: String = "a".repeat(501);
    let r = google_success_page("S", "200 OK", &long_body);
    let expected_body: String = "a".repeat(500) + "...";
    assert!(r.contains(&format!("<pre>{}</pre>", expected_body)));
    let short = google_success_page("S", "200 OK", "tiny");
    assert!(short.contains("<pre>tiny</pre>"));
}

#[test]
fn ping_success_page_embeds_report_and_output() {
    let out = "4 packets transmitted, 4 received, 0% packet loss, time 3003ms";
    let r = ping_success_page("S", "host.example", out);
    assert!(r.contains("<h3>Ping Statistics:</h3><pre>Packets transmitted: 4\n"));
    assert!(r.contains("<h3>Full Output:</h3><pre>4 packets transmitted"));
    assert!(r.contains("Successfully pinged host.example"));
}

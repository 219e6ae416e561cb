//! The HTML fragments the diagnostic endpoints serve, built from plain
//! values. The surrounding server hands in what it read (environment
//! values, response bodies, command output) and embeds what comes back.

use crate::parse::parse_ping_output;
use crate::parse::spec_ping_stats;
use crate::report::spec_report;
use vstd::prelude::*;
use vstd::string::*;

verus! {

/// The landing page.
pub fn landing_page(server_name: &str, target_server: &str) -> (r: String)
    ensures
        r@ == "<h1>Hello from "@ + server_name@ + "!</h1><p>This is "@ + server_name@
            + " running on port 8080 for Docker DNS resolution testing.</p><p><a href=\"/test-dns?target="@
            + target_server@
            + "\">Test DNS to Target Server</a></p><p><a href=\"/test-google\">Test External Connectivity (Google)</a></p><p><a href=\"/test-ping\">Test Ping to HWDocker001.RTLSBench.net</a></p>"@,
{
    let mut out = String::new();
    out.append("<h1>Hello from ");
    out.append(server_name);
    out.append("!</h1><p>This is ");
    out.append(server_name);
    out.append(" running on port 8080 for Docker DNS resolution testing.</p><p><a href=\"/test-dns?target=");
    out.append(target_server);
    out.append("\">Test DNS to Target Server</a></p><p><a href=\"/test-google\">Test External Connectivity (Google)</a></p><p><a href=\"/test-ping\">Test Ping to HWDocker001.RTLSBench.net</a></p>");
    out
}

/// The name-resolution test page after a successful fetch.
pub fn dns_success_page(server_name: &str, target: &str, body: &str) -> (r: String)
    ensures
        r@ == "<h1>DNS Test Result from "@ + server_name@ + "</h1><p>✅ Successfully connected to "@
            + target@ + "</p><p>Response:</p><pre>"@ + body@
            + "</pre><p><a href=\"/\">Back to home</a></p>"@,
{
    let mut out = String::new();
    out.append("<h1>DNS Test Result from ");
    out.append(server_name);
    out.append("</h1><p>✅ Successfully connected to ");
    out.append(target);
    out.append("</p><p>Response:</p><pre>");
    out.append(body);
    out.append("</pre><p><a href=\"/\">Back to home</a></p>");
    out
}

/// The name-resolution test page when the response could not be read.
pub fn dns_read_error_page(server_name: &str, target: &str, err: &str) -> (r: String)
    ensures
        r@ == "<h1>DNS Test Result from "@ + server_name@
            + "</h1><p>❌ Error reading response from "@ + target@ + ": "@ + err@
            + "</p><p><a href=\"/\">Back to home</a></p>"@,
{
    let mut out = String::new();
    out.append("<h1>DNS Test Result from ");
    out.append(server_name);
    out.append("</h1><p>❌ Error reading response from ");
    out.append(target);
    out.append(": ");
    out.append(err);
    out.append("</p><p><a href=\"/\">Back to home</a></p>");
    out
}

/// The name-resolution test page when the connection failed.
pub fn dns_connect_error_page(server_name: &str, target: &str, err: &str) -> (r: String)
    ensures
        r@ == "<h1>DNS Test Result from "@ + server_name@ + "</h1><p>❌ Failed to connect to "@
            + target@ + ": "@ + err@ + "</p><p><a href=\"/\">Back to home</a></p>"@,
{
    let mut out = String::new();
    out.append("<h1>DNS Test Result from ");
    out.append(server_name);
    out.append("</h1><p>❌ Failed to connect to ");
    out.append(target);
    out.append(": ");
    out.append(err);
    out.append("</p><p><a href=\"/\">Back to home</a></p>");
    out
}

/// The body a response is shown as: the first five hundred characters, with
/// an ellipsis when more followed.
pub open spec fn spec_truncated_body(body: Seq<char>) -> Seq<char> {
    if body.len() > 500 {
        body.take(500) + "..."@
    } else {
        body
    }
}

/// The outward-connectivity test page after a successful fetch.
pub fn google_success_page(server_name: &str, status: &str, body: &str) -> (r: String)
    ensures
        r@ == "<h1>External Connectivity Test from "@ + server_name@
            + "</h1><p>✅ Successfully connected to Google.com</p><p>Status: "@ + status@
            + "</p><p>Response (truncated):</p><pre>"@ + spec_truncated_body(body@)
            + "</pre><p><a href=\"/\">Back to home</a></p>"@,
{
    let mut out = String::new();
    out.append("<h1>External Connectivity Test from ");
    out.append(server_name);
    out.append("</h1><p>✅ Successfully connected to Google.com</p><p>Status: ");
    out.append(status);
    out.append("</p><p>Response (truncated):</p><pre>");
    let n: usize = body.unicode_len();
    if n > 500 {
        let head = body.substring_char(0, 500);
        out.append(head);
        out.append("...");
    } else {
        out.append(body);
    }
    out.append("</pre><p><a href=\"/\">Back to home</a></p>");
    out
}

/// The outward-connectivity test page when the response could not be read.
pub fn google_read_error_page(server_name: &str, err: &str) -> (r: String)
    ensures
        r@ == "<h1>External Connectivity Test from "@ + server_name@
            + "</h1><p>❌ Error reading response from Google.com: "@ + err@
            + "</p><p><a href=\"/\">Back to home</a></p>"@,
{
    let mut out = String::new();
    out.append("<h1>External Connectivity Test from ");
    out.append(server_name);
    out.append("</h1><p>❌ Error reading response from Google.com: ");
    out.append(err);
    out.append("</p><p><a href=\"/\">Back to home</a></p>");
    out
}

/// The outward-connectivity test page when the connection failed.
pub fn google_connect_error_page(server_name: &str, err: &str) -> (r: String)
    ensures
        r@ == "<h1>External Connectivity Test from "@ + server_name@
            + "</h1><p>❌ Failed to connect to Google.com: "@ + err@
            + "</p><p><a href=\"/\">Back to home</a></p>"@,
{
    let mut out = String::new();
    out.append("<h1>External Connectivity Test from ");
    out.append(server_name);
    out.append("</h1><p>❌ Failed to connect to Google.com: ");
    out.append(err);
    out.append("</p><p><a href=\"/\">Back to home</a></p>");
    out
}

/// The ping test page after the command succeeded: the parsed statistics
/// block, then the full output.
pub fn ping_success_page(server_name: &str, target: &str, output: &str) -> (r: String)
    ensures
        r@ == "<h1>Ping Test Result from "@ + server_name@ + "</h1><p>✅ Successfully pinged "@
            + target@ + "</p><h3>Ping Statistics:</h3><pre>"@ + spec_report(
            spec_ping_stats(output@),
        ) + "</pre><h3>Full Output:</h3><pre>"@ + output@
            + "</pre><p><a href=\"/\">Back to home</a></p>"@,
{
    let stats = parse_ping_output(output);
    let mut out = String::new();
    out.append("<h1>Ping Test Result from ");
    out.append(server_name);
    out.append("</h1><p>✅ Successfully pinged ");
    out.append(target);
    out.append("</p><h3>Ping Statistics:</h3><pre>");
    out.append(stats.as_str());
    out.append("</pre><h3>Full Output:</h3><pre>");
    out.append(output);
    out.append("</pre><p><a href=\"/\">Back to home</a></p>");
    out
}

/// The ping test page when the command ran but reported failure.
pub fn ping_failure_page(server_name: &str, target: &str, stderr: &str, stdout: &str) -> (r:
    String)
    ensures
        r@ == "<h1>Ping Test Result from "@ + server_name@ + "</h1><p>❌ Ping to "@ + target@
            + " failed</p><h3>Error Output:</h3><pre>"@ + stderr@
            + "</pre><h3>Standard Output:</h3><pre>"@ + stdout@
            + "</pre><p><a href=\"/\">Back to home</a></p>"@,
{
    let mut out = String::new();
    out.append("<h1>Ping Test Result from ");
    out.append(server_name);
    out.append("</h1><p>❌ Ping to ");
    out.append(target);
    out.append(" failed</p><h3>Error Output:</h3><pre>");
    out.append(stderr);
    out.append("</pre><h3>Standard Output:</h3><pre>");
    out.append(stdout);
    out.append("</pre><p><a href=\"/\">Back to home</a></p>");
    out
}

/// The ping test page when the command could not be run at all.
pub fn ping_exec_error_page(server_name: &str, err: &str) -> (r: String)
    ensures
        r@ == "<h1>Ping Test Result from "@ + server_name@
            + "</h1><p>❌ Failed to execute ping command: "@ + err@
            + "</p><p><a href=\"/\">Back to home</a></p>"@,
{
    let mut out = String::new();
    out.append("<h1>Ping Test Result from ");
    out.append(server_name);
    out.append("</h1><p>❌ Failed to execute ping command: ");
    out.append(err);
    out.append("</p><p><a href=\"/\">Back to home</a></p>");
    out
}

} // verus!

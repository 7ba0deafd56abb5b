//! Answers to requests for what the broker tells of itself.

use vstd::prelude::*;
use vstd::string::*;
use vstd::utf8;
use crate::broker::handshake;
use crate::broker::handshake::lossy;
use crate::broker::state::BrokerState;
use crate::connection::queues::QueueTallies;
use crate::crypto::TlsProfile;
use crate::latency::LatencyHistogram;
use crate::metrics::census;
use crate::metrics::page;
use crate::metrics::page::{metrics_page, LatencySummary, QueueDepths, Report, ReportView};
use crate::policy;
use crate::text;
use crate::text::{chars_of, decimal_string, decimal_text, spells, white};

verus! {

/// The pages there are.
#[derive(Debug, Clone, Copy, PartialEq, Eq, Structural)]
pub enum Page {
    /// The metrics.
    Metrics,
    /// Whether the broker runs.
    Health,
    /// What the broker is and how it is set up.
    Info,
    /// There is no such page.
    Missing,
}

/// The first line of a text.
pub open spec fn first_line(s: Seq<char>) -> Seq<char>
    decreases s.len(),
{
    if s.len() == 0 || s[0] == '\n' {
        Seq::empty()
    } else {
        seq![s[0]] + first_line(s.drop_first())
    }
}

/// The first word of a text that does not begin with white space.
pub open spec fn word(s: Seq<char>) -> Seq<char>
    decreases s.len(),
{
    if s.len() == 0 || text::is_white(s[0]) {
        Seq::empty()
    } else {
        seq![s[0]] + word(s.drop_first())
    }
}

/// The second word of a text, if there is one: what white space separates are words.
pub open spec fn second_word(s: Seq<char>) -> Option<Seq<char>> {
    let first = text::trim_start(s);
    let rest = text::trim_start(first.skip(word(first).len() as int));
    if rest.len() == 0 {
        None
    } else {
        Some(word(rest))
    }
}

/// The page that a request asks for: its path is the second word of the first line.
pub open spec fn page_of(request: Seq<char>) -> Page {
    match second_word(first_line(request)) {
        None => Page::Missing,
        Some(path) => if path == "/metrics"@ {
            Page::Metrics
        } else if path == "/health"@ {
            Page::Health
        } else if path == "/info"@ {
            Page::Info
        } else {
            Page::Missing
        },
    }
}

/// The length of a line, from a place on.
fn line_end(all: &Vec<char>) -> (n: usize)
    ensures
        n <= all@.len(),
        all@.take(n as int) == first_line(all@),
{
    let mut n: usize = 0;
    assert(all@.skip(0) =~= all@);
    assert(all@.take(0) =~= Seq::empty());
    while n < all.len() && all[n] != '\n'
        invariant
            n <= all@.len(),
            all@.take(n as int) + first_line(all@.skip(n as int)) == first_line(all@),
        decreases all@.len() - n,
    {
        assert(all@.skip(n as int).drop_first() =~= all@.skip(n + 1));
        assert(all@.take(n + 1) =~= all@.take(n as int) + seq![all@[n as int]]);
        assert(all@.take(n as int) + (seq![all@[n as int]] + first_line(all@.skip(n + 1)))
            =~= all@.take(n + 1) + first_line(all@.skip(n + 1)));
        n = n + 1;
    }
    assert(all@.take(n as int) + Seq::<char>::empty() =~= all@.take(n as int));
    n
}

/// The place behind the white space at a place.
fn behind_white(all: &Vec<char>, from: usize, end: usize) -> (n: usize)
    requires
        from <= end <= all@.len(),
    ensures
        from <= n <= end,
        all@.subrange(n as int, end as int) == text::trim_start(
            all@.subrange(from as int, end as int),
        ),
{
    let mut n: usize = from;
    while n < end && white(all[n])
        invariant
            from <= n <= end <= all@.len(),
            text::trim_start(all@.subrange(n as int, end as int)) == text::trim_start(
                all@.subrange(from as int, end as int),
            ),
        decreases end - n,
    {
        assert(all@.subrange(n as int, end as int).drop_first() =~= all@.subrange(
            n + 1,
            end as int,
        ));
        n = n + 1;
    }
    n
}

/// The place behind the word at a place.
fn behind_word(all: &Vec<char>, from: usize, end: usize) -> (n: usize)
    requires
        from <= end <= all@.len(),
    ensures
        from <= n <= end,
        all@.subrange(from as int, n as int) == word(all@.subrange(from as int, end as int)),
{
    let mut n: usize = from;
    let ghost s = all@.subrange(from as int, end as int);
    assert(s.take(0) + word(s.skip(0)) =~= word(s)) by {
        assert(s.skip(0) =~= s);
    }
    while n < end && !white(all[n])
        invariant
            from <= n <= end <= all@.len(),
            s == all@.subrange(from as int, end as int),
            s.take(n - from) + word(s.skip(n - from)) == word(s),
        decreases end - n,
    {
        let ghost k = n - from;
        assert(s.skip(k).drop_first() =~= s.skip(k + 1));
        assert(s.take(k + 1) =~= s.take(k) + seq![s[k]]);
        assert(s.take(k) + (seq![s[k]] + word(s.skip(k + 1))) =~= s.take(k + 1) + word(
            s.skip(k + 1),
        ));
        n = n + 1;
    }
    assert(s.take(n - from) + Seq::<char>::empty() =~= s.take(n - from));
    assert(s.take(n - from) =~= all@.subrange(from as int, n as int));
    n
}

/// The page that a request asks for.
pub fn page_for(request: &str) -> (r: Page)
    ensures
        r == page_of(request@),
{
    let all = chars_of(request);
    let end: usize = line_end(&all);
    let ghost line = first_line(request@);
    assert(all@.subrange(0, end as int) =~= line);
    let first: usize = behind_white(&all, 0, end);
    let behind: usize = behind_word(&all, first, end);
    let ghost rest = all@.subrange(first as int, end as int);
    assert(rest.skip(word(rest).len() as int) =~= all@.subrange(behind as int, end as int));
    let second: usize = behind_white(&all, behind, end);
    if second == end {
        return Page::Missing;
    }
    let last: usize = behind_word(&all, second, end);
    let mut path: Vec<char> = Vec::new();
    let mut i: usize = second;
    while i < last
        invariant
            second <= i <= last <= all@.len(),
            path@ == all@.subrange(second as int, i as int),
        decreases last - i,
    {
        path.push(all[i]);
        i = i + 1;
        assert(path@ =~= all@.subrange(second as int, i as int));
    }
    if spells(&path, "/metrics") {
        Page::Metrics
    } else if spells(&path, "/health") {
        Page::Health
    } else if spells(&path, "/info") {
        Page::Info
    } else {
        Page::Missing
    }
}

/// That the broker runs.
pub open spec fn health_text(r: ReportView) -> Seq<char> {
    "{\"status\":\"ok\",\"version\":\""@ + r.version + "\",\"series\":\""@ + r.series + "\"}\n"@
}

/// Says that the broker runs.
fn health(r: &Report<'_>) -> (body: String)
    ensures
        body@ == health_text(r@),
{
    "{\"status\":\"ok\",\"version\":\"".to_owned().concat(r.version).concat(
        "\",\"series\":\"",
    ).concat(r.series).concat("\"}\n")
}

/// What the broker is, up to its limits.
pub open spec fn info_head(r: ReportView) -> Seq<char> {
    "{\"name\":\"pipistrelle\",\"version\":\""@ + r.version + "\",\"series\":\""@ + r.series
        + "\",\"mqtt\":\"5.0\",\"qos2\":true,\"retained_messages\":true,\"last_will\":true,\"persistent_sessions\":true,\"client_id_takeover\":true,\"publish_application_properties\":true,\"message_expiry\":true,\"will_crash_persistence\":true,\"unsubscribe\":true,\"server_assigned_client_id\":true,\"strict_mqtt_utf8\":true,\"topic_alias_inbound\":true,\"topic_alias_outbound\":true"@
}

/// How the broker is set up.
pub open spec fn info_limits(r: ReportView) -> Seq<char> {
    ",\"receive_maximum\":"@ + decimal_text(r.limits.receive_maximum as nat)
        + ",\"maximum_packet_size\":"@ + decimal_text(r.limits.maximum_packet_size as nat)
        + ",\"topic_alias_maximum\":"@ + decimal_text(r.topic_alias_maximum as nat)
        + ",\"tls\":\"1.3\",\"tls_profile\":\""@ + crate::crypto::profile_name(r.tls_profile)
        + "\",\"pqc_kx\":\"X25519MLKEM768\",\"client_queue_capacity\":"@ + decimal_text(
        r.limits.client_queue_capacity as nat,
    ) + ",\"max_subscriptions_per_client\":"@ + decimal_text(
        r.limits.max_subscriptions_per_client as nat,
    ) + ",\"slow_consumer_policy\":\""@ + policy::slow_consumer_name(r.limits.slow_consumer_policy)
        + "\",\"slow_consumer_timeout_ms\":"@ + decimal_text(
        r.limits.slow_consumer_timeout_ms as nat,
    ) + ",\"bridge_queue_capacity\":"@ + decimal_text(r.limits.bridge_queue_capacity as nat)
        + ",\"bridge_queue_policy\":\""@ + policy::bridge_queue_name(r.limits.bridge_queue_policy)
        + "\",\"latency_sample_rate\":"@ + decimal_text(r.limits.latency_sample_rate as nat)
        + ",\"writer_batch_packets\":"@ + decimal_text(r.limits.writer_batch_packets as nat)
        + ",\"writer_batch_bytes\":"@ + decimal_text(r.limits.writer_batch_bytes as nat) + "}\n"@
}

/// Says what the broker is and how it is set up.
fn info(r: &Report<'_>) -> (body: String)
    ensures
        body@ == info_head(r@) + info_limits(r@),
{
    let front = "{\"name\":\"pipistrelle\",\"version\":\"".to_owned().concat(r.version).concat(
        "\",\"series\":\"",
    ).concat(r.series).concat(
        "\",\"mqtt\":\"5.0\",\"qos2\":true,\"retained_messages\":true,\"last_will\":true,\"persistent_sessions\":true,\"client_id_takeover\":true,\"publish_application_properties\":true,\"message_expiry\":true,\"will_crash_persistence\":true,\"unsubscribe\":true,\"server_assigned_client_id\":true,\"strict_mqtt_utf8\":true,\"topic_alias_inbound\":true,\"topic_alias_outbound\":true",
    );
    let back = ",\"receive_maximum\":".to_owned().concat(
        decimal_string(r.limits.receive_maximum as u64).as_str(),
    ).concat(",\"maximum_packet_size\":").concat(
        decimal_string(r.limits.maximum_packet_size as u64).as_str(),
    ).concat(",\"topic_alias_maximum\":").concat(
        decimal_string(r.topic_alias_maximum as u64).as_str(),
    ).concat(",\"tls\":\"1.3\",\"tls_profile\":\"").concat(r.tls_profile.as_str()).concat(
        "\",\"pqc_kx\":\"X25519MLKEM768\",\"client_queue_capacity\":",
    ).concat(decimal_string(r.limits.client_queue_capacity).as_str()).concat(
        ",\"max_subscriptions_per_client\":",
    ).concat(decimal_string(r.limits.max_subscriptions_per_client).as_str()).concat(
        ",\"slow_consumer_policy\":\"",
    ).concat(r.limits.slow_consumer_policy.as_str()).concat(
        "\",\"slow_consumer_timeout_ms\":",
    ).concat(decimal_string(r.limits.slow_consumer_timeout_ms).as_str()).concat(
        ",\"bridge_queue_capacity\":",
    ).concat(decimal_string(r.limits.bridge_queue_capacity).as_str()).concat(
        ",\"bridge_queue_policy\":\"",
    ).concat(r.limits.bridge_queue_policy.as_str()).concat("\",\"latency_sample_rate\":").concat(
        decimal_string(r.limits.latency_sample_rate).as_str(),
    ).concat(",\"writer_batch_packets\":").concat(
        decimal_string(r.limits.writer_batch_packets).as_str(),
    ).concat(",\"writer_batch_bytes\":").concat(
        decimal_string(r.limits.writer_batch_bytes).as_str(),
    ).concat("}\n");
    front.concat(back.as_str())
}

/// Status, content type and body of a page.
pub open spec fn content(which: Page, r: ReportView) -> (Seq<char>, Seq<char>, Seq<char>) {
    match which {
        Page::Metrics => (
            "200 OK"@,
            "text/plain; version=0.0.4; charset=utf-8"@,
            page::page_text(r),
        ),
        Page::Health => ("200 OK"@, "application/json; charset=utf-8"@, health_text(r)),
        Page::Info => (
            "200 OK"@,
            "application/json; charset=utf-8"@,
            info_head(r) + info_limits(r),
        ),
        Page::Missing => ("404 Not Found"@, "text/plain; charset=utf-8"@, "not found\n"@),
    }
}

/// The answer with a page.
pub open spec fn response(which: Page, r: ReportView) -> Seq<char> {
    let (status, kind, body) = content(which, r);
    "HTTP/1.1 "@ + status + "\r\nContent-Type: "@ + kind + "\r\nContent-Length: "@ + decimal_text(
        utf8::encode_utf8(body).len(),
    ) + "\r\nConnection: close\r\n\r\n"@ + body
}

/// Answers with a page.
pub fn answer(which: Page, r: &Report<'_>) -> (answer: String)
    ensures
        answer@ == response(which, r@),
{
    let (status, kind, body): (&str, &str, String) = match which {
        Page::Metrics => (
            "200 OK",
            "text/plain; version=0.0.4; charset=utf-8",
            metrics_page(r),
        ),
        Page::Health => ("200 OK", "application/json; charset=utf-8", health(r)),
        Page::Info => ("200 OK", "application/json; charset=utf-8", info(r)),
        Page::Missing => (
            "404 Not Found",
            "text/plain; charset=utf-8",
            "not found\n".to_owned(),
        ),
    };
    let length: usize = body.as_str().as_bytes().len();
    "HTTP/1.1 ".to_owned().concat(status).concat("\r\nContent-Type: ").concat(kind).concat(
        "\r\nContent-Length: ",
    ).concat(decimal_string(length as u64).as_str()).concat(
        "\r\nConnection: close\r\n\r\n",
    ).concat(body.as_str())
}

/// Answers a request.
pub fn respond(request: &[u8], r: &Report<'_>) -> (reply: String)
    ensures
        reply@ == response(page_of(handshake::lossy_text(request@)), r@),
        utf8::valid_utf8(request@) ==> reply@ == response(
            page_of(utf8::decode_utf8(request@)),
            r@,
        ),
{
    let words = lossy(request);
    answer(page_for(words.as_str()), r)
}

impl BrokerState {
    /// All that the broker tells of itself.
    pub fn report<'a>(
        &self,
        queues: QueueTallies,
        depths: QueueDepths,
        handshakes: (u64, u64),
        latency: &LatencyHistogram,
        version: &'a str,
        series: &'a str,
        tls_profile: TlsProfile,
    ) -> (r: Report<'a>)
        requires
            self.wf(),
        ensures
            r.census == census::census_of(self@.sessions, self@.sessions.dom()),
            r.published == census::capped(
                self@.tallies.messages_published_retired as nat + r.census.published as nat,
            ),
            r.tallies == self@.tallies,
            r.queues == queues,
            r.depths == depths,
            r.retained == self@.retained.len(),
            r.pending_wills == self@.wills.dom().len(),
            r.tls_pqc == handshakes.0,
            r.tls_classical == handshakes.1,
            r.limits == self@.limits,
            r.topic_alias_maximum == self@.topic_alias_maximum,
            r.latency@.summarises(latency@),
            r.version@ == version@,
            r.series@ == series@,
            r.tls_profile == tls_profile,
    {
        assert(self@.retained.len() == self.retained@.len());
        Report {
            census: self.census(),
            published: self.messages_published(),
            tallies: self.tallies,
            queues,
            depths,
            retained: self.retained.len() as u64,
            pending_wills: self.pending_wills_count() as u64,
            tls_pqc: handshakes.0,
            tls_classical: handshakes.1,
            limits: self.limits,
            topic_alias_maximum: self.topic_alias_maximum,
            latency: LatencySummary::of(latency),
            version,
            series,
            tls_profile,
        }
    }
}

/// A page is asked for by its path alone: `/metrics`, `/health` or `/info`; there is no other.
pub proof fn law_pages_by_their_paths(request: Seq<char>)
    ensures
        ({
            let path = second_word(first_line(request));
            &&& page_of(request) is Metrics <==> path == Some(
                seq!['/', 'm', 'e', 't', 'r', 'i', 'c', 's'],
            )
            &&& page_of(request) is Health <==> path == Some(
                seq!['/', 'h', 'e', 'a', 'l', 't', 'h'],
            )
            &&& page_of(request) is Info <==> path == Some(seq!['/', 'i', 'n', 'f', 'o'])
        }),
{
    reveal_strlit("/metrics");
    reveal_strlit("/health");
    reveal_strlit("/info");
    assert("/metrics"@ =~= seq!['/', 'm', 'e', 't', 'r', 'i', 'c', 's']);
    assert("/health"@ =~= seq!['/', 'h', 'e', 'a', 'l', 't', 'h']);
    assert("/info"@ =~= seq!['/', 'i', 'n', 'f', 'o']);
    assert("/metrics"@.len() == 8 && "/health"@.len() == 7 && "/info"@.len() == 5);
}

/// The first line of a text is what stands before its first line break, or all of it.
pub proof fn law_first_line_ends_at_the_break(s: Seq<char>, n: int)
    requires
        0 <= n <= s.len(),
        forall|i: int| 0 <= i < n ==> #[trigger] s[i] != '\n',
        n < s.len() ==> s[n] == '\n',
    ensures
        first_line(s) == s.take(n),
    decreases s.len(),
{
    if n == 0 {
        assert(s.take(0) =~= Seq::empty());
    } else {
        let rest = s.drop_first();
        assert(s[0] != '\n');
        assert forall|i: int| 0 <= i < n - 1 implies #[trigger] rest[i] != '\n' by {
            assert(rest[i] == s[i + 1]);
        }
        law_first_line_ends_at_the_break(rest, n - 1);
        assert(seq![s[0]] + rest.take(n - 1) =~= s.take(n));
    }
}

/// The words of a line are what white space separates: with white space, a word, white space, and a
/// second word before the end or more white space, that one is the second word.
pub proof fn law_second_word(
    before: Seq<char>,
    first: Seq<char>,
    between: Seq<char>,
    second: Seq<char>,
    rest: Seq<char>,
)
    requires
        all_white(before),
        none_white(first),
        first.len() > 0,
        all_white(between),
        between.len() > 0,
        none_white(second),
        second.len() > 0,
        rest.len() > 0 ==> text::is_white(rest[0]),
    ensures
        second_word(before + (first + (between + (second + rest)))) == Some(second),
{
    let tail = second + rest;
    let middle = between + tail;
    let line = first + middle;
    lemma_trimmed(before, line);
    lemma_word(first, middle);
    assert(line.skip(first.len() as int) =~= middle);
    lemma_trimmed(between, tail);
    lemma_word(second, rest);
}

/// Whether a text is all white space.
pub open spec fn all_white(s: Seq<char>) -> bool {
    forall|i: int| 0 <= i < s.len() ==> text::is_white(#[trigger] s[i])
}

/// Whether a text holds no white space.
pub open spec fn none_white(s: Seq<char>) -> bool {
    forall|i: int| 0 <= i < s.len() ==> !text::is_white(#[trigger] s[i])
}

/// White space at the front is cut off, and no more.
proof fn lemma_trimmed(blank: Seq<char>, s: Seq<char>)
    requires
        all_white(blank),
        s.len() > 0,
        !text::is_white(s[0]),
    ensures
        text::trim_start(blank + s) == s,
    decreases blank.len(),
{
    if blank.len() == 0 {
        assert(blank + s =~= s);
    } else {
        let all = blank + s;
        assert(all[0] == blank[0]);
        let fewer = blank.drop_first();
        assert forall|i: int| 0 <= i < fewer.len() implies text::is_white(#[trigger] fewer[i]) by {
            assert(fewer[i] == blank[i + 1]);
        }
        lemma_trimmed(fewer, s);
        assert(all.drop_first() =~= fewer + s);
    }
}

/// A word ends with the text or at white space.
proof fn lemma_word(w: Seq<char>, rest: Seq<char>)
    requires
        none_white(w),
        rest.len() > 0 ==> text::is_white(rest[0]),
    ensures
        word(w + rest) == w,
    decreases w.len(),
{
    let all = w + rest;
    if w.len() == 0 {
        assert(all =~= rest);
        assert(word(all) =~= w);
    } else {
        assert(all[0] == w[0]);
        let fewer = w.drop_first();
        assert forall|i: int| 0 <= i < fewer.len() implies !text::is_white(#[trigger] fewer[i]) by {
            assert(fewer[i] == w[i + 1]);
        }
        lemma_word(fewer, rest);
        assert(all.drop_first() =~= fewer + rest);
        assert(seq![w[0]] + fewer =~= w);
    }
}

} // verus!

//! What the benchmark client sends.

use vstd::prelude::*;
use vstd::string::*;
use crate::bench::args::Mode;
use crate::bench::frames;
use crate::bench::frames::{encode_publish, encode_publish_topic_alias};
use crate::codec::wire::append;
use crate::text::{decimal_string, decimal_text};

verus! {

/// The client identifier of a client.
pub fn client_name(index: u64) -> (r: String)
    ensures
        r@ == "pipistrelle_native_bench_"@ + decimal_text(index as nat),
{
    "pipistrelle_native_bench_".to_owned().concat(decimal_string(index).as_str())
}

/// The topic of a client.
pub open spec fn topic_of(mode: Mode, index: nat) -> Seq<char> {
    match mode {
        Mode::Loopback => "bench/native/"@ + decimal_text(index),
        Mode::Ingest => "bench/native/ingest/"@ + decimal_text(index),
    }
}

/// The topic of a client.
pub fn topic_name(mode: Mode, index: u64) -> (r: String)
    ensures
        r@ == topic_of(mode, index as nat),
{
    match mode {
        Mode::Loopback => "bench/native/".to_owned().concat(decimal_string(index).as_str()),
        Mode::Ingest => "bench/native/ingest/".to_owned().concat(decimal_string(index).as_str()),
    }
}

/// The message that marks the end of what a client sends: the broker acknowledges it once it has
/// taken all that came before.
pub fn marker(index: u64) -> (r: Vec<u8>)
    ensures
        r@ == frames::frame(
            0x32,
            frames::publish_body(
                topic_of(Mode::Ingest, index as nat) + "/marker"@,
                seq![100u8, 111u8, 110u8, 101u8],
                1,
                Some(65535),
            ),
        ),
{
    let topic = topic_name(Mode::Ingest, index).concat("/marker");
    let mut payload: Vec<u8> = Vec::new();
    payload.push(100);
    payload.push(111);
    payload.push(110);
    payload.push(101);
    assert(payload@ =~= seq![100u8, 111u8, 110u8, 101u8]);
    encode_publish(topic.as_str(), payload.as_slice(), 1, Some(65535))
}

/// The packet identifier of the message with this number: 1 to 65535, over and over.
pub fn packet_id_of(sequence: u64) -> (id: u16)
    ensures
        id == sequence % 65535 + 1,
        id != 0,
{
    (sequence % 65535 + 1) as u16
}

/// How many messages are sent next.
pub fn next_count(sent: u64, messages: u64, window: u64) -> (n: u64)
    requires
        sent <= messages,
        window > 0,
    ensures
        n == if window < messages - sent {
            window as int
        } else {
            messages - sent
        },
        sent < messages ==> n > 0,
{
    if window < messages - sent {
        window
    } else {
        messages - sent
    }
}

/// The packet that a client sends over and over with QoS 0: with the alias, once that is
/// established, or with the topic.
pub open spec fn plain_packet(topic: Seq<char>, payload: Seq<u8>, topic_alias: bool) -> Seq<u8> {
    if topic_alias {
        frames::frame(0x30, frames::aliased_body(Seq::empty(), payload, 1))
    } else {
        frames::frame(0x30, frames::publish_body(topic, payload, 0, None))
    }
}

/// The packet that a client sends over and over with QoS 0.
pub fn packet_of(topic: &str, payload: &[u8], topic_alias: bool) -> (r: Vec<u8>)
    ensures
        r@ == plain_packet(topic@, payload@, topic_alias),
{
    if topic_alias {
        proof {
            reveal_strlit("");
            assert(""@ =~= Seq::<char>::empty());
        }
        encode_publish_topic_alias("", payload, 1)
    } else {
        encode_publish(topic, payload, 0, None)
    }
}

/// The packet that establishes the alias.
pub fn mapping_of(topic: &str, payload: &[u8]) -> (r: Vec<u8>)
    ensures
        r@ == frames::frame(0x30, frames::aliased_body(topic@, payload@, 1)),
{
    encode_publish_topic_alias(topic, payload, 1)
}

/// A packet, over and over.
pub open spec fn repeated(packet: Seq<u8>, n: nat) -> Seq<u8>
    decreases n,
{
    if n == 0 {
        Seq::empty()
    } else {
        repeated(packet, (n - 1) as nat) + packet
    }
}

/// Makes a packet, over and over.
pub fn repeat(packet: &[u8], n: usize) -> (r: Vec<u8>)
    ensures
        r@ == repeated(packet@, n as nat),
{
    let mut r: Vec<u8> = Vec::new();
    let mut i: usize = 0;
    while i < n
        invariant
            i <= n,
            r@ == repeated(packet@, i as nat),
        decreases n - i,
    {
        append(packet, &mut r);
        i = i + 1;
    }
    r
}

/// The length of a packet, over and over.
pub proof fn lemma_repeated_len(packet: Seq<u8>, n: nat)
    ensures
        repeated(packet, n).len() == n * packet.len(),
    decreases n,
{
    if n > 0 {
        lemma_repeated_len(packet, (n - 1) as nat);
        assert((n - 1) * packet.len() + packet.len() == n * packet.len()) by (nonlinear_arith);
    } else {
        assert(0 * packet.len() == 0) by (nonlinear_arith);
    }
}

/// A front of a window of packets that holds `k` of them is a window of `k` packets, so that the
/// window is made once for all.
pub proof fn law_front_of_a_window_is_a_window(packet: Seq<u8>, n: nat, k: nat)
    requires
        k <= n,
    ensures
        k * packet.len() <= repeated(packet, n).len(),
        repeated(packet, n).take((k * packet.len()) as int) == repeated(packet, k),
    decreases n,
{
    lemma_repeated_len(packet, n);
    lemma_repeated_len(packet, k);
    assert(k * packet.len() <= n * packet.len()) by (nonlinear_arith)
        requires
            k <= n,
    ;
    if k == n {
        assert(repeated(packet, n).take((k * packet.len()) as int) =~= repeated(packet, k));
    } else {
        law_front_of_a_window_is_a_window(packet, (n - 1) as nat, k);
        let before = repeated(packet, (n - 1) as nat);
        assert(repeated(packet, n).take((k * packet.len()) as int) =~= before.take(
            (k * packet.len()) as int,
        ));
    }
}

/// The messages of QoS 1 with these numbers, one after the other.
pub open spec fn numbered(topic: Seq<char>, payload: Seq<u8>, first: nat, n: nat) -> Seq<u8>
    decreases n,
{
    if n == 0 {
        Seq::empty()
    } else {
        numbered(topic, payload, first, (n - 1) as nat) + frames::frame(
            0x32,
            frames::publish_body(
                topic,
                payload,
                1,
                Some(((first + n - 1) % 65535 + 1) as u16),
            ),
        )
    }
}

/// Makes the messages of QoS 1 that are sent next.
pub fn numbered_window(topic: &str, payload: &[u8], first: u64, n: u64) -> (r: Vec<u8>)
    requires
        first + n <= u64::MAX,
    ensures
        r@ == numbered(topic@, payload@, first as nat, n as nat),
{
    let mut r: Vec<u8> = Vec::new();
    let mut i: u64 = 0;
    while i < n
        invariant
            i <= n,
            first + n <= u64::MAX,
            r@ == numbered(topic@, payload@, first as nat, i as nat),
        decreases n - i,
    {
        let id: u16 = packet_id_of(first + i);
        let packet = encode_publish(topic, payload, 1, Some(id));
        append(packet.as_slice(), &mut r);
        i = i + 1;
        assert(((first + i - 1) % 65535 + 1) as u16 == id);
    }
    r
}

/// Whether the answer to CONNECT lets the client go on.
pub fn accepted(header: u8, body: &[u8]) -> (r: bool)
    ensures
        r == (header / 16 == 2 && body@.len() >= 2 && body@[1] == 0),
{
    header / 16 == 2 && body.len() >= 2 && body[1] == 0
}

/// Whether a packet acknowledges the message that marks the end.
pub fn acknowledges_marker(header: u8, body: &[u8]) -> (r: bool)
    ensures
        r == (header / 16 == 4 && body@.len() >= 2 && body@[0] == 255 && body@[1] == 255),
{
    header / 16 == 4 && body.len() >= 2 && body[0] == 255 && body[1] == 255
}

} // verus!

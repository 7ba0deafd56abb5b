//! What a recognised run means.

use vstd::prelude::*;
use crate::codec::encode;
use crate::codec::packet;
use crate::codec::packet::PacketView;
use crate::codec::property;
use crate::codec::property::{PropertySet, ValueView};
use crate::codec::wire;
use crate::ingest::scan;
use crate::ingest::scan::{FormView, LayoutView};
use crate::text;

verus! {

/// The length of the body is what the codec reads.
proof fn lemma_short_length(s: Seq<u8>)
    requires
        s.len() > 0,
        scan::short_length(s) is Some,
    ensures
        ({
            let (remaining, width) = scan::short_length(s)->0;
            &&& wire::varint_at(s.skip(1), 0) == Ok::<(nat, nat), wire::CodecError>(
                (remaining, width),
            )
            &&& remaining <= u32::MAX
        }),
{
    reveal_with_fuel(wire::varint_at, 3);
    let t = s.skip(1);
    assert(t[0] == s[1]);
    if s[1] >= 128 {
        assert(t[1] == s[2]);
        assert(wire::varint_at(t, 1) == Ok::<(nat, nat), wire::CodecError>((s[2] as nat, 2nat)));
    }
}

/// A packet that is recognised by its topic is what the codec decodes: a PUBLISH of QoS 0 with
/// that topic, without properties, whose payload is what follows the known bytes.
pub proof fn law_recognised_topic_is_decoded(s: Seq<u8>, maximum: nat)
    requires
        scan::recognised(s, maximum, FormView::Topic) is Some,
    ensures
        ({
            let found = scan::recognised(s, maximum, FormView::Topic)->0;
            packet::parse_packet(s) == Ok::<(PacketView, nat), wire::CodecError>(
                (
                    encode::simple_publish(
                        false,
                        found.topic->0,
                        None,
                        s.subrange(found.prefix.len() as int, found.total as int),
                    ),
                    found.total,
                ),
            )
        }),
{
    let found = scan::recognised(s, maximum, FormView::Topic)->0;
    let (remaining, width) = scan::short_length(s)->0;
    lemma_short_length(s);
    let body = 1 + width as int;
    let len = s[body] * 256 + s[body + 1];
    let end = body + 2 + len;
    let s1 = s.skip(1);
    let s2 = s1.skip(width as int);
    let b = s2.take(remaining as int);
    assert(b =~= s.subrange(body, found.total as int));
    assert(b[0] == s[body] && b[1] == s[body + 1]);
    let b2 = b.skip(2);
    let codes = s.subrange(body + 2, end);
    assert(b2.take(len) =~= codes);
    assert(wire::take_u16(b) == Ok::<(u16, Seq<u8>), wire::CodecError>((len as u16, b2)));
    let b3 = b2.skip(len);
    assert(wire::take_binary(b) == Ok::<(Seq<u8>, Seq<u8>), wire::CodecError>((codes, b3)));
    assert(text::all_ascii(codes)) by {
        assert forall|k: int| 0 <= k < codes.len() implies #[trigger] codes[k] < 128 by {
            assert(scan::plain_topic_byte(s[k + body + 2]));
        }
    }
    text::lemma_ascii_decodes(codes);
    assert(wire::take_text(b) == Ok::<(Seq<char>, Seq<u8>), wire::CodecError>(
        (text::ascii_text(codes), b3),
    ));
    assert(b3[0] == s[end]);
    let payload = b3.skip(1);
    assert(property::take_properties(PropertySet::Publish, b3) == Ok::<
        (Seq<(u8, ValueView)>, Seq<u8>),
        wire::CodecError,
    >((Seq::empty(), payload))) by {
        reveal(property::take_properties);
        reveal_with_fuel(wire::varint_at, 2);
        assert(b3.skip(1).take(0) =~= Seq::empty());
        assert(b3.skip(1).skip(0) =~= payload);
    }
    assert(payload =~= s.subrange(found.prefix.len() as int, found.total as int));
    assert(packet::parse_body(0x30, b) == Ok::<PacketView, wire::CodecError>(
        encode::simple_publish(false, found.topic->0, None, payload),
    )) by {
        reveal(packet::parse_body);
        assert(0x30u8 / 16 == 3 && 0x30u8 % 16 == 0);
    }
    assert(wire::take_varint(s1) == Ok::<(u32, Seq<u8>), wire::CodecError>(
        (remaining as u32, s2),
    ));
}

/// A packet that is recognised by its topic alias is what the codec decodes: a PUBLISH of QoS 0
/// without topic whose only property is that alias.
pub proof fn law_recognised_alias_is_decoded(s: Seq<u8>, maximum: nat, most: u16, known: Set<u16>)
    requires
        scan::recognised(s, maximum, FormView::Alias(most, known)) is Some,
    ensures
        ({
            let found = scan::recognised(s, maximum, FormView::Alias(most, known))->0;
            packet::parse_packet(s) == Ok::<(PacketView, nat), wire::CodecError>(
                (
                    encode::simple_publish(
                        false,
                        Seq::empty(),
                        Some((0x23u8, ValueView::Two(found.alias->0))),
                        s.subrange(found.prefix.len() as int, found.total as int),
                    ),
                    found.total,
                ),
            )
        }),
{
    let found = scan::recognised(s, maximum, FormView::Alias(most, known))->0;
    let (remaining, width) = scan::short_length(s)->0;
    lemma_short_length(s);
    let body = 1 + width as int;
    let alias = found.alias->0;
    let s1 = s.skip(1);
    let s2 = s1.skip(width as int);
    let b = s2.take(remaining as int);
    assert(b =~= s.subrange(body, found.total as int));
    let b2 = b.skip(2);
    assert(b[0] == 0 && b[1] == 0);
    assert(wire::take_u16(b) == Ok::<(u16, Seq<u8>), wire::CodecError>((0u16, b2)));
    assert(b2.take(0) =~= Seq::empty());
    assert(b2.skip(0) =~= b2);
    let none: Seq<u8> = Seq::empty();
    assert(text::all_ascii(none));
    text::lemma_ascii_decodes(none);
    assert(text::ascii_text(none) =~= Seq::empty());
    assert(wire::take_text(b) == Ok::<(Seq<char>, Seq<u8>), wire::CodecError>(
        (Seq::empty(), b2),
    ));
    assert(b2[0] == 3 && b2[1] == 0x23 && b2[2] == s[body + 4] && b2[3] == s[body + 5]);
    let block = b2.skip(1).take(3);
    let payload = b2.skip(1).skip(3);
    let list = seq![(0x23u8, ValueView::Two(alias))];
    assert(property::parse_properties(PropertySet::Publish, block) == Ok::<
        Seq<(u8, ValueView)>,
        wire::CodecError,
    >(list)) by {
        reveal_with_fuel(property::parse_properties, 3);
        let rest = block.skip(1);
        assert(block[0] == 0x23 && rest[0] == s[body + 4] && rest[1] == s[body + 5]);
        assert(rest.skip(2) =~= Seq::empty());
        assert(list =~= seq![(0x23u8, ValueView::Two(alias))] + Seq::empty());
    }
    assert(property::take_properties(PropertySet::Publish, b2) == Ok::<
        (Seq<(u8, ValueView)>, Seq<u8>),
        wire::CodecError,
    >((list, payload))) by {
        reveal(property::take_properties);
        reveal_with_fuel(wire::varint_at, 2);
    }
    assert(payload =~= s.subrange(found.prefix.len() as int, found.total as int));
    assert(packet::parse_body(0x30, b) == Ok::<PacketView, wire::CodecError>(
        encode::simple_publish(
            false,
            Seq::empty(),
            Some((0x23u8, ValueView::Two(alias))),
            payload,
        ),
    )) by {
        reveal(packet::parse_body);
        assert(0x30u8 / 16 == 3 && 0x30u8 % 16 == 0);
    }
    assert(wire::take_varint(s1) == Ok::<(u32, Seq<u8>), wire::CodecError>(
        (remaining as u32, s2),
    ));
}

/// The known bytes of a form decide: whatever begins with them, and is long enough, is recognised
/// with the same form.
pub proof fn law_known_bytes_decide(s: Seq<u8>, t: Seq<u8>, maximum: nat, form: FormView)
    requires
        scan::recognised(s, maximum, form) is Some,
        ({
            let found = scan::recognised(s, maximum, form)->0;
            found.hits(t) && found.total <= t.len()
        }),
    ensures
        scan::recognised(t, maximum, form) == scan::recognised(s, maximum, form),
{
    let found = scan::recognised(s, maximum, form)->0;
    let n = found.prefix.len() as int;
    let (remaining, width) = scan::short_length(s)->0;
    let body = 1 + width as int;
    assert forall|i: int| 0 <= i < n implies s[i] == t[i] by {
        assert(s.take(n)[i] == t.take(n)[i]);
    }
    match form {
        FormView::Topic => {
            let len = s[body] * 256 + s[body + 1];
            let end = body + 2 + len;
            assert(n == end + 1);
            assert(s[0] == t[0] && s[1] == t[1] && s[2] == t[2]);
            assert(s[body] == t[body] && s[body + 1] == t[body + 1] && s[end] == t[end]);
            assert forall|i: int| body + 2 <= i < end implies scan::plain_topic_byte(
                #[trigger] t[i],
            ) by {
                assert(scan::plain_topic_byte(s[i]));
            }
            assert(s.subrange(body + 2, end) =~= t.subrange(body + 2, end));
            assert(t.take(n) =~= s.take(n));
        },
        FormView::Alias(_, _) => {
            assert(n == body + 6);
            assert(s[0] == t[0] && s[1] == t[1] && s[2] == t[2]);
            assert(s[body] == t[body] && s[body + 1] == t[body + 1] && s[body + 2] == t[body + 2]
                && s[body + 3] == t[body + 3] && s[body + 4] == t[body + 4] && s[body + 5]
                == t[body + 5]);
            assert(t.take(n) =~= s.take(n));
        },
    }
}

/// Whether a form was recognised somewhere, under the given limit.
pub open spec fn genuine(layout: LayoutView, maximum: nat, form: FormView) -> bool {
    layout.total != 0 ==> exists|s: Seq<u8>| #[trigger]
        scan::recognised(s, maximum, form) == Some(layout)
}

/// What a run skips is exactly as many packets as it counts, one behind the other, each of which
/// is recognised.
pub open spec fn packets_of(s: Seq<u8>, bytes: nat, messages: nat, maximum: nat, form: FormView) -> bool
    decreases messages,
{
    if messages == 0 {
        bytes == 0
    } else {
        match scan::recognised(s, maximum, form) {
            None => false,
            Some(found) => found.total <= bytes && packets_of(
                s.skip(found.total as int),
                (bytes - found.total) as nat,
                (messages - 1) as nat,
                maximum,
                form,
            ),
        }
    }
}

/// A run counts every packet once and skips nothing else, whatever genuine form was known before;
/// the form that is known after it is genuine.
pub proof fn law_run_is_made_of_packets(
    s: Seq<u8>,
    maximum: nat,
    form: FormView,
    layout: LayoutView,
)
    requires
        genuine(layout, maximum, form),
    ensures
        ({
            let (bytes, messages, last) = scan::run(s, maximum, form, layout);
            packets_of(s, bytes, messages, maximum, form) && genuine(last, maximum, form)
        }),
    decreases s.len(),
{
    if s.len() == 0 || layout.total > s.len() {
    } else if layout.total != 0 && layout.hits(s) {
        let seen = choose|seen: Seq<u8>| #[trigger]
            scan::recognised(seen, maximum, form) == Some(layout);
        law_known_bytes_decide(seen, s, maximum, form);
        law_run_is_made_of_packets(s.skip(layout.total as int), maximum, form, layout);
    } else if let Some(found) = scan::recognised(s, maximum, form) {
        assert(genuine(found, maximum, form));
        law_run_is_made_of_packets(s.skip(found.total as int), maximum, form, found);
    }
}

} // verus!

//! Recognising runs of simple PUBLISH packets.

use vstd::prelude::*;
use vstd::slice::slice_subrange;
use crate::slots::Slots;
use crate::text;
use crate::text::{ascii_string, bytes_eq, copy_bytes};

verus! {

/// How far a batch reaches.
#[derive(Debug, Clone, Copy, PartialEq, Eq, Structural)]
pub struct FastIngestBatch {
    /// How many bytes it has.
    pub bytes: usize,
    /// How many messages it has.
    pub messages: u64,
}

impl Default for FastIngestBatch {
    fn default() -> (r: Self)
        ensures
            r.bytes == 0,
            r.messages == 0,
    {
        FastIngestBatch { bytes: 0, messages: 0 }
    }
}

/// The form of the packets of a hot publisher: their length, and the bytes before the payload.
#[derive(Debug)]
pub struct FastIngestLayout {
    /// The length of a packet; 0 where no form is known.
    pub total_len: usize,
    /// The topic, where the packets name it.
    pub topic: Option<String>,
    /// The topic alias, where the packets use one.
    pub alias: Option<u16>,
    /// The bytes before the payload.
    pub prefix: Vec<u8>,
    /// Whether nine bytes come before the payload.
    pub scalar9: bool,
}

/// The content of a form.
#[verifier::ext_equal]
pub struct LayoutView {
    /// The length of a packet.
    pub total: nat,
    /// The topic.
    pub topic: Option<Seq<char>>,
    /// The topic alias.
    pub alias: Option<u16>,
    /// The bytes before the payload.
    pub prefix: Seq<u8>,
}

impl View for FastIngestLayout {
    type V = LayoutView;

    open spec fn view(&self) -> LayoutView {
        LayoutView {
            total: self.total_len as nat,
            topic: crate::message::string_opt(self.topic),
            alias: self.alias,
            prefix: self.prefix@,
        }
    }
}

impl Default for FastIngestLayout {
    fn default() -> (r: Self)
        ensures
            r@ == LayoutView::unknown(),
            r.wf(),
    {
        let r = FastIngestLayout {
            total_len: 0,
            topic: None,
            alias: None,
            prefix: Vec::new(),
            scalar9: false,
        };
        assert(r@.prefix =~= Seq::empty());
        r
    }
}

impl LayoutView {
    /// No form is known.
    pub open spec fn unknown() -> LayoutView {
        LayoutView { total: 0, topic: None, alias: None, prefix: Seq::empty() }
    }

    /// Whether bytes begin like a packet of the form.
    pub open spec fn hits(self, s: Seq<u8>) -> bool {
        self.prefix.len() <= s.len() && s.take(self.prefix.len() as int) == self.prefix
    }

    /// Whether the first `n` packets of the form's length begin like the form.
    pub open spec fn hits_each(self, s: Seq<u8>, n: nat) -> bool {
        forall|k: int| #![trigger s.skip(k * self.total)] 0 <= k < n ==> self.hits(s.skip(k * self.total))
    }
}

impl FastIngestLayout {
    /// Whether nine bytes come before the payload is as noted.
    pub open spec fn wf(&self) -> bool {
        self.scalar9 == (self.prefix@.len() == 9 && self.total_len >= 9)
    }

    /// Notes the bytes before the payload and the length of a packet.
    pub fn cache_prefix(&mut self, prefix: &[u8], total_len: usize)
        ensures
            final(self).wf(),
            final(self)@ == (LayoutView {
                total: total_len as nat,
                topic: old(self)@.topic,
                alias: None,
                prefix: prefix@,
            }),
    {
        self.total_len = total_len;
        self.alias = None;
        self.prefix = copy_bytes(prefix);
        self.scalar9 = prefix.len() == 9 && total_len >= 9;
    }
}

/// Whether the bytes from a place on begin like a packet of the form.
pub fn fast_ingest_layout_matches(buf: &[u8], offset: usize, layout: &FastIngestLayout) -> (r: bool)
    requires
        offset <= buf@.len(),
    ensures
        r == layout@.hits(buf@.skip(offset as int)),
{
    let n: usize = layout.prefix.len();
    if n > buf.len() - offset {
        return false;
    }
    let part = slice_subrange(buf, offset, offset + n);
    assert(part@ =~= buf@.skip(offset as int).take(n as int));
    bytes_eq(part, layout.prefix.as_slice())
}

/// Whether each of the eight packets of the given length from a place on begins like the form.
pub fn fast_ingest_layout_matches_8(
    buf: &[u8],
    offset: usize,
    total: usize,
    layout: &FastIngestLayout,
) -> (r: bool)
    requires
        offset + 8 * total <= buf@.len(),
        total == layout@.total,
    ensures
        r == layout@.hits_each(buf@.skip(offset as int), 8),
{
    let ghost s = buf@.skip(offset as int);
    let size: usize = buf.len();
    let mut k: usize = 0;
    let mut place: usize = offset;
    while k < 8
        invariant
            k <= 8,
            size == buf@.len(),
            place == offset + k * total,
            offset + 8 * total <= buf@.len(),
            total == layout@.total,
            s == buf@.skip(offset as int),
            layout@.hits_each(s, k as nat),
        decreases 8 - k,
    {
        assert(place <= buf@.len()) by (nonlinear_arith)
            requires
                place == offset + k * total,
                k < 8,
                offset + 8 * total <= buf@.len(),
        ;
        assert(buf@.skip(place as int) =~= s.skip(k * layout@.total));
        if !fast_ingest_layout_matches(buf, place, layout) {
            assert(!layout@.hits(s.skip(k * layout@.total)));
            return false;
        }
        assert((k + 1) * total == k * total + total) by (nonlinear_arith);
        assert((k + 1) * total <= 8 * total) by (nonlinear_arith)
            requires
                k < 8,
        ;
        place = place + total;
        k = k + 1;
    }
    true
}

/// Which packets are recognised.
pub enum Form<'a> {
    /// A topic of ASCII characters, and no property.
    Topic,
    /// No topic, and nothing but a topic alias that is in use and not above the given one.
    Alias(u16, &'a Slots<String>),
}

/// Which packets are recognised.
pub enum FormView {
    /// A topic of ASCII characters, and no property.
    Topic,
    /// No topic, and nothing but a topic alias of these, not above the given one.
    Alias(u16, Set<u16>),
}

impl<'a> View for Form<'a> {
    type V = FormView;

    open spec fn view(&self) -> FormView {
        match *self {
            Form::Topic => FormView::Topic,
            Form::Alias(maximum, aliases) => FormView::Alias(maximum, aliases@.dom()),
        }
    }
}

/// Whether a byte may stand in a topic of ASCII characters.
pub open spec fn plain_topic_byte(b: u8) -> bool {
    0x20 <= b < 0x7f && b != 43 && b != 35
}

/// The length of the body and the number of bytes that tell it, where that is one byte, or two
/// where one would not do.
pub open spec fn short_length(s: Seq<u8>) -> Option<(nat, nat)> {
    if s.len() < 2 {
        None
    } else if s[1] < 128 {
        Some((s[1] as nat, 1nat))
    } else if s.len() < 3 || s[2] >= 128 {
        None
    } else {
        let v = (s[1] - 128) + s[2] * 128;
        if v < 128 {
            None
        } else {
            Some((v as nat, 2nat))
        }
    }
}

/// The form of the packet at the front of some bytes, where it is recognised: a complete PUBLISH
/// of QoS 0, not retained, not longer than a limit.
pub open spec fn recognised(s: Seq<u8>, maximum: nat, form: FormView) -> Option<LayoutView> {
    if s.len() == 0 || s[0] != 0x30 {
        None
    } else {
        match short_length(s) {
            None => None,
            Some((remaining, width)) => {
                let total = 1 + width + remaining;
                let body = (1 + width) as int;
                if total > maximum || total > s.len() {
                    None
                } else {
                    match form {
                        FormView::Topic => {
                            let len = s[body] * 256 + s[body + 1];
                            let end = body + 2 + len;
                            if body + 3 > total || len == 0 || end >= total || !(forall|i: int|
                                body + 2 <= i < end ==> plain_topic_byte(#[trigger] s[i])) || s[end]
                                != 0 {
                                None
                            } else {
                                Some(
                                    LayoutView {
                                        total,
                                        topic: Some(text::ascii_text(s.subrange(body + 2, end))),
                                        alias: None,
                                        prefix: s.take(end + 1),
                                    },
                                )
                            }
                        },
                        FormView::Alias(most, known) => {
                            let alias = (s[body + 4] * 256 + s[body + 5]) as u16;
                            if body + 6 > total || s[body] != 0 || s[body + 1] != 0 || s[body + 2]
                                != 3 || s[body + 3] != 0x23 || alias == 0 || alias > most
                                || !known.contains(alias) {
                                None
                            } else {
                                Some(
                                    LayoutView {
                                        total,
                                        topic: None,
                                        alias: Some(alias),
                                        prefix: s.take(body + 6),
                                    },
                                )
                            }
                        },
                    }
                }
            },
        }
    }
}

/// A run of packets at the front of some bytes: how many bytes and messages, and the form that is
/// known then. Packets of the form that is known are not looked at further.
pub open spec fn run(s: Seq<u8>, maximum: nat, form: FormView, layout: LayoutView) -> (
    nat,
    nat,
    LayoutView,
)
    decreases s.len(),
{
    if s.len() == 0 || layout.total > s.len() {
        (0, 0, layout)
    } else if layout.total != 0 && layout.hits(s) {
        let (bytes, messages, last) = run(s.skip(layout.total as int), maximum, form, layout);
        (layout.total + bytes, messages + 1, last)
    } else {
        match recognised(s, maximum, form) {
            None => (0, 0, layout),
            Some(found) => {
                let (bytes, messages, last) = run(
                    s.skip(found.total as int),
                    maximum,
                    form,
                    found,
                );
                (found.total + bytes, messages + 1, last)
            },
        }
    }
}

/// A run is not longer than the bytes, and has no more messages than bytes.
pub proof fn lemma_run_bound(s: Seq<u8>, maximum: nat, form: FormView, layout: LayoutView)
    ensures
        run(s, maximum, form, layout).0 <= s.len(),
        run(s, maximum, form, layout).1 <= run(s, maximum, form, layout).0,
    decreases s.len(),
{
    if s.len() == 0 || layout.total > s.len() {
    } else if layout.total != 0 && layout.hits(s) {
        lemma_run_bound(s.skip(layout.total as int), maximum, form, layout);
    } else if let Some(found) = recognised(s, maximum, form) {
        lemma_run_bound(s.skip(found.total as int), maximum, form, found);
    }
}

/// Several packets of the form that is known are the front of a run.
proof fn lemma_run_hits(s: Seq<u8>, n: nat, maximum: nat, form: FormView, layout: LayoutView)
    requires
        layout.total != 0,
        n * layout.total <= s.len(),
        layout.hits_each(s, n),
    ensures
        ({
            let (bytes, messages, last) = run(
                s.skip((n * layout.total) as int),
                maximum,
                form,
                layout,
            );
            run(s, maximum, form, layout) == (n * layout.total + bytes, messages + n, last)
        }),
    decreases n,
{
    if n == 0 {
        assert(s.skip(0) =~= s);
        assert(0 * layout.total == 0);
    } else {
        let t = layout.total;
        assert(n * t == (n - 1) * t + t) by (nonlinear_arith);
        assert((n - 1) * t >= 0) by (nonlinear_arith)
            requires
                n >= 1,
        ;
        assert(s.skip(0int * t) =~= s) by {
            assert(0int * t == 0);
        }
        assert(layout.hits(s.skip(0int * t)));
        let rest = s.skip(t as int);
        assert forall|k: int| #![trigger rest.skip(k * t)] 0 <= k < n - 1 implies layout.hits(
            rest.skip(k * t),
        ) by {
            assert((k + 1) * t == k * t + t) by (nonlinear_arith);
            assert(k * t >= 0 && (k + 1) * t <= n * t) by (nonlinear_arith)
                requires
                    0 <= k < n - 1,
            ;
            assert(rest.skip(k * t) =~= s.skip((k + 1) * t));
            assert(layout.hits(s.skip((k + 1) * t)));
        }
        lemma_run_hits(rest, (n - 1) as nat, maximum, form, layout);
        assert(rest.skip(((n - 1) * t) as int) =~= s.skip((n * t) as int));
    }
}

/// The form of the packet at a place, where it is recognised.
fn recognise(buf: &[u8], offset: usize, maximum: usize, form: &Form<'_>) -> (r: Option<
    FastIngestLayout,
>)
    requires
        offset < buf@.len(),
    ensures
        match r {
            Some(found) => found.wf() && recognised(
                buf@.skip(offset as int),
                maximum as nat,
                form@,
            ) == Some(found@) && found.total_len <= buf@.len() - offset && found.total_len > 0,
            None => recognised(buf@.skip(offset as int), maximum as nat, form@) is None,
        },
{
    let ghost s = buf@.skip(offset as int);
    let len: usize = buf.len() - offset;
    if buf[offset] != 0x30 || len < 2 {
        return None;
    }
    let first: u8 = buf[offset + 1];
    assert(s[1] == first);
    let mut remaining: usize = first as usize;
    let mut width: usize = 1;
    if first >= 128 {
        if len < 3 {
            return None;
        }
        let second: u8 = buf[offset + 2];
        assert(s[2] == second);
        if second >= 128 {
            return None;
        }
        remaining = (first - 128) as usize + second as usize * 128;
        if remaining < 128 {
            return None;
        }
        width = 2;
    }
    assert(short_length(s) == Some((remaining as nat, width as nat)));
    let total: usize = 1 + width + remaining;
    if total > maximum || total > len {
        return None;
    }
    let body: usize = 1 + width;
    match form {
        Form::Topic => {
            if body + 3 > total {
                return None;
            }
            let high: u8 = buf[offset + body];
            let low: u8 = buf[offset + body + 1];
            assert(s[body as int] == high && s[body + 1] == low);
            let topic_len: usize = high as usize * 256 + low as usize;
            let end: usize = body + 2 + topic_len;
            if topic_len == 0 || end >= total {
                return None;
            }
            let mut codes: Vec<u8> = Vec::new();
            let mut i: usize = body + 2;
            while i < end
                invariant
                    body + 2 <= i <= end,
                    end < total,
                    total <= len,
                    len == buf@.len() - offset,
                    buf@.len() <= usize::MAX,
                    body == 1 + width,
                    end == body + 2 + s[body as int] * 256 + s[body + 1],
                    short_length(s) == Some((remaining as nat, width as nat)),
                    form@ == FormView::Topic,
                    s == buf@.skip(offset as int),
                    codes@ == s.subrange(body + 2, i as int),
                    forall|k: int| body + 2 <= k < i ==> plain_topic_byte(#[trigger] s[k]),
                    body + 2 <= end,
                decreases end - i,
            {
                let b: u8 = buf[offset + i];
                assert(s[i as int] == b);
                if b < 0x20 || b >= 0x7f || b == 43 || b == 35 {
                    assert(!plain_topic_byte(s[i as int]));
                    proof {
                        lemma_bad_topic(s, maximum as nat, width as nat, remaining as nat, i as int);
                    }
                    return None;
                }
                codes.push(b);
                assert(codes@ =~= s.subrange(body + 2, i + 1));
                i = i + 1;
            }
            let mark: u8 = buf[offset + end];
            assert(s[end as int] == mark);
            if mark != 0 {
                return None;
            }
            assert(text::all_ascii(codes@)) by {
                assert forall|k: int| 0 <= k < codes@.len() implies #[trigger] codes@[k] < 128 by {
                    assert(plain_topic_byte(s[k + body + 2]));
                }
            }
            let prefix = slice_subrange(buf, offset, offset + end + 1);
            assert(prefix@ =~= s.take(end + 1));
            let topic = ascii_string(&codes);
            let mut found = FastIngestLayout::default();
            found.cache_prefix(prefix, total);
            found.topic = Some(topic);
            Some(found)
        },
        Form::Alias(most, aliases) => {
            if body + 6 > total {
                return None;
            }
            assert(s[body as int] == buf@[offset + body] && s[body + 1] == buf@[offset + body + 1]
                && s[body + 2] == buf@[offset + body + 2] && s[body + 3] == buf@[offset + body + 3]
                && s[body + 4] == buf@[offset + body + 4] && s[body + 5] == buf@[offset + body
                + 5]);
            if buf[offset + body] != 0 || buf[offset + body + 1] != 0 || buf[offset + body + 2]
                != 3 || buf[offset + body + 3] != 0x23 {
                return None;
            }
            let alias: u16 = buf[offset + body + 4] as u16 * 256 + buf[offset + body + 5] as u16;
            if alias == 0 || alias > *most {
                return None;
            }
            if !aliases.contains_key(alias) {
                return None;
            }
            let prefix = slice_subrange(buf, offset, offset + body + 6);
            assert(prefix@ =~= s.take(body + 6));
            let mut found = FastIngestLayout::default();
            found.cache_prefix(prefix, total);
            found.alias = Some(alias);
            Some(found)
        },
    }
}

/// A topic with another byte is not recognised.
proof fn lemma_bad_topic(s: Seq<u8>, maximum: nat, width: nat, remaining: nat, at: int)
    requires
        short_length(s) == Some((remaining, width)),
        ({
            let body = 1 + width as int;
            let len = s[body] * 256 + s[body + 1];
            body + 2 <= at < body + 2 + len && !plain_topic_byte(s[at])
        }),
    ensures
        recognised(s, maximum, FormView::Topic) is None,
{
}

/// Recognises a run of packets, and notes the form that is known after it.
fn scan(buf: &[u8], maximum: usize, layout: &mut FastIngestLayout, form: &Form<'_>) -> (batch:
    FastIngestBatch)
    requires
        old(layout).wf(),
    ensures
        final(layout).wf(),
        (batch.bytes as nat, batch.messages as nat, final(layout)@) == run(
            buf@,
            maximum as nat,
            form@,
            old(layout)@,
        ),
        batch.bytes <= buf@.len(),
{
    let ghost whole = run(buf@, maximum as nat, form@, layout@);
    proof {
        lemma_run_bound(buf@, maximum as nat, form@, layout@);
    }
    let mut offset: usize = 0;
    let mut messages: u64 = 0;
    assert(buf@.skip(0) =~= buf@);
    while offset < buf.len()
        invariant
            offset <= buf@.len(),
            messages <= offset,
            layout.wf(),
            whole == ({
                let (bytes, count, last) = run(
                    buf@.skip(offset as int),
                    maximum as nat,
                    form@,
                    layout@,
                );
                ((offset + bytes) as nat, (messages + count) as nat, last)
            }),
        ensures
            offset <= buf@.len(),
            layout.wf(),
            whole == (offset as nat, messages as nat, layout@),
        decreases buf@.len() - offset,
    {
        let ghost s = buf@.skip(offset as int);
        if layout.total_len != 0 {
            let total: usize = layout.total_len;
            if total > buf.len() - offset {
                break;
            }
            if total <= (buf.len() - offset) / 8 && fast_ingest_layout_matches_8(
                buf,
                offset,
                total,
                layout,
            ) {
                proof {
                    lemma_run_hits(s, 8, maximum as nat, form@, layout@);
                    assert(s.skip((8 * layout@.total) as int) =~= buf@.skip(offset + 8 * total));
                }
                messages = messages + 8;
                offset = offset + 8 * total;
                continue;
            }
            if fast_ingest_layout_matches(buf, offset, layout) {
                assert(s.skip(layout@.total as int) =~= buf@.skip(offset + total));
                messages = messages + 1;
                offset = offset + total;
                continue;
            }
        }
        match recognise(buf, offset, maximum, form) {
            None => {
                break;
            },
            Some(found) => {
                assert(s.skip(found@.total as int) =~= buf@.skip(offset + found.total_len));
                offset = offset + found.total_len;
                messages = messages + 1;
                *layout = found;
            },
        }
    }
    FastIngestBatch { bytes: offset, messages }
}

/// Recognises a run of PUBLISH packets of QoS 0 with an ASCII topic and without properties.
pub fn scan_zero_route_qos0_batch(
    buf: &[u8],
    maximum_packet_size: usize,
    layout: &mut FastIngestLayout,
) -> (batch: FastIngestBatch)
    requires
        old(layout).wf(),
    ensures
        final(layout).wf(),
        (batch.bytes as nat, batch.messages as nat, final(layout)@) == run(
            buf@,
            maximum_packet_size as nat,
            FormView::Topic,
            old(layout)@,
        ),
        batch.bytes <= buf@.len(),
{
    scan(buf, maximum_packet_size, layout, &Form::Topic)
}

/// Recognises a run of PUBLISH packets of QoS 0 without topic and with nothing but a topic alias
/// that the client has established.
pub fn scan_zero_route_qos0_alias_batch(
    buf: &[u8],
    maximum_packet_size: usize,
    layout: &mut FastIngestLayout,
    session: &crate::session::client::ClientSession,
) -> (batch: FastIngestBatch)
    requires
        old(layout).wf(),
    ensures
        final(layout).wf(),
        (batch.bytes as nat, batch.messages as nat, final(layout)@) == run(
            buf@,
            maximum_packet_size as nat,
            FormView::Alias(session@.topic_alias_maximum, session@.aliases.dom()),
            old(layout)@,
        ),
        batch.bytes <= buf@.len(),
{
    assert(session@.aliases.dom() =~= session.topic_aliases@.dom());
    scan(
        buf,
        maximum_packet_size,
        layout,
        &Form::Alias(session.topic_alias_maximum, &session.topic_aliases),
    )
}

} // verus!

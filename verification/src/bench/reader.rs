//! What the benchmark client reads.

use std::collections::HashMap;
use vstd::prelude::*;
use vstd::slice::slice_subrange;
use crate::bench::frames;
use crate::bench::frames::{
    decode_bench_varint, encode_puback, parse_publish_packet_id, try_packet_bounds, FrameFault,
};
use crate::codec::wire::{be16, varint_at};
use crate::text::{bytes_eq, copy_bytes};

verus! {

broadcast use vstd::std_specs::hash::group_hash_axioms;

/// The form of the messages that come in: their length, and how they begin.
#[derive(Debug)]
pub struct FastQos0ReadLayout {
    /// The length of a packet, or 0 where no form is known.
    pub packet_len: usize,
    /// How a packet begins.
    pub prefix: Vec<u8>,
}

/// The longest beginning that is kept.
pub const LONGEST_PREFIX: usize = 32;

impl Default for FastQos0ReadLayout {
    fn default() -> (r: Self)
        ensures
            r.packet_len == 0,
            r.prefix@ == Seq::<u8>::empty(),
    {
        FastQos0ReadLayout { packet_len: 0, prefix: Vec::new() }
    }
}

/// The form that is known after a packet of this length and beginning.
pub open spec fn cached(was: (nat, Seq<u8>), prefix: Seq<u8>, packet_len: nat) -> (nat, Seq<u8>) {
    if prefix.len() == 0 || prefix.len() > LONGEST_PREFIX || packet_len < prefix.len() {
        (0, was.1)
    } else {
        (packet_len, prefix)
    }
}

impl FastQos0ReadLayout {
    /// The form, as the contracts see it.
    pub open spec fn form(&self) -> (nat, Seq<u8>) {
        (self.packet_len as nat, self.prefix@)
    }

    /// Keeps the form of a packet. A form that is of no use is forgotten.
    pub fn cache(&mut self, prefix: &[u8], packet_len: usize)
        ensures
            final(self).form() == cached(old(self).form(), prefix@, packet_len as nat),
    {
        if prefix.len() == 0 || prefix.len() > LONGEST_PREFIX || packet_len < prefix.len() {
            self.packet_len = 0;
            return ;
        }
        self.packet_len = packet_len;
        self.prefix = copy_bytes(prefix);
    }
}

/// Some packets at the front of what came in.
#[derive(Debug, Clone, Copy, PartialEq, Eq, Structural)]
pub struct FastReadBatch {
    /// Their bytes.
    pub bytes: usize,
    /// How many they are.
    pub messages: usize,
}

/// How many packets at the front are of a form.
pub open spec fn alike(s: Seq<u8>, form: (nat, Seq<u8>)) -> nat
    decreases s.len(),
{
    if form.0 == 0 || form.1.len() == 0 || s.len() < form.0 || s.len() < form.1.len() || s.take(
        form.1.len() as int,
    ) != form.1 {
        0
    } else {
        1 + alike(s.skip(form.0 as int), form)
    }
}

/// Counts the packets at the front that are of the form that is known.
pub fn scan_qos0_read_batch(buf: &[u8], layout: &FastQos0ReadLayout) -> (batch: FastReadBatch)
    ensures
        batch.messages == alike(buf@, layout.form()),
        batch.bytes == batch.messages * layout.packet_len,
        batch.bytes <= buf@.len(),
{
    if layout.packet_len == 0 || layout.prefix.len() == 0 {
        return FastReadBatch { bytes: 0, messages: 0 };
    }
    let mut offset: usize = 0;
    let mut messages: usize = 0;
    let total: usize = buf.len();
    assert(buf@.skip(0) =~= buf@);
    while layout.packet_len <= total - offset && layout.prefix.len() <= total - offset
        invariant
            total == buf@.len(),
            layout.packet_len > 0,
            layout.prefix@.len() > 0,
            offset <= buf@.len(),
            messages <= offset,
            offset == messages * layout.packet_len,
            alike(buf@, layout.form()) == messages + alike(
                buf@.skip(offset as int),
                layout.form(),
            ),
        decreases buf@.len() - offset,
    {
        let front = slice_subrange(buf, offset, offset + layout.prefix.len());
        assert(front@ =~= buf@.skip(offset as int).take(layout.prefix@.len() as int));
        if !bytes_eq(front, layout.prefix.as_slice()) {
            return FastReadBatch { bytes: offset, messages };
        }
        assert(buf@.skip(offset as int).skip(layout.packet_len as int) =~= buf@.skip(
            offset + layout.packet_len,
        ));
        assert((messages + 1) * layout.packet_len == messages * layout.packet_len
            + layout.packet_len) by (nonlinear_arith);
        offset = offset + layout.packet_len;
        messages = messages + 1;
    }
    FastReadBatch { bytes: offset, messages }
}

/// What the topic alias of the body of a PUBLISH packet of QoS 0 comes to.
pub enum AliasUse {
    /// There is no topic alias, or there are other properties besides.
    Nothing,
    /// The alias stands for this topic from now on; the payload begins here.
    Mapping(u16, Seq<u8>, nat),
    /// The alias is used for the topic it stands for; the payload begins here.
    Reuse(u16, nat),
}

/// The topic alias of the body of a PUBLISH packet of QoS 0, where aliases up to a maximum are
/// agreed and some of them stand for a topic.
pub open spec fn alias_use(body: Seq<u8>, maximum: u16, known: Set<u16>) -> Result<
    AliasUse,
    FrameFault,
> {
    let topic_end = 2 + frames::front_u16(body);
    if body.len() < 3 {
        Err(FrameFault::ShortPublishBody)
    } else if topic_end >= body.len() {
        Err(FrameFault::ShortPublishTopic)
    } else {
        match varint_at(body.skip(topic_end as int), 0) {
            Err(_) => Err(FrameFault::MalformedVarint),
            Ok((length, digits)) => {
                let pos = topic_end + digits;
                if pos + length > body.len() {
                    Err(FrameFault::ShortPublishProperties)
                } else if length != 3 || body[pos as int] != 0x23 {
                    Ok(AliasUse::Nothing)
                } else {
                    let alias = frames::front_u16(body.skip((pos + 1) as int)) as u16;
                    if alias == 0 || alias > maximum {
                        Err(FrameFault::InvalidServerAlias)
                    } else if topic_end > 2 {
                        Ok(
                            AliasUse::Mapping(
                                alias,
                                body.subrange(2, topic_end as int),
                                pos + length,
                            ),
                        )
                    } else if known.contains(alias) {
                        Ok(AliasUse::Reuse(alias, pos + length))
                    } else {
                        Err(FrameFault::UnmappedServerAlias)
                    }
                }
            },
        }
    }
}

/// The aliases and what they stand for, as the contracts see them.
pub open spec fn aliases_view(m: Map<u16, Vec<u8>>) -> Map<u16, Seq<u8>> {
    m.map_values(|v: Vec<u8>| v@)
}

/// The aliases after a packet.
pub open spec fn aliases_after(known: Map<u16, Seq<u8>>, used: Result<AliasUse, FrameFault>) -> Map<
    u16,
    Seq<u8>,
> {
    match used {
        Ok(AliasUse::Mapping(alias, topic, _)) => known.insert(alias, topic),
        _ => known,
    }
}

/// Checks the topic alias of the body of a PUBLISH packet of QoS 0, and keeps what it stands for.
/// Returns where the payload begins, if there is a topic alias and no other property.
pub fn validate_server_topic_alias(
    body: &[u8],
    maximum: u16,
    mappings: &mut HashMap<u16, Vec<u8>>,
) -> (r: Result<Option<usize>, FrameFault>)
    ensures
        ({
            let used = alias_use(body@, maximum, old(mappings)@.dom());
            aliases_view(final(mappings)@) == aliases_after(aliases_view(old(mappings)@), used)
                && match used {
                Err(e) => r == Err::<Option<usize>, FrameFault>(e),
                Ok(AliasUse::Nothing) => r == Ok::<Option<usize>, FrameFault>(None),
                Ok(AliasUse::Mapping(_, _, at)) => r == Ok::<Option<usize>, FrameFault>(
                    Some(at as usize),
                ) && at <= body@.len(),
                Ok(AliasUse::Reuse(_, at)) => r == Ok::<Option<usize>, FrameFault>(
                    Some(at as usize),
                ) && at <= body@.len(),
            }
        }),
{
    if body.len() < 3 {
        return Err(FrameFault::ShortPublishBody);
    }
    let topic_end: usize = 2 + (body[0] as usize) * 256 + body[1] as usize;
    if topic_end >= body.len() {
        return Err(FrameFault::ShortPublishTopic);
    }
    let rest = slice_subrange(body, topic_end, body.len());
    assert(rest@ =~= body@.skip(topic_end as int));
    let (length, digits): (usize, usize) = match decode_bench_varint(rest) {
        Ok(found) => found,
        Err(e) => {
            return Err(e);
        },
    };
    let pos: usize = topic_end + digits;
    if length > body.len() - pos {
        return Err(FrameFault::ShortPublishProperties);
    }
    if length != 3 || body[pos] != 0x23 {
        return Ok(None);
    }
    let alias: u16 = (body[pos + 1] as u16) * 256 + body[pos + 2] as u16;
    assert(frames::front_u16(body@.skip(pos + 1)) == alias);
    if alias == 0 || alias > maximum {
        return Err(FrameFault::InvalidServerAlias);
    }
    if topic_end == 2 {
        if !mappings.contains_key(&alias) {
            return Err(FrameFault::UnmappedServerAlias);
        }
    } else {
        let topic = slice_subrange(body, 2, topic_end);
        let copy = copy_bytes(topic);
        let ghost was = aliases_view(mappings@);
        mappings.insert(alias, copy);
        assert(aliases_view(mappings@) =~= was.insert(alias, body@.subrange(2, topic_end as int)));
    }
    Ok(Some(pos + length))
}

/// How the client reads.
pub struct BenchReader {
    /// Whether it counts messages of QoS 0 that it sent itself.
    pub fast_qos0_loopback: bool,
    /// The largest topic alias that the server may use.
    pub accept_topic_alias: u16,
    /// The form of the messages that come in.
    pub layout: FastQos0ReadLayout,
    /// The aliases and what they stand for.
    pub aliases: HashMap<u16, Vec<u8>>,
}

/// A reader, as the contracts see it.
#[verifier::ext_equal]
pub struct ReaderView {
    /// Whether it counts messages of QoS 0 that it sent itself.
    pub fast: bool,
    /// The largest topic alias that the server may use.
    pub accept: u16,
    /// The form of the messages that come in.
    pub form: (nat, Seq<u8>),
    /// The aliases and what they stand for.
    pub aliases: Map<u16, Seq<u8>>,
}

impl View for BenchReader {
    type V = ReaderView;

    open spec fn view(&self) -> ReaderView {
        ReaderView {
            fast: self.fast_qos0_loopback,
            accept: self.accept_topic_alias,
            form: self.layout.form(),
            aliases: aliases_view(self.aliases@),
        }
    }
}

/// What a step of reading found.
pub struct ReadStep {
    /// How many bytes it took; 0 where no packet is complete.
    pub taken: usize,
    /// How many messages came in.
    pub received: u64,
    /// How many messages were acknowledged.
    pub acknowledged: u64,
    /// The packet that is to be sent.
    pub reply: Vec<u8>,
}

/// What a step of reading found, as the contracts see it.
#[verifier::ext_equal]
pub struct ReadStepView {
    /// How many bytes it took.
    pub taken: nat,
    /// How many messages came in.
    pub received: nat,
    /// How many messages were acknowledged.
    pub acknowledged: nat,
    /// The packet that is to be sent.
    pub reply: Seq<u8>,
}

impl View for ReadStep {
    type V = ReadStepView;

    open spec fn view(&self) -> ReadStepView {
        ReadStepView {
            taken: self.taken as nat,
            received: self.received as nat,
            acknowledged: self.acknowledged as nat,
            reply: self.reply@,
        }
    }
}

impl ReaderView {
    /// Reading one packet: of PUBLISH packets the form and the alias are kept, and those of QoS 1
    /// are acknowledged; PUBACK packets are counted.
    pub open spec fn packet(self, s: Seq<u8>, header: u8, start: nat, end: nat) -> Result<
        (ReaderView, ReadStepView),
        FrameFault,
    > {
        let nothing = ReadStepView {
            taken: end,
            received: 0,
            acknowledged: 0,
            reply: Seq::empty(),
        };
        let body = s.subrange(start as int, end as int);
        let qos = (header / 2 % 4) as u8;
        if header / 16 == 4 {
            Ok((self, ReadStepView { acknowledged: 1, ..nothing }))
        } else if header / 16 != 3 {
            Ok((self, nothing))
        } else if qos == 1 {
            match frames::publish_packet_id(body, 1) {
                Err(e) => Err(e),
                Ok(id) => Ok(
                    (
                        self,
                        ReadStepView {
                            received: 1,
                            reply: match id {
                                Some(id) => seq![0x40u8, 2u8] + be16(id),
                                None => Seq::empty(),
                            },
                            ..nothing
                        },
                    ),
                ),
            }
        } else if !self.fast || qos != 0 {
            Ok((self, ReadStepView { received: 1, ..nothing }))
        } else if self.accept == 0 {
            Ok(
                (
                    ReaderView { form: cached(self.form, s.take(start as int), end), ..self },
                    ReadStepView { received: 1, ..nothing },
                ),
            )
        } else {
            let used = alias_use(body, self.accept, self.aliases.dom());
            match used {
                Err(e) => Err(e),
                Ok(u) => {
                    let at = match u {
                        AliasUse::Nothing => start,
                        AliasUse::Mapping(_, _, at) => start + at,
                        AliasUse::Reuse(_, at) => start + at,
                    };
                    Ok(
                        (
                            ReaderView {
                                form: cached(self.form, s.take(at as int), end),
                                aliases: aliases_after(self.aliases, used),
                                ..self
                            },
                            ReadStepView { received: 1, ..nothing },
                        ),
                    )
                },
            }
        }
    }

    /// A step of reading: a run of messages of the form that is known, or a packet.
    pub open spec fn step(self, s: Seq<u8>) -> Result<(ReaderView, ReadStepView), FrameFault> {
        let n = alike(s, self.form);
        let nothing = ReadStepView {
            taken: 0,
            received: 0,
            acknowledged: 0,
            reply: Seq::empty(),
        };
        if self.fast && n > 0 {
            Ok((self, ReadStepView { taken: n * self.form.0, received: n, ..nothing }))
        } else if s.len() == 0 {
            Ok((self, nothing))
        } else {
            match frames::packet_bounds(s) {
                Err(e) => Err(e),
                Ok(None) => Ok((self, nothing)),
                Ok(Some((header, start, end))) => self.packet(s, header, start, end),
            }
        }
    }
}

impl BenchReader {
    /// A reader that knows nothing yet.
    pub fn new(fast_qos0_loopback: bool, accept_topic_alias: u16) -> (r: Self)
        ensures
            r@ == (ReaderView {
                fast: fast_qos0_loopback,
                accept: accept_topic_alias,
                form: (0, Seq::empty()),
                aliases: Map::empty(),
            }),
    {
        let r = BenchReader {
            fast_qos0_loopback,
            accept_topic_alias,
            layout: FastQos0ReadLayout::default(),
            aliases: HashMap::new(),
        };
        assert(r@.aliases =~= Map::empty());
        r
    }

    /// Reads from the front of what came in.
    pub fn step(&mut self, buf: &[u8]) -> (r: Result<ReadStep, FrameFault>)
        ensures
            match old(self)@.step(buf@) {
                Ok((after, step)) => r matches Ok(found) && found@ == step && final(self)@ == after
                    && step.taken <= buf@.len(),
                Err(e) => r matches Err(f) && f == e,
            },
    {
        if self.fast_qos0_loopback && self.layout.packet_len != 0 {
            let batch = scan_qos0_read_batch(buf, &self.layout);
            if batch.messages != 0 {
                return Ok(
                    ReadStep {
                        taken: batch.bytes,
                        received: batch.messages as u64,
                        acknowledged: 0,
                        reply: Vec::new(),
                    },
                );
            }
        }
        let (header, start, end): (u8, usize, usize) = match try_packet_bounds(buf) {
            Err(e) => {
                return Err(e);
            },
            Ok(None) => {
                return Ok(
                    ReadStep { taken: 0, received: 0, acknowledged: 0, reply: Vec::new() },
                );
            },
            Ok(Some(found)) => found,
        };
        let body = slice_subrange(buf, start, end);
        if header / 16 == 4 {
            return Ok(ReadStep { taken: end, received: 0, acknowledged: 1, reply: Vec::new() });
        }
        if header / 16 != 3 {
            return Ok(ReadStep { taken: end, received: 0, acknowledged: 0, reply: Vec::new() });
        }
        let qos: u8 = header / 2 % 4;
        if self.fast_qos0_loopback && qos == 0 {
            let mut at: usize = start;
            if self.accept_topic_alias != 0 {
                let ghost was = self@.aliases;
                assert(was.dom() =~= self.aliases@.dom());
                match validate_server_topic_alias(
                    body,
                    self.accept_topic_alias,
                    &mut self.aliases,
                ) {
                    Err(e) => {
                        return Err(e);
                    },
                    Ok(None) => {},
                    Ok(Some(offset)) => {
                        at = start + offset;
                    },
                }
            }
            let prefix = slice_subrange(buf, 0, at);
            assert(prefix@ =~= buf@.take(at as int));
            self.layout.cache(prefix, end);
        }
        let mut reply: Vec<u8> = Vec::new();
        if qos == 1 {
            match parse_publish_packet_id(body, qos) {
                Err(e) => {
                    return Err(e);
                },
                Ok(Some(id)) => {
                    reply = encode_puback(id);
                },
                Ok(None) => {},
            }
        }
        Ok(ReadStep { taken: end, received: 1, acknowledged: 0, reply })
    }
}

/// A run of messages that is counted at once is made of packets that begin and end alike: each
/// begins as the form says, and is as long.
pub proof fn law_run_is_made_of_alike_packets(s: Seq<u8>, form: (nat, Seq<u8>), i: nat)
    requires
        i < alike(s, form),
    ensures
        (i + 1) * form.0 <= s.len(),
        i * form.0 + form.1.len() <= s.len(),
        s.skip((i * form.0) as int).take(form.1.len() as int) == form.1,
    decreases i,
{
    if i == 0 {
        assert(s.skip(0) =~= s);
        assert((0 + 1) * form.0 == form.0) by (nonlinear_arith);
        assert(0 * form.0 == 0) by (nonlinear_arith);
    } else {
        let rest = s.skip(form.0 as int);
        law_run_is_made_of_alike_packets(rest, form, (i - 1) as nat);
        assert((i + 1) * form.0 == i * form.0 + form.0) by (nonlinear_arith);
        assert(i * form.0 == (i - 1) * form.0 + form.0) by (nonlinear_arith);
        assert(rest.skip(((i - 1) * form.0) as int) =~= s.skip((i * form.0) as int));
    }
}

} // verus!

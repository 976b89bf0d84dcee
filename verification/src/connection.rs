//! The per-connection state machine: the decrypted-incoming, outgoing-plaintext
//! and outgoing-ciphertext buffers, the closing flag, and the logic that turns
//! decoded operations into store actions and response bytes.
//!
//! Socket and TLS record I/O stay outside: the surrounding event loop hands
//! decrypted bytes in, learns how many bytes each layer accepted, and reports
//! socket writes back. Every decision in between is made here.

use vstd::prelude::*;
use crate::protocol::{
    Operation, OpModel, ParseOutcome, parse_spec, parse_message_from_buffer, lemma_parse_spec_props,
    encode_op, lemma_round_trip,
};
use crate::store::{MessageStore, EntryModel, entry_live, spec_expiry};
use crate::wire::{spec_u32_to_be_bytes, push_u32_be, append_bytes};

verus! {

/// The single success byte a Store operation is answered with.
pub const RESP_OK: u8 = 0x00;

/// Smallest length of the random filler a missing entry is answered with.
pub const MISS_MIN: u32 = 64;

/// Largest length of the random filler a missing entry is answered with.
pub const MISS_MAX: u32 = 1024;

/// Relies on rand::rngs::ThreadRng, the thread-local generator behind
/// rand::rng, documented as cryptographically secure.
#[verifier::external_type_specification]
#[verifier::external_body]
pub struct ExThreadRng(rand::rngs::ThreadRng);

/// Relies on rand::rng: a handle to the thread-local cryptographically
/// secure generator.
#[verifier::external_body]
fn fresh_rng() -> rand::rngs::ThreadRng {
    rand::rng()
}

/// Relies on rand::RngExt::random_range on an inclusive range: the result
/// lies within the bounds; it panics only on an empty range, which the
/// precondition rules out.
#[verifier::external_body]
fn random_u32_in(rng: &mut rand::rngs::ThreadRng, lo: u32, hi: u32) -> (r: u32)
    requires
        lo <= hi,
    ensures
        lo <= r <= hi,
{
    rand::RngExt::random_range(rng, lo..=hi)
}

/// Relies on rand::Rng::fill_bytes: it overwrites the slice with random
/// bytes and cannot change the vector's length.
#[verifier::external_body]
fn random_fill(rng: &mut rand::rngs::ThreadRng, buf: &mut Vec<u8>)
    ensures
        final(buf)@.len() == old(buf)@.len(),
{
    rand::Rng::fill_bytes(rng, buf.as_mut_slice())
}

/// The mathematical shape of a connection's protocol state.
pub struct ConnView {
    pub msg_id_size: int,
    pub closing: bool,
    pub incoming: Seq<u8>,
    pub out_plain: Seq<u8>,
    pub out_tls: Seq<u8>,
}

/// One peer's protocol state: the configured identifier length, the closing
/// flag, and the three byte buffers between the TLS layer and the codec.
pub struct Connection {
    msg_id_size: usize,
    closing: bool,
    incoming: Vec<u8>,
    out_plain: Vec<u8>,
    out_tls: Vec<u8>,
}

impl View for Connection {
    type V = ConnView;

    closed spec fn view(&self) -> ConnView {
        ConnView {
            msg_id_size: self.msg_id_size as int,
            closing: self.closing,
            incoming: self.incoming@,
            out_plain: self.out_plain@,
            out_tls: self.out_tls@,
        }
    }
}

/// A miss response: a four-byte big-endian length drawn from
/// [MISS_MIN, MISS_MAX], then exactly that many filler bytes.
pub open spec fn miss_response(pre_out: Seq<u8>, post_out: Seq<u8>) -> bool {
    exists|l: u32, f: Seq<u8>|
        #![auto]
        MISS_MIN <= l <= MISS_MAX && f.len() == l && post_out == pre_out + spec_u32_to_be_bytes(l)
            + f
}

/// How executing one operation relates connection and store, before and
/// after: a Store upserts and is answered with the single success byte; a
/// Retrieve answers with the stored payload behind its exact length when the
/// entry is present and live, and with a plausible random frame otherwise.
/// Nothing but the outgoing-plaintext buffer and the store changes.
pub open spec fn handle_post(
    pre: ConnView,
    post: ConnView,
    s0: Map<Seq<u8>, EntryModel>,
    s1: Map<Seq<u8>, EntryModel>,
    op: OpModel,
    now: u64,
) -> bool {
    &&& post.msg_id_size == pre.msg_id_size
    &&& post.closing == pre.closing
    &&& post.incoming == pre.incoming
    &&& post.out_tls == pre.out_tls
    &&& (match op {
        OpModel::Store { id, data, ttl } => {
            &&& s1 == s0.insert(id, EntryModel { data, expiry: spec_expiry(ttl, now) })
            &&& post.out_plain == pre.out_plain + seq![RESP_OK]
        },
        OpModel::Retrieve { id } => {
            &&& s1 == s0
            &&& if s0.contains_key(id) && entry_live(s0[id], now) {
                post.out_plain == pre.out_plain + spec_u32_to_be_bytes(s0[id].data.len() as u32)
                    + s0[id].data
            } else {
                miss_response(pre.out_plain, post.out_plain)
            }
        },
    })
}

/// The connection state after the codec removed `consumed` bytes.
pub open spec fn after_parse(c: ConnView, consumed: int) -> ConnView {
    ConnView { incoming: c.incoming.skip(consumed), ..c }
}

/// The connection state after a desynchronization discarded the buffer.
pub open spec fn cleared(c: ConnView) -> ConnView {
    ConnView { incoming: Seq::<u8>::empty(), ..c }
}

/// One pass of the processing loop: decode one frame and execute it, or
/// discard the buffer on an unknown opcode. No step exists while the frame
/// at the front is incomplete.
pub open spec fn one_step(
    c0: ConnView,
    s0: Map<Seq<u8>, EntryModel>,
    c1: ConnView,
    s1: Map<Seq<u8>, EntryModel>,
    now: u64,
) -> bool {
    match parse_spec(c0.incoming, c0.msg_id_size) {
        ParseOutcome::Parsed { op, consumed } => handle_post(
            after_parse(c0, consumed),
            c1,
            s0,
            s1,
            op,
            now,
        ),
        ParseOutcome::Desync => c1 == cleared(c0) && s1 == s0,
        ParseOutcome::Incomplete => false,
    }
}

/// Zero or more processing steps lead from one connection-and-store state to
/// another, each step decoding and executing one complete frame, or
/// discarding the buffer on desynchronization.
pub open spec fn reaches(
    c0: ConnView,
    s0: Map<Seq<u8>, EntryModel>,
    c1: ConnView,
    s1: Map<Seq<u8>, EntryModel>,
    now: u64,
) -> bool
    decreases c0.incoming.len(),
{
    ||| (c1 == c0 && s1 == s0)
    ||| (match parse_spec(c0.incoming, c0.msg_id_size) {
        ParseOutcome::Parsed { op, consumed } => 1 <= consumed && consumed <= c0.incoming.len()
            && (exists|cm: ConnView, sm: Map<Seq<u8>, EntryModel>|
            #[trigger] handle_post(after_parse(c0, consumed), cm, s0, sm, op, now)
                && cm.incoming == c0.incoming.skip(consumed) && reaches(cm, sm, c1, s1, now)),
        ParseOutcome::Desync => c1 == cleared(c0) && s1 == s0,
        ParseOutcome::Incomplete => false,
    })
}

/// Extending a reachable state by one more step keeps it reachable.
proof fn lemma_reaches_step(
    c0: ConnView,
    s0: Map<Seq<u8>, EntryModel>,
    c1: ConnView,
    s1: Map<Seq<u8>, EntryModel>,
    c2: ConnView,
    s2: Map<Seq<u8>, EntryModel>,
    now: u64,
)
    requires
        c0.msg_id_size >= 0,
        reaches(c0, s0, c1, s1, now),
        one_step(c1, s1, c2, s2, now),
    ensures
        reaches(c0, s0, c2, s2, now),
    decreases c0.incoming.len(),
{
    if c1 == c0 && s1 == s0 {
        match parse_spec(c0.incoming, c0.msg_id_size) {
            ParseOutcome::Parsed { op, consumed } => {
                lemma_parse_spec_props(c0.incoming, c0.msg_id_size);
                assert(handle_post(after_parse(c0, consumed), c2, s0, s2, op, now));
                assert(c2.incoming == c0.incoming.skip(consumed));
                assert(reaches(c2, s2, c2, s2, now));
            },
            ParseOutcome::Desync => {
            },
            ParseOutcome::Incomplete => {
                assert(false);
            },
        }
    } else {
        match parse_spec(c0.incoming, c0.msg_id_size) {
            ParseOutcome::Parsed { op, consumed } => {
                let (cm, sm) = choose|cm: ConnView, sm: Map<Seq<u8>, EntryModel>|
                    #[trigger] handle_post(after_parse(c0, consumed), cm, s0, sm, op, now)
                        && cm.incoming == c0.incoming.skip(consumed) && reaches(
                        cm,
                        sm,
                        c1,
                        s1,
                        now,
                    );
                lemma_reaches_step(cm, sm, c1, s1, c2, s2, now);
            },
            ParseOutcome::Desync => {
                assert(c1.incoming.len() == 0);
                assert(false);
            },
            ParseOutcome::Incomplete => {
                assert(false);
            },
        }
    }
}

/// Processing steps only append to the outgoing-plaintext buffer and touch
/// nothing but it, the incoming buffer, and the store: the identifier
/// length, the closing flag, the ciphertext queue, and every response byte
/// already queued all survive.
pub proof fn lemma_reaches_preserves(
    c0: ConnView,
    s0: Map<Seq<u8>, EntryModel>,
    c1: ConnView,
    s1: Map<Seq<u8>, EntryModel>,
    now: u64,
)
    requires
        reaches(c0, s0, c1, s1, now),
    ensures
        c1.msg_id_size == c0.msg_id_size,
        c1.closing == c0.closing,
        c1.out_tls == c0.out_tls,
        c0.out_plain.len() <= c1.out_plain.len(),
        forall|i: int| 0 <= i < c0.out_plain.len() ==> c1.out_plain[i] == c0.out_plain[i],
    decreases c0.incoming.len(),
{
    if c1 == c0 && s1 == s0 {
    } else {
        match parse_spec(c0.incoming, c0.msg_id_size) {
            ParseOutcome::Parsed { op, consumed } => {
                let (cm, sm) = choose|cm: ConnView, sm: Map<Seq<u8>, EntryModel>|
                    #[trigger] handle_post(after_parse(c0, consumed), cm, s0, sm, op, now)
                        && cm.incoming == c0.incoming.skip(consumed) && reaches(
                        cm,
                        sm,
                        c1,
                        s1,
                        now,
                    );
                match op {
                    OpModel::Store { .. } => {
                        assert(cm.out_plain == c0.out_plain + seq![RESP_OK]);
                    },
                    OpModel::Retrieve { id } => {
                        if s0.contains_key(id) && entry_live(s0[id], now) {
                        } else {
                            assert(miss_response(c0.out_plain, cm.out_plain));
                        }
                    },
                }
                lemma_reaches_preserves(cm, sm, c1, s1, now);
            },
            ParseOutcome::Desync => {
            },
            ParseOutcome::Incomplete => {
                assert(false);
            },
        }
    }
}

/// A buffer holding exactly one well-formed Store frame, once processed to
/// quiescence, upserts the payload under its identifier and queues exactly
/// the single success byte.
pub proof fn lemma_single_store_frame(
    c0: ConnView,
    s0: Map<Seq<u8>, EntryModel>,
    c1: ConnView,
    s1: Map<Seq<u8>, EntryModel>,
    id: Seq<u8>,
    data: Seq<u8>,
    ttl: Option<u64>,
    now: u64,
)
    requires
        c0.incoming == encode_op(OpModel::Store { id, data, ttl }),
        id.len() == c0.msg_id_size,
        data.len() <= u32::MAX,
        reaches(c0, s0, c1, s1, now),
        parse_spec(c1.incoming, c1.msg_id_size) is Incomplete,
    ensures
        c1.incoming == Seq::<u8>::empty(),
        s1 == s0.insert(id, EntryModel { data, expiry: spec_expiry(ttl, now) }),
        c1.out_plain == c0.out_plain + seq![RESP_OK],
{
    let op = OpModel::Store { id, data, ttl };
    lemma_round_trip(op, Seq::<u8>::empty(), c0.msg_id_size);
    assert(encode_op(op) + Seq::<u8>::empty() =~= c0.incoming);
    let consumed: int = encode_op(op).len() as int;
    assert(parse_spec(c0.incoming, c0.msg_id_size) == (ParseOutcome::Parsed { op, consumed }));
    if c1 == c0 && s1 == s0 {
        assert(false);
    } else {
        let (cm, sm) = choose|cm: ConnView, sm: Map<Seq<u8>, EntryModel>|
            #[trigger] handle_post(after_parse(c0, consumed), cm, s0, sm, op, now)
                && cm.incoming == c0.incoming.skip(consumed) && reaches(cm, sm, c1, s1, now);
        assert(cm.incoming =~= Seq::<u8>::empty());
        assert(parse_spec(cm.incoming, cm.msg_id_size) is Incomplete);
        assert(c1 == cm && s1 == sm);
    }
}

/// A buffer holding exactly one well-formed Retrieve frame whose identifier
/// is stored and live, once processed to quiescence, leaves the store alone
/// and queues exactly the stored payload behind its four-byte length.
pub proof fn lemma_single_retrieve_hit(
    c0: ConnView,
    s0: Map<Seq<u8>, EntryModel>,
    c1: ConnView,
    s1: Map<Seq<u8>, EntryModel>,
    id: Seq<u8>,
    now: u64,
)
    requires
        c0.incoming == encode_op(OpModel::Retrieve { id }),
        id.len() == c0.msg_id_size,
        s0.contains_key(id),
        entry_live(s0[id], now),
        reaches(c0, s0, c1, s1, now),
        parse_spec(c1.incoming, c1.msg_id_size) is Incomplete,
    ensures
        c1.incoming == Seq::<u8>::empty(),
        s1 == s0,
        c1.out_plain == c0.out_plain + spec_u32_to_be_bytes(s0[id].data.len() as u32)
            + s0[id].data,
{
    let op = OpModel::Retrieve { id };
    lemma_round_trip(op, Seq::<u8>::empty(), c0.msg_id_size);
    assert(encode_op(op) + Seq::<u8>::empty() =~= c0.incoming);
    let consumed: int = encode_op(op).len() as int;
    assert(parse_spec(c0.incoming, c0.msg_id_size) == (ParseOutcome::Parsed { op, consumed }));
    if c1 == c0 && s1 == s0 {
        assert(false);
    } else {
        let (cm, sm) = choose|cm: ConnView, sm: Map<Seq<u8>, EntryModel>|
            #[trigger] handle_post(after_parse(c0, consumed), cm, s0, sm, op, now)
                && cm.incoming == c0.incoming.skip(consumed) && reaches(cm, sm, c1, s1, now);
        assert(cm.incoming =~= Seq::<u8>::empty());
        assert(parse_spec(cm.incoming, cm.msg_id_size) is Incomplete);
        assert(c1 == cm && s1 == sm);
    }
}

/// A buffer holding exactly one well-formed Retrieve frame whose identifier
/// is absent or expired, once processed to quiescence, leaves the store alone
/// and queues one plausibly-sized random frame: a four-byte big-endian length
/// within [MISS_MIN, MISS_MAX] and exactly that many filler bytes.
pub proof fn lemma_single_retrieve_miss(
    c0: ConnView,
    s0: Map<Seq<u8>, EntryModel>,
    c1: ConnView,
    s1: Map<Seq<u8>, EntryModel>,
    id: Seq<u8>,
    now: u64,
)
    requires
        c0.incoming == encode_op(OpModel::Retrieve { id }),
        id.len() == c0.msg_id_size,
        !(s0.contains_key(id) && entry_live(s0[id], now)),
        reaches(c0, s0, c1, s1, now),
        parse_spec(c1.incoming, c1.msg_id_size) is Incomplete,
    ensures
        c1.incoming == Seq::<u8>::empty(),
        s1 == s0,
        miss_response(c0.out_plain, c1.out_plain),
{
    let op = OpModel::Retrieve { id };
    lemma_round_trip(op, Seq::<u8>::empty(), c0.msg_id_size);
    assert(encode_op(op) + Seq::<u8>::empty() =~= c0.incoming);
    let consumed: int = encode_op(op).len() as int;
    assert(parse_spec(c0.incoming, c0.msg_id_size) == (ParseOutcome::Parsed { op, consumed }));
    if c1 == c0 && s1 == s0 {
        assert(false);
    } else {
        let (cm, sm) = choose|cm: ConnView, sm: Map<Seq<u8>, EntryModel>|
            #[trigger] handle_post(after_parse(c0, consumed), cm, s0, sm, op, now)
                && cm.incoming == c0.incoming.skip(consumed) && reaches(cm, sm, c1, s1, now);
        assert(cm.incoming =~= Seq::<u8>::empty());
        assert(parse_spec(cm.incoming, cm.msg_id_size) is Incomplete);
        assert(c1 == cm && s1 == sm);
    }
}

/// A buffer starting with an unknown opcode, once processed to quiescence, is
/// discarded whole: no operation executes, the store is untouched, no
/// response byte is queued.
pub proof fn lemma_desync_clears_connection(
    c0: ConnView,
    s0: Map<Seq<u8>, EntryModel>,
    c1: ConnView,
    s1: Map<Seq<u8>, EntryModel>,
    now: u64,
)
    requires
        c0.incoming.len() > 0,
        c0.incoming[0] != crate::protocol::OP_STORE,
        c0.incoming[0] != crate::protocol::OP_RETRIEVE,
        reaches(c0, s0, c1, s1, now),
        parse_spec(c1.incoming, c1.msg_id_size) is Incomplete,
    ensures
        c1 == cleared(c0),
        s1 == s0,
{
    assert(parse_spec(c0.incoming, c0.msg_id_size) is Desync);
    if c1 == c0 && s1 == s0 {
        assert(false);
    }
}

impl Connection {
    /// A fresh connection: configured identifier length, empty buffers, not
    /// closing.
    pub fn new(msg_id_size: usize) -> (r: Self)
        ensures
            r@.msg_id_size == msg_id_size as int,
            !r@.closing,
            r@.incoming == Seq::<u8>::empty(),
            r@.out_plain == Seq::<u8>::empty(),
            r@.out_tls == Seq::<u8>::empty(),
    {
        Connection {
            msg_id_size,
            closing: false,
            incoming: Vec::new(),
            out_plain: Vec::new(),
            out_tls: Vec::new(),
        }
    }

    /// Executes one decoded operation against the store and appends the
    /// response bytes to the outgoing-plaintext buffer.
    pub fn handle_operation(&mut self, op: Operation, message_store: &mut MessageStore, now: u64)
        requires
            old(message_store).wf(),
            (op@ matches OpModel::Store { data, .. } ==> data.len() <= u32::MAX),
        ensures
            final(message_store).wf(),
            handle_post(
                old(self)@,
                final(self)@,
                old(message_store)@,
                final(message_store)@,
                op@,
                now,
            ),
    {
        match op {
            Operation::Store { id, data, ttl } => {
                message_store.insert(id, data, ttl, now);
                self.out_plain.push(RESP_OK);
                proof {
                    assert(self.out_plain@ =~= old(self).out_plain@ + seq![RESP_OK]);
                }
            },
            Operation::Retrieve { id } => {
                match message_store.get(&id, now) {
                    Some(data) => {
                        let n: usize = data.len();
                        push_u32_be(&mut self.out_plain, n as u32);
                        append_bytes(&mut self.out_plain, &data);
                        proof {
                            assert(self.out_plain@ =~= old(self).out_plain@ + spec_u32_to_be_bytes(
                                n as u32,
                            ) + data@);
                        }
                    },
                    None => {
                        let mut rng = fresh_rng();
                        let l: u32 = random_u32_in(&mut rng, MISS_MIN, MISS_MAX);
                        let mut filler: Vec<u8> = vec![0u8; l as usize];
                        random_fill(&mut rng, &mut filler);
                        push_u32_be(&mut self.out_plain, l);
                        append_bytes(&mut self.out_plain, &filler);
                        proof {
                            assert(filler@.len() == l as int);
                            assert(self.out_plain@ == old(self).out_plain@ + spec_u32_to_be_bytes(
                                l,
                            ) + filler@);
                            assert(miss_response(old(self).out_plain@, self.out_plain@));
                        }
                    },
                }
            },
        }
    }

    /// Decodes and executes every complete frame at the front of the
    /// incoming buffer, stopping once the rest is incomplete; an unknown
    /// opcode discards the buffer.
    pub fn process_incoming_plaintext(&mut self, message_store: &mut MessageStore, now: u64)
        requires
            old(message_store).wf(),
        ensures
            final(message_store).wf(),
            reaches(old(self)@, old(message_store)@, final(self)@, final(message_store)@, now),
            parse_spec(final(self)@.incoming, final(self)@.msg_id_size) is Incomplete,
            final(self)@.msg_id_size == old(self)@.msg_id_size,
            final(self)@.closing == old(self)@.closing,
            final(self)@.out_tls == old(self)@.out_tls,
    {
        let ghost c_init = self@;
        let ghost s_init = message_store@;
        let mut done: bool = false;
        while !done
            invariant
                message_store.wf(),
                c_init.msg_id_size >= 0,
                reaches(c_init, s_init, self@, message_store@, now),
                self@.msg_id_size == c_init.msg_id_size,
                done ==> parse_spec(self@.incoming, self@.msg_id_size) is Incomplete,
            decreases self@.incoming.len() + (if done {
                0int
            } else {
                1int
            }),
        {
            let ghost c_pre = self@;
            let ghost s_pre = message_store@;
            let r = parse_message_from_buffer(&mut self.incoming, self.msg_id_size);
            match r {
                None => {
                    proof {
                        match parse_spec(c_pre.incoming, c_pre.msg_id_size) {
                            ParseOutcome::Incomplete => {
                            },
                            ParseOutcome::Desync => {
                                assert(self@ == cleared(c_pre));
                                assert(one_step(c_pre, s_pre, self@, message_store@, now));
                                lemma_reaches_step(
                                    c_init,
                                    s_init,
                                    c_pre,
                                    s_pre,
                                    self@,
                                    message_store@,
                                    now,
                                );
                            },
                            ParseOutcome::Parsed { op, consumed } => {
                                assert(false);
                            },
                        }
                    }
                    done = true;
                },
                Some(op) => {
                    proof {
                        lemma_parse_spec_props(c_pre.incoming, c_pre.msg_id_size);
                    }
                    self.handle_operation(op, message_store, now);
                    proof {
                        assert(one_step(c_pre, s_pre, self@, message_store@, now));
                        lemma_reaches_step(
                            c_init,
                            s_init,
                            c_pre,
                            s_pre,
                            self@,
                            message_store@,
                            now,
                        );
                    }
                },
            }
        }
        proof {
            lemma_reaches_preserves(c_init, s_init, self@, message_store@, now);
        }
    }

    /// Bytes the TLS layer has decrypted arrive at the incoming buffer.
    pub fn append_incoming(&mut self, chunk: &Vec<u8>)
        ensures
            final(self)@ == (ConnView { incoming: old(self)@.incoming + chunk@, ..old(self)@ }),
    {
        append_bytes(&mut self.incoming, chunk);
    }

    /// The outgoing-plaintext buffer, to be offered to the TLS layer.
    pub fn outgoing_plaintext(&self) -> (r: &Vec<u8>)
        ensures
            r@ == self@.out_plain,
    {
        &self.out_plain
    }

    /// The TLS layer accepted `n` plaintext bytes for encryption: only that
    /// prefix leaves the buffer; the remainder is retried later.
    pub fn consume_outgoing_plaintext(&mut self, n: usize)
        requires
            n <= old(self)@.out_plain.len(),
        ensures
            final(self)@ == (ConnView {
                out_plain: old(self)@.out_plain.skip(n as int),
                ..old(self)@
            }),
    {
        crate::wire::drain_prefix(&mut self.out_plain, n);
    }

    /// Ciphertext the TLS layer emitted queues up for the socket.
    pub fn append_outgoing_tls(&mut self, chunk: &Vec<u8>)
        ensures
            final(self)@ == (ConnView { out_tls: old(self)@.out_tls + chunk@, ..old(self)@ }),
    {
        append_bytes(&mut self.out_tls, chunk);
    }

    /// The queued ciphertext, to be written to the socket.
    pub fn outgoing_tls(&self) -> (r: &Vec<u8>)
        ensures
            r@ == self@.out_tls,
    {
        &self.out_tls
    }

    /// The socket accepted `n` ciphertext bytes: they leave the queue. A
    /// successful zero-length write never happens on a healthy stream
    /// socket, so it forces closing.
    pub fn note_socket_write(&mut self, n: usize)
        requires
            n <= old(self)@.out_tls.len(),
        ensures
            n == 0 ==> final(self)@ == (ConnView { closing: true, ..old(self)@ }),
            n > 0 ==> final(self)@ == (ConnView {
                out_tls: old(self)@.out_tls.skip(n as int),
                ..old(self)@
            }),
    {
        if n == 0 {
            self.closing = true;
        } else {
            crate::wire::drain_prefix(&mut self.out_tls, n);
        }
    }

    /// Read error, peer EOF or TLS failure: the connection will be dropped
    /// after this pass and never re-registered.
    pub fn mark_closing(&mut self)
        ensures
            final(self)@ == (ConnView { closing: true, ..old(self)@ }),
    {
        self.closing = true;
    }

    /// Whether the connection has been marked for closure.
    pub fn is_closed(&self) -> (r: bool)
        ensures
            r == self@.closing,
    {
        self.closing
    }

    /// The configured identifier length.
    pub fn msg_id_size(&self) -> (r: usize)
        ensures
            r as int == self@.msg_id_size,
    {
        self.msg_id_size
    }

    /// Write interest is wanted iff output is still pending: buffered
    /// plaintext, buffered ciphertext, or records inside the TLS layer.
    pub fn wants_write(&self, tls_wants_write: bool) -> (r: bool)
        ensures
            r == (self@.out_plain.len() > 0 || self@.out_tls.len() > 0 || tls_wants_write),
    {
        !self.out_plain.is_empty() || !self.out_tls.is_empty() || tls_wants_write
    }
}

} // verus!

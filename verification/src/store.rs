//! The server-side message store: a dense, zero-based, append-only log of
//! messages per room, kept in an ordered byte-keyed storage engine. The
//! store owns all id arithmetic and the contiguity invariant; the engine
//! only gets and sets byte values under byte keys.
use vstd::prelude::*;

use crate::bytes::dec_bytes;
use crate::bytes::is_u64_numeral_b;
use crate::bytes::numeral_val_b;
use crate::client::MessageSuccess;
use crate::client::SyncRequest;
use crate::json::message_json;
use crate::num::dec_str;
use vstd::utf8::encode_utf8;

verus! {

#[verifier::external_type_specification]
#[verifier::external_body]
#[verifier::reject_recursive_types(F)]
pub struct ExAss<F>(assystem::ASS<F>);

/// A message store over one storage engine instance. The ghost `model`
/// stands for the engine's current contents, as a map from the characters
/// of a key (the engine itself is keyed by their UTF-8 bytes, which encode
/// distinct strings distinctly) to the stored value bytes.
#[verifier::reject_recursive_types(F)]
pub struct Store<F> {
    ass: assystem::ASS<F>,
    model: Ghost<Map<Seq<char>, Seq<u8>>>,
}

/// Why the store refused an append.
#[derive(Clone, Copy, Debug, PartialEq, Eq, Structural)]
pub enum StoreError {
    /// The room's last-id counter holds something other than a numeral.
    CounterMalformed,
    /// The room's last-id counter has reached the end of the id space.
    CounterExhausted,
}

/// The key under which a room's message of a given id is stored.
pub open spec fn msg_key(room: Seq<char>, id: u64) -> Seq<char> {
    room + "/messages/"@ + dec_str(id as nat)
}

/// The key under which a room's last assigned id is stored.
pub open spec fn counter_key(room: Seq<char>) -> Seq<char> {
    room + "/last message id"@
}

/// A room's log is dense: when the counter is there it parses, and a
/// message key is present exactly for the ids up to the counter's value;
/// when the counter is absent the room has no messages at all.
pub open spec fn room_inv(m: Map<Seq<char>, Seq<u8>>, room: Seq<char>) -> bool {
    if m.contains_key(counter_key(room)) {
        &&& is_u64_numeral_b(m[counter_key(room)])
        &&& forall|i: u64|
            m.contains_key(#[trigger] msg_key(room, i))
                <==> i <= numeral_val_b(m[counter_key(room)])
    } else {
        forall|i: u64| !m.contains_key(#[trigger] msg_key(room, i))
    }
}

/// How many messages a room's log holds.
pub open spec fn room_len(m: Map<Seq<char>, Seq<u8>>, room: Seq<char>) -> nat {
    if m.contains_key(counter_key(room)) {
        numeral_val_b(m[counter_key(room)]) + 1
    } else {
        0
    }
}

/// `r` is exactly the dense run of stored payloads of `room` beginning
/// at id `start`: every listed payload is stored under its id, and the id
/// right after the run holds nothing.
pub open spec fn dense_run(
    m: Map<Seq<char>, Seq<u8>>,
    room: Seq<char>,
    start: int,
    r: Seq<Seq<u8>>,
) -> bool {
    &&& forall|k: int|
        0 <= k < r.len() ==> start + k <= u64::MAX && m.contains_key(
            #[trigger] msg_key(room, (start + k) as u64),
        ) && r[k] == m[msg_key(room, (start + k) as u64)]
    &&& start + r.len() <= u64::MAX ==> !m.contains_key(
        msg_key(room, (start + r.len()) as u64),
    )
}

/// Distinct ids give distinct message keys in one room.
pub proof fn lemma_msg_key_injective(room: Seq<char>, i: u64, j: u64)
    requires
        msg_key(room, i) == msg_key(room, j),
    ensures
        i == j,
{
    crate::num::lemma_dec_str_val(i as nat);
    crate::num::lemma_dec_str_val(j as nat);
    let ki = msg_key(room, i);
    let kj = msg_key(room, j);
    let off = room.len() + "/messages/"@.len();
    assert(dec_str(i as nat) =~= ki.skip(off as int));
    assert(dec_str(j as nat) =~= kj.skip(off as int));
    assert(crate::num::digits_val(dec_str(i as nat)) == crate::num::digits_val(
        dec_str(j as nat),
    ));
}

/// A room's message keys never collide with its counter key.
pub proof fn lemma_keys_distinct(room: Seq<char>, i: u64)
    ensures
        msg_key(room, i) != counter_key(room),
{
    reveal_strlit("/messages/");
    reveal_strlit("/last message id");
    if msg_key(room, i) == counter_key(room) {
        assert(msg_key(room, i)[room.len() as int + 1] == 'm');
        assert(counter_key(room)[room.len() as int + 1] == 'l');
    }
}

impl<F: assystem::ASSFile> Store<F> {
    /// The engine's contents: what has been set under each key.
    pub closed spec fn contents(&self) -> Map<Seq<char>, Seq<u8>> {
        self.model@
    }

    /// Relies on assystem::ASS::open having prepared the engine `ass`:
    /// the store starts over whatever that engine already holds, about
    /// which nothing is assumed.
    #[verifier::external_body]
    pub fn new(ass: assystem::ASS<F>) -> (r: Store<F>)
    {
        Store { ass, model: Ghost(Map::empty()) }
    }

    /// Relies on assystem::ASS::get: returns the value stored under
    /// exactly this key's UTF-8 bytes, if any, and changes nothing.
    /// Panics only if the engine's backing file fails, as the engine does.
    #[verifier::external_body]
    fn raw_get(&mut self, key: &str) -> (r: Option<Vec<u8>>)
        ensures
            final(self).contents() == old(self).contents(),
            match r {
                Some(v) => old(self).contents().contains_key(key@) && v@ == old(
                    self,
                ).contents()[key@],
                None => !old(self).contents().contains_key(key@),
            },
    {
        self.ass.get(key.as_bytes())
    }

    /// Relies on assystem::ASS::set: stores the value under exactly this
    /// key's UTF-8 bytes, replacing what was there. Panics only if the
    /// engine's backing file fails, as the engine does.
    #[verifier::external_body]
    fn raw_set(&mut self, key: &str, value: &[u8])
        ensures
            final(self).contents() == old(self).contents().insert(key@, value@),
    {
        self.ass.set(key.as_bytes(), value);
    }

    /// Read the messages of a room from `start` on, in id order, up to
    /// the first missing id: exactly the stored payloads of the dense run
    /// beginning at `start`. Under the room invariant that run is the
    /// whole rest of the log.
    pub fn read_from(&mut self, room: &str, start: u64) -> (r: Vec<Vec<u8>>)
        ensures
            final(self).contents() == old(self).contents(),
            dense_run(old(self).contents(), room@, start as int, r.deep_view()),
            room_inv(old(self).contents(), room@) ==> r@.len() == (
            if (start as nat) < room_len(old(self).contents(), room@) {
                room_len(old(self).contents(), room@) - start
            } else {
                0
            }),
    {
        let ghost m = self.contents();
        let mut r: Vec<Vec<u8>> = Vec::new();
        let mut id: u64 = start;
        let mut go = true;
        while go
            invariant
                start <= id,
                id - start == r@.len(),
                self.contents() == m,
                m == old(self).contents(),
                forall|k: int|
                    0 <= k < r@.len() ==> start + k <= u64::MAX && m.contains_key(
                        #[trigger] msg_key(room@, (start + k) as u64),
                    ) && r.deep_view()[k] == m[msg_key(room@, (start + k) as u64)],
                !go ==> !m.contains_key(msg_key(room@, id)),
            decreases u64::MAX - id, (if go {
                1int
            } else {
                0int
            }),
        {
            let key = key_string(room, "/messages/", Some(id));
            proof {
                assert(key@ =~= msg_key(room@, id));
            }
            match self.raw_get(key.as_str()) {
                Some(v) => {
                    let ghost prev = r.deep_view();
                    r.push(v);
                    proof {
                        assert(r.deep_view() =~~= prev.push(m[msg_key(room@, id)]));
                        let k: int = r@.len() - 1;
                        assert((start + k) as u64 == id);
                        assert(m.contains_key(msg_key(room@, (start + k) as u64)));
                    }
                    if id == u64::MAX {
                        proof {
                            assert forall|k: int| 0 <= k < r.deep_view().len() implies start + k
                                <= u64::MAX && m.contains_key(
                                #[trigger] msg_key(room@, (start + k) as u64),
                            ) && r.deep_view()[k] == m[msg_key(
                                room@,
                                (start + k) as u64,
                            )] by {
                                if k < r@.len() - 1 {
                                } else {
                                    assert((start + k) as u64 == id);
                                }
                            }
                            assert(dense_run(m, room@, start as int, r.deep_view()));
                            if room_inv(m, room@) {
                                lemma_read_len(m, room@, start, r@.len() as nat);
                            }
                        }
                        return r;
                    }
                    id = id + 1;
                },
                None => {
                    go = false;
                },
            }
        }
        proof {
            assert((start + r@.len() as int) as u64 == id);
            assert(r.deep_view().len() == r@.len());
            assert(dense_run(m, room@, start as int, r.deep_view()));
            if room_inv(m, room@) {
                lemma_read_len(m, room@, start, r@.len() as nat);
            }
        }
        r
    }

    /// Append the client's own message to a room: allocate the next id (0
    /// for a fresh room, else the counter's value plus one), persist the
    /// counter and then the message payload, and return the new id. The
    /// counter must hold a numeral with room left in the id space; the
    /// log and the counter move together, so a dense room stays dense and
    /// grows by exactly one.
    pub fn append_self(
        &mut self,
        room: &str,
        lines: &Vec<String>,
        sender: &str,
        ts: i64,
    ) -> (r: Result<u64, StoreError>)
        ensures
            match r {
                Ok(id) => {
                    &&& match read_counter(old(self).contents(), room@) {
                        CounterState::Absent => id == 0,
                        CounterState::Holds(v) => v < u64::MAX && id == v + 1,
                        CounterState::Malformed => false,
                    }
                    &&& final(self).contents() == old(self).contents().insert(
                        counter_key(room@),
                        dec_bytes(id as nat),
                    ).insert(
                        msg_key(room@, id),
                        encode_utf8(message_json(lines.deep_view(), id, ts, sender@)),
                    )
                    &&& room_inv(old(self).contents(), room@) ==> {
                        &&& id == room_len(old(self).contents(), room@)
                        &&& room_inv(final(self).contents(), room@)
                        &&& room_len(final(self).contents(), room@) == id + 1
                    }
                },
                Err(e) => {
                    &&& final(self).contents() == old(self).contents()
                    &&& match read_counter(old(self).contents(), room@) {
                        CounterState::Absent => false,
                        CounterState::Holds(v) => e == StoreError::CounterExhausted && v
                            == u64::MAX,
                        CounterState::Malformed => e == StoreError::CounterMalformed,
                    }
                },
            },
    {
        let ghost m = self.contents();
        let ckey = key_string(room, "/last message id", None);
        proof {
            assert(ckey@ =~= counter_key(room@));
        }
        let new_id: u64 = match self.raw_get(ckey.as_str()) {
            None => 0,
            Some(v) => {
                match crate::bytes::parse_u64_bytes(&v) {
                    None => {
                        return Err(StoreError::CounterMalformed);
                    },
                    Some(last) => {
                        if last == u64::MAX {
                            return Err(StoreError::CounterExhausted);
                        }
                        last + 1
                    },
                }
            },
        };
        let counter_bytes = crate::bytes::u64_to_dec_bytes(new_id);
        self.raw_set(ckey.as_str(), counter_bytes.as_slice());
        let payload_chars = crate::json::render_message_json(lines, new_id, ts, sender);
        let payload = crate::text::chars_to_string(&payload_chars);
        let mkey = key_string(room, "/messages/", Some(new_id));
        proof {
            assert(mkey@ =~= msg_key(room@, new_id));
        }
        self.raw_set(mkey.as_str(), payload.as_str().as_bytes());
        proof {
            crate::bytes::lemma_dec_bytes_val(new_id as nat);
            if room_inv(m, room@) {
                lemma_append_inv(
                    m,
                    room@,
                    new_id,
                    encode_utf8(message_json(lines.deep_view(), new_id, ts, sender@)),
                );
            }
        }
        Ok(new_id)
    }
}

/// What the room's counter holds.
pub enum CounterState {
    Absent,
    Holds(u64),
    Malformed,
}

/// Read the counter of a room out of the store's contents.
pub open spec fn read_counter(m: Map<Seq<char>, Seq<u8>>, room: Seq<char>) -> CounterState {
    if !m.contains_key(counter_key(room)) {
        CounterState::Absent
    } else if is_u64_numeral_b(m[counter_key(room)]) {
        CounterState::Holds(numeral_val_b(m[counter_key(room)]) as u64)
    } else {
        CounterState::Malformed
    }
}

/// Build `room` + `infix` + the decimal of `id`, if one is given.
fn key_string(room: &str, infix: &str, id: Option<u64>) -> (r: String)
    ensures
        r@ == room@ + infix@ + (match id {
            Some(v) => dec_str(v as nat),
            None => Seq::<char>::empty(),
        }),
{
    let mut out: Vec<char> = Vec::new();
    crate::roomfile::push_str_chars(&mut out, room);
    crate::roomfile::push_str_chars(&mut out, infix);
    match id {
        Some(v) => {
            let ds = crate::num::u64_to_dec(v);
            crate::roomfile::push_chars_vec(&mut out, &ds);
            assert(out@ =~= room@ + infix@ + dec_str(v as nat));
        },
        None => {
            assert(out@ =~= room@ + infix@ + Seq::<char>::empty());
        },
    }
    crate::text::chars_to_string(&out)
}

/// A dense run read out of a room that satisfies the invariant covers
/// exactly the ids from `start` to the end of the log.
proof fn lemma_read_len(m: Map<Seq<char>, Seq<u8>>, room: Seq<char>, start: u64, n: nat)
    requires
        room_inv(m, room),
        start + n <= u64::MAX + 1,
        forall|k: int|
            0 <= k < n ==> m.contains_key(#[trigger] msg_key(room, (start + k) as u64)),
        start + n <= u64::MAX ==> !m.contains_key(msg_key(room, (start + n as int) as u64)),
    ensures
        n == if (start as nat) < room_len(m, room) {
            room_len(m, room) - start
        } else {
            0int
        },
{
    if m.contains_key(counter_key(room)) {
        let last = numeral_val_b(m[counter_key(room)]);
        assert(last <= u64::MAX);
        if n > 0 {
            let k: int = n - 1;
            assert(m.contains_key(msg_key(room, (start + k) as u64)));
            assert(start + k <= last);
        }
        if start + n <= u64::MAX {
            let k: int = n as int;
            assert(!m.contains_key(msg_key(room, (start + k) as u64)));
            assert(!(start + k <= last));
        }
        if (start as nat) < last + 1 {
            assert(n == last + 1 - start);
        } else {
            if n > 0 {
                let k: int = 0;
                assert(m.contains_key(msg_key(room, (start + k) as u64)));
                assert(start + k <= last);
            }
            assert(n == 0);
        }
    } else {
        if n > 0 {
            let k: int = 0;
            assert(m.contains_key(msg_key(room, (start + k) as u64)));
            assert(false);
        }
    }
}

/// Appending under the invariant keeps the room dense and grows it by one.
proof fn lemma_append_inv(
    m: Map<Seq<char>, Seq<u8>>,
    room: Seq<char>,
    id: u64,
    payload: Seq<u8>,
)
    requires
        room_inv(m, room),
        id == room_len(m, room),
    ensures
        ({
            let m2 = m.insert(counter_key(room), dec_bytes(id as nat)).insert(
                msg_key(room, id),
                payload,
            );
            room_inv(m2, room) && room_len(m2, room) == id + 1
        }),
{
    let m2 = m.insert(counter_key(room), dec_bytes(id as nat)).insert(
        msg_key(room, id),
        payload,
    );
    crate::bytes::lemma_dec_bytes_val(id as nat);
    lemma_keys_distinct(room, id);
    assert(m2.contains_key(counter_key(room)));
    assert(m2[counter_key(room)] == dec_bytes(id as nat));
    assert(numeral_val_b(m2[counter_key(room)]) == id as nat);
    assert forall|i: u64| m2.contains_key(#[trigger] msg_key(room, i)) <==> i <= id by {
        lemma_keys_distinct(room, i);
        if msg_key(room, i) == msg_key(room, id) {
            lemma_msg_key_injective(room, i, id);
        }
        if i != id {
            assert(msg_key(room, i) != msg_key(room, id)) by {
                if msg_key(room, i) == msg_key(room, id) {
                    lemma_msg_key_injective(room, i, id);
                }
            }
            assert(m2.contains_key(msg_key(room, i)) == m.contains_key(msg_key(room, i)));
            if m.contains_key(counter_key(room)) {
                assert(m.contains_key(msg_key(room, i)) <==> i
                    <= numeral_val_b(m[counter_key(room)]));
            }
        }
    }
}


/// Why a request was refused.
#[derive(Clone, Copy, Debug, PartialEq, Eq, Structural)]
pub enum ServerError {
    /// The request's `last_message_id` leaves no room for a next id.
    LastIdExhausted,
    /// The room's last-id counter holds something other than a numeral.
    CounterMalformed,
    /// The room's last-id counter has reached the end of the id space.
    CounterExhausted,
}

/// What the handler replies: the acknowledgement of the client's own
/// message, if one was appended, and the stored payloads of every message
/// the client has not seen, in ascending id order.
pub struct SyncResponse {
    pub self_message_success: Option<MessageSuccess>,
    pub new_message_payloads: Vec<Vec<u8>>,
}

/// The first id a request asks to read: one past the last seen id, or 0.
pub open spec fn start_id(last: Option<u64>) -> int {
    match last {
        Some(v) => v + 1,
        None => 0,
    }
}

impl<F: assystem::ASSFile> Store<F> {
    /// Handle one reconciliation request: read every message the client
    /// has not seen, then, when the request stages content, append it as
    /// the client's own message, stamped with the current time. A request
    /// that stages nothing mutates nothing; in particular, a client that
    /// is already at the end of a dense log and stages nothing gets an
    /// empty response and the store is left exactly as it was.
    pub fn handle_request(&mut self, req: &SyncRequest) -> (r: Result<
        SyncResponse,
        ServerError,
    >)
        ensures
            ({
                let m = old(self).contents();
                let room = req.room_name@;
                let start = start_id(req.last_message_id);
                match r {
                    Ok(resp) => {
                        &&& start <= u64::MAX
                        &&& dense_run(m, room, start, resp.new_message_payloads.deep_view())
                        &&& room_inv(m, room) ==> resp.new_message_payloads@.len() == (
                        if start < room_len(m, room) {
                            room_len(m, room) - start
                        } else {
                            0int
                        })
                        &&& req.self_message_lines@.len() == 0 ==> {
                            &&& resp.self_message_success is None
                            &&& final(self).contents() == m
                        }
                        &&& req.self_message_lines@.len() > 0 ==> {
                            &&& resp.self_message_success is Some
                            &&& ({
                                let ms = resp.self_message_success.unwrap();
                                &&& match read_counter(m, room) {
                                    CounterState::Absent => ms.id == 0,
                                    CounterState::Holds(v) => v < u64::MAX && ms.id == v + 1,
                                    CounterState::Malformed => false,
                                }
                                &&& final(self).contents() == m.insert(
                                    counter_key(room),
                                    dec_bytes(ms.id as nat),
                                ).insert(
                                    msg_key(room, ms.id),
                                    encode_utf8(
                                        message_json(
                                            req.self_message_lines.deep_view(),
                                            ms.id,
                                            ms.utc_unix_timestamp,
                                            req.self_name@,
                                        ),
                                    ),
                                )
                                &&& room_inv(m, room) ==> {
                                    &&& ms.id == room_len(m, room)
                                    &&& room_inv(final(self).contents(), room)
                                    &&& room_len(final(self).contents(), room) == ms.id + 1
                                }
                            })
                        }
                    },
                    Err(e) => {
                        &&& final(self).contents() == m
                        &&& match e {
                            ServerError::LastIdExhausted => req.last_message_id == Some(
                                u64::MAX,
                            ),
                            ServerError::CounterMalformed => req.last_message_id != Some(
                                u64::MAX,
                            ) && req.self_message_lines@.len() > 0 && read_counter(m, room)
                                is Malformed,
                            ServerError::CounterExhausted => req.last_message_id != Some(
                                u64::MAX,
                            ) && req.self_message_lines@.len() > 0 && read_counter(m, room)
                                == CounterState::Holds(u64::MAX),
                        }
                    },
                }
            }),
    {
        match req.last_message_id {
            Some(v) => {
                if v == u64::MAX {
                    return Err(ServerError::LastIdExhausted);
                }
            },
            None => {},
        }
        let start: u64 = crate::next_message_id(req.last_message_id);
        let room_s = req.room_name.as_str();
        let new_message_payloads = self.read_from(room_s, start);
        proof {
            assert(room_s@ == req.room_name@);
            assert(start_id(req.last_message_id) == start as int);
            assert(dense_run(
                old(self).contents(),
                req.room_name@,
                start_id(req.last_message_id),
                new_message_payloads.deep_view(),
            ));
        }
        let self_message_success: Option<MessageSuccess> = if req.self_message_lines.len() > 0 {
            let ts = now_timestamp();
            match self.append_self(room_s, &req.self_message_lines, req.self_name.as_str(), ts) {
                Ok(id) => Some(MessageSuccess { utc_unix_timestamp: ts, id }),
                Err(StoreError::CounterMalformed) => {
                    return Err(ServerError::CounterMalformed);
                },
                Err(StoreError::CounterExhausted) => {
                    return Err(ServerError::CounterExhausted);
                },
            }
        } else {
            None
        };
        Ok(SyncResponse { self_message_success, new_message_payloads })
    }
}

/// Relies on chrono::Utc::now and chrono::DateTime::timestamp: the current
/// time in whole seconds since the Unix epoch. Nothing is assumed of the
/// value: it is whatever the clock gave.
#[verifier::external_body]
fn now_timestamp() -> (r: i64)
{
    chrono::Utc::now().timestamp()
}


/// Idempotent no-op: when a client's last seen id is already the top of a
/// dense room log, the dense run past it is empty — so a request that
/// stages nothing gets an empty response, and the handler's contract says
/// such a request leaves the store untouched.
pub proof fn lemma_idempotent_noop(
    m: Map<Seq<char>, Seq<u8>>,
    room: Seq<char>,
    last: u64,
    r: Seq<Seq<u8>>,
)
    requires
        room_inv(m, room),
        last as nat + 1 == room_len(m, room),
        last < u64::MAX,
        dense_run(m, room, last + 1, r),
    ensures
        r.len() == 0,
{
    if r.len() > 0 {
        let k: int = 0;
        assert(m.contains_key(msg_key(room, (last + 1 + k) as u64)));
        assert((last + 1 + k) as u64 <= numeral_val_b(m[counter_key(room)]));
    }
}

} // verus!

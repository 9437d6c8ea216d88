//! Client-side reconciliation: building the synchronization request from
//! a parsed room file, and computing the exact text the client appends to
//! the room file for a given server response.
use vstd::prelude::*;

use crate::roomfile::Room;
use crate::roomfile::block_text;

verus! {

/// One inbound message of a server response.
pub struct NewMessage {
    pub lines: Vec<String>,
    pub id: u64,
    pub utc_unix_timestamp: i64,
    pub sender_name: String,
}

/// The mathematical content of an inbound message.
pub struct NewMessageView {
    pub lines: Seq<Seq<char>>,
    pub id: u64,
    pub utc_unix_timestamp: i64,
    pub sender_name: Seq<char>,
}

impl View for NewMessage {
    type V = NewMessageView;

    open spec fn view(&self) -> NewMessageView {
        NewMessageView {
            lines: self.lines.deep_view(),
            id: self.id,
            utc_unix_timestamp: self.utc_unix_timestamp,
            sender_name: self.sender_name@,
        }
    }
}

/// The acknowledgement of the client's own message.
pub struct MessageSuccess {
    pub utc_unix_timestamp: i64,
    pub id: u64,
}

/// A server response: the acknowledgement of the client's own pending
/// message, if one was sent, and the inbound messages in ascending id order.
pub struct ServerResponse {
    pub self_message_success: Option<MessageSuccess>,
    pub new_messages: Vec<NewMessage>,
}

/// A synchronization request.
pub struct SyncRequest {
    pub room_name: String,
    pub last_message_id: Option<u64>,
    pub self_message_lines: Vec<String>,
    pub self_name: String,
}

/// The inbound messages of a response, as mathematical values.
pub open spec fn messages_view(resp: &ServerResponse) -> Seq<NewMessageView> {
    Seq::new(resp.new_messages@.len(), |i: int| resp.new_messages@[i]@)
}

/// Build the request a room file calls for: its room name, its recorded
/// resume point as the last seen id, its staged content as the pending
/// message, and its self name.
pub fn build_request(room: &Room) -> (r: SyncRequest)
    ensures
        r.room_name@ == room.room_name@,
        r.last_message_id == room.last_message_id,
        r.self_message_lines.deep_view() == room.self_message_lines.deep_view(),
        r.self_name@ == room.self_name@,
{
    SyncRequest {
        room_name: clone_string(&room.room_name),
        last_message_id: room.last_message_id,
        self_message_lines: clone_strings(&room.self_message_lines),
        self_name: clone_string(&room.self_name),
    }
}

/// Copy a string.
fn clone_string(s: &String) -> (r: String)
    ensures
        r@ == s@,
{
    crate::text::chars_to_string(&crate::text::str_chars(s.as_str()))
}

/// Copy a vector of strings.
fn clone_strings(v: &Vec<String>) -> (r: Vec<String>)
    ensures
        r.deep_view() == v.deep_view(),
{
    let mut r: Vec<String> = Vec::new();
    let mut i: usize = 0;
    while i < v.len()
        invariant
            i <= v.len(),
            r.deep_view() =~~= v.deep_view().take(i as int),
        decreases v.len() - i,
    {
        let ghost prev = r.deep_view();
        r.push(clone_string(&v[i]));
        proof {
            assert(v.deep_view()[i as int] == v@[i as int]@);
            assert(r.deep_view() =~~= prev.push(v.deep_view()[i as int]));
            assert(r.deep_view() =~~= v.deep_view().take(i + 1));
        }
        i = i + 1;
    }
    proof {
        assert(r.deep_view() =~~= v.deep_view());
    }
    r
}

/// Whether the response obliges the client to touch the room file at all:
/// a response with no acknowledgement and no inbound messages is a no-op,
/// and the staged content stays staged for a future attempt.
pub fn should_write(resp: &ServerResponse) -> (r: bool)
    ensures
        r == !(resp.self_message_success is None && resp.new_messages@.len() == 0),
{
    !(matches!(resp.self_message_success, None) && resp.new_messages.len() == 0)
}

/// The blocks written for the inbound messages, one block per message in
/// order, each rendered with its own display time. When the client's own
/// message was acknowledged with id `self_id`, every block's resume point
/// is `self_id`; otherwise each block's resume point is its own message id.
pub open spec fn blocks_text(
    msgs: Seq<NewMessageView>,
    times: Seq<Seq<char>>,
    self_id: Option<u64>,
) -> Seq<char>
    decreases msgs.len(),
{
    if msgs.len() == 0 {
        Seq::empty()
    } else {
        let resume = match self_id {
            Some(v) => v,
            None => msgs[0].id,
        };
        block_text(msgs[0].lines, msgs[0].sender_name, times[0], msgs[0].id, resume)
            + blocks_text(msgs.drop_first(), times.drop_first(), self_id)
    }
}

/// Everything the client appends to the room file for one response that
/// obliges a write: a separating newline when the file did not end with a
/// blank line; a block with no content lines for the client's own
/// acknowledged message, whose id is both message id and resume point;
/// then one block per inbound message.
pub open spec fn append_text_spec(
    success: Option<MessageSuccess>,
    msgs: Seq<NewMessageView>,
    self_name: Seq<char>,
    times: Seq<Seq<char>>,
    ends_with_newline: bool,
) -> Seq<char> {
    let lead: Seq<char> = if ends_with_newline {
        Seq::empty()
    } else {
        seq!['\n']
    };
    match success {
        Some(ms) => lead
            + block_text(Seq::empty(), self_name, times[0], ms.id, ms.id)
            + blocks_text(msgs, times.drop_first(), Some(ms.id)),
        None => lead + blocks_text(msgs, times, None),
    }
}

/// Render the text the client appends for `resp`, given the display time
/// of each written block: one time for the acknowledgement block, if any,
/// then one per inbound message.
pub fn build_append_text(
    resp: &ServerResponse,
    self_name: &str,
    times: &Vec<String>,
    ends_with_newline: bool,
) -> (r: String)
    requires
        times@.len() == (if resp.self_message_success is Some {
            1int
        } else {
            0int
        }) + resp.new_messages@.len(),
    ensures
        r@ == append_text_spec(
            resp.self_message_success,
            messages_view(resp),
            self_name@,
            times.deep_view(),
            ends_with_newline,
        ),
{
    let ghost tdv = times.deep_view();
    let ghost msgs = messages_view(resp);
    let mut out: Vec<char> = Vec::new();
    if !ends_with_newline {
        out.push('\n');
    }
    let mut ti: usize = 0;
    let ghost self_id_spec: Option<u64> = if resp.self_message_success is Some {
        Some(resp.self_message_success.unwrap().id)
    } else {
        None
    };
    let self_id: Option<u64> = match &resp.self_message_success {
        Some(ms) => {
            proof {
                crate::text::lemma_deep_index_str(times, 0);
            }
            let empty_lines: Vec<String> = Vec::new();
            let block = crate::roomfile::render_block(
                &empty_lines,
                self_name,
                times[0].as_str(),
                ms.id,
                ms.id,
            );
            crate::roomfile::push_str_chars(&mut out, block.as_str());
            proof {
                assert(empty_lines.deep_view() =~~= Seq::<Seq<char>>::empty());
            }
            ti = 1;
            Some(ms.id)
        },
        None => None,
    };
    let ghost mtimes = if self_id_spec is Some {
        tdv.drop_first()
    } else {
        tdv
    };
    let ghost lead: Seq<char> = if ends_with_newline {
        Seq::empty()
    } else {
        seq!['\n']
    };
    let tn = times.len();
    let ghost head = out@;
    proof {
        assert(out@.skip(head.len() as int) =~= Seq::<char>::empty());
        assert(out@.take(head.len() as int) =~= head);
        assert(msgs.skip(0) =~= msgs);
        assert(mtimes.skip(0) =~= mtimes);
    }
    let mut i: usize = 0;
    while i < resp.new_messages.len()
        invariant
            i <= resp.new_messages@.len(),
            msgs == messages_view(resp),
            msgs.len() == resp.new_messages@.len(),
            ti == i + (if self_id_spec is Some {
                1int
            } else {
                0int
            }),
            tdv == times.deep_view(),
            tdv.len() == (if self_id_spec is Some {
                1int
            } else {
                0int
            }) + msgs.len(),
            mtimes == (if self_id_spec is Some {
                tdv.drop_first()
            } else {
                tdv
            }),
            mtimes.len() == msgs.len(),
            tdv.len() == tn as int,
            head.len() <= out@.len(),
            self_id == self_id_spec,
            blocks_text(msgs, mtimes, self_id_spec)
                == out@.skip(head.len() as int)
                    + blocks_text(msgs.skip(i as int), mtimes.skip(i as int), self_id_spec),
            out@.take(head.len() as int) == head,
        decreases resp.new_messages@.len() - i,
    {
        let m = &resp.new_messages[i];
        let resume: u64 = match self_id {
            Some(v) => v,
            None => m.id,
        };
        let ghost prev_tail = out@.skip(head.len() as int);
        proof {
            crate::text::lemma_deep_index_str(times, ti as int);
            assert(msgs[i as int] == resp.new_messages@[i as int]@);
            let rest = msgs.skip(i as int);
            assert(rest[0] == msgs[i as int]);
            assert(rest.drop_first() =~~= msgs.skip(i + 1));
            assert(mtimes.skip(i as int)[0] == mtimes[i as int]);
            assert(mtimes.skip(i as int).drop_first() =~= mtimes.skip(i + 1));
            if self_id_spec is Some {
                assert(mtimes[i as int] == tdv[ti as int]);
            } else {
                assert(mtimes[i as int] == tdv[ti as int]);
            }
        }
        let block = crate::roomfile::render_block(
            &m.lines,
            m.sender_name.as_str(),
            times[ti].as_str(),
            m.id,
            resume,
        );
        crate::roomfile::push_str_chars(&mut out, block.as_str());
        proof {
            assert(out@.skip(head.len() as int) =~= prev_tail + block@);
            assert(out@.take(head.len() as int) =~= head);
            assert(blocks_text(msgs, mtimes, self_id_spec)
                =~= out@.skip(head.len() as int)
                    + blocks_text(msgs.skip(i + 1), mtimes.skip(i + 1), self_id_spec));
        }
        ti = ti + 1;
        i = i + 1;
    }
    proof {
        assert(msgs.skip(msgs.len() as int) =~= Seq::<NewMessageView>::empty());
        assert(out@ =~= head + out@.skip(head.len() as int));
        assert(head =~= lead + (if self_id_spec is Some {
            block_text(
                Seq::empty(),
                self_name@,
                tdv[0],
                self_id_spec.unwrap(),
                self_id_spec.unwrap(),
            )
        } else {
            Seq::<char>::empty()
        }));
        assert(out@ =~= append_text_spec(
            resp.self_message_success,
            msgs,
            self_name@,
            tdv,
            ends_with_newline,
        ));
    }
    crate::text::chars_to_string(&out)
}


/// Why a response could not be applied to the room file.
#[derive(Clone, Copy, Debug, PartialEq, Eq, Structural)]
pub enum ClientError {
    /// A message's timestamp cannot be rendered as a local RFC 2822 time.
    TimeOutOfRange,
}

/// Relies on chrono's DateTime::from_timestamp, with_timezone(Local) and
/// to_rfc2822: the timestamp rendered as a local RFC 2822 date and time.
/// RFC 2822 text is ASCII letters, digits, spaces and `,`, `:`, `+`, `-`:
/// never a backslash or a line break. None when the timestamp lies outside
/// the range such a date can show; what the text is otherwise also depends
/// on the machine's time zone, so nothing more is assumed of it.
#[verifier::external_body]
fn render_local_rfc2822(ts: i64) -> (r: Option<String>)
    ensures
        r matches Some(t) ==> crate::roomfile::field_wf(t@),
{
    let utc = chrono::DateTime::<chrono::Utc>::from_timestamp(ts, 0)?;
    let local = utc.with_timezone(&chrono::Local);
    if !(0..=9999).contains(&chrono::Datelike::year(&local)) {
        return None;
    }
    Some(local.to_rfc2822())
}

/// Apply one response to a parsed room file: nothing at all for a response
/// with no acknowledgement and no inbound messages, else exactly the text
/// of `append_text_spec` for some sequence of rendered display times, one
/// per written block, each free of the escape character and line breaks.
/// Fails only when some timestamp of a response that obliges a write
/// cannot be rendered.
pub fn apply_response(room: &Room, resp: &ServerResponse) -> (r: Result<
    Option<String>,
    ClientError,
>)
    ensures
        (resp.self_message_success is None && resp.new_messages@.len() == 0) <==> r
            == Ok::<Option<String>, ClientError>(None),
        r matches Ok(Some(t)) ==> exists|times: Seq<Seq<char>>|
            {
                &&& times.len() == (if resp.self_message_success is Some {
                    1int
                } else {
                    0int
                }) + resp.new_messages@.len()
                &&& forall|j: int|
                    0 <= j < times.len() ==> crate::roomfile::field_wf(#[trigger] times[j])
                &&& t@ == #[trigger] append_text_spec(
                    resp.self_message_success,
                    messages_view(resp),
                    room.self_name@,
                    times,
                    room.ends_with_newline,
                )
            },
{
    if !should_write(resp) {
        return Ok(None);
    }
    let mut times: Vec<String> = Vec::new();
    match &resp.self_message_success {
        Some(ms) => {
            match render_local_rfc2822(ms.utc_unix_timestamp) {
                Some(t) => {
                    times.push(t);
                },
                None => {
                    return Err(ClientError::TimeOutOfRange);
                },
            }
        },
        None => {},
    }
    let ghost base: int = if resp.self_message_success is Some {
        1int
    } else {
        0int
    };
    let mut i: usize = 0;
    while i < resp.new_messages.len()
        invariant
            i <= resp.new_messages@.len(),
            base == (if resp.self_message_success is Some {
                1int
            } else {
                0int
            }),
            times@.len() == base + i,
            forall|j: int|
                0 <= j < times@.len() ==> crate::roomfile::field_wf(
                    #[trigger] times.deep_view()[j],
                ),
        decreases resp.new_messages@.len() - i,
    {
        let ghost prev = times.deep_view();
        match render_local_rfc2822(resp.new_messages[i].utc_unix_timestamp) {
            Some(t) => {
                times.push(t);
                proof {
                    assert(times.deep_view() =~~= prev.push(t@));
                }
            },
            None => {
                return Err(ClientError::TimeOutOfRange);
            },
        }
        i = i + 1;
    }
    let text = build_append_text(resp, room.self_name.as_str(), &times, room.ends_with_newline);
    proof {
        let w = times.deep_view();
        assert(w.len() == times@.len());
        assert(text@ == append_text_spec(
            resp.self_message_success,
            messages_view(resp),
            room.self_name@,
            w,
            room.ends_with_newline,
        ));
    }
    Ok(Some(text))
}


/// Blank-line restoration: for a room file that did not end with a blank
/// line, the appended text is exactly one separating newline followed by
/// what would have been appended had the file ended with one — no more
/// blank lines and no other difference.
pub proof fn lemma_blank_line_restoration(
    success: Option<MessageSuccess>,
    msgs: Seq<NewMessageView>,
    self_name: Seq<char>,
    times: Seq<Seq<char>>,
)
    ensures
        append_text_spec(success, msgs, self_name, times, false) == seq!['\n']
            + append_text_spec(success, msgs, self_name, times, true),
{
    match success {
        Some(ms) => {
            assert(append_text_spec(success, msgs, self_name, times, false) =~= seq![
                '\n',
            ] + append_text_spec(success, msgs, self_name, times, true));
        },
        None => {
            assert(append_text_spec(success, msgs, self_name, times, false) =~= seq![
                '\n',
            ] + append_text_spec(success, msgs, self_name, times, true));
        },
    }
}

/// Resume-point correctness: when the client's own message was accepted
/// with id `id`, every block written for the response — the
/// acknowledgement block and each inbound block — closes with a delimiter
/// whose recorded resume point reads back as `id`.
pub proof fn lemma_resume_points(
    msgs: Seq<NewMessageView>,
    times: Seq<Seq<char>>,
    self_name: Seq<char>,
    ack_time: Seq<char>,
    id: u64,
)
    requires
        crate::roomfile::field_wf(self_name),
        crate::roomfile::field_wf(ack_time),
        forall|i: int|
            0 <= i < msgs.len() ==> crate::roomfile::field_wf(
                #[trigger] msgs[i].sender_name,
            ),
        forall|i: int|
            0 <= i < times.len() ==> crate::roomfile::field_wf(#[trigger] times[i]),
        times.len() >= msgs.len(),
    ensures
        crate::roomfile::delim_resume(
            crate::roomfile::delim_line(self_name, ack_time, id, id).drop_last(),
        ) == Some(id),
        forall|i: int|
            0 <= i < msgs.len() ==> crate::roomfile::delim_resume(
                #[trigger] crate::roomfile::delim_line(
                    msgs[i].sender_name,
                    times[i],
                    msgs[i].id,
                    id,
                ).drop_last(),
            ) == Some(id),
{
    crate::roomfile::lemma_delim_fields(self_name, ack_time, id, id);
    assert forall|i: int| 0 <= i < msgs.len() implies crate::roomfile::delim_resume(
        #[trigger] crate::roomfile::delim_line(
            msgs[i].sender_name,
            times[i],
            msgs[i].id,
            id,
        ).drop_last(),
    ) == Some(id) by {
        crate::roomfile::lemma_delim_fields(msgs[i].sender_name, times[i], msgs[i].id, id);
    }
}


/// An inbound message's fields are safe delimiter fields and its lines
/// are CR- and LF-free.
pub open spec fn message_wf(m: NewMessageView) -> bool {
    &&& crate::roomfile::field_wf(m.sender_name)
    &&& forall|j: int| 0 <= j < m.lines.len() ==> crate::roomfile::field_wf(#[trigger] m.lines[j])
}

/// The blocks of a nonempty message run split off their last block.
proof fn lemma_blocks_snoc(msgs: Seq<NewMessageView>, times: Seq<Seq<char>>, sid: Option<u64>)
    requires
        1 <= msgs.len() <= times.len(),
    ensures
        blocks_text(msgs, times, sid) == blocks_text(msgs.drop_last(), times, sid) + block_text(
            msgs.last().lines,
            msgs.last().sender_name,
            times[msgs.len() - 1],
            msgs.last().id,
            match sid {
                Some(v) => v,
                None => msgs.last().id,
            },
        ),
    decreases msgs.len(),
{
    if msgs.len() == 1 {
        assert(msgs.drop_last() =~= Seq::<NewMessageView>::empty());
        assert(msgs.drop_first() =~= Seq::<NewMessageView>::empty());
        assert(msgs.last() == msgs[0]);
        assert(blocks_text(msgs.drop_first(), times.drop_first(), sid) == Seq::<
            char,
        >::empty());
        assert(blocks_text(msgs.drop_last(), times, sid) == Seq::<char>::empty());
        assert(blocks_text(msgs, times, sid) =~= blocks_text(msgs.drop_last(), times, sid)
            + block_text(
            msgs.last().lines,
            msgs.last().sender_name,
            times[0],
            msgs.last().id,
            match sid {
                Some(v) => v,
                None => msgs.last().id,
            },
        ));
    } else {
        lemma_blocks_snoc(msgs.drop_first(), times.drop_first(), sid);
        assert(msgs.drop_first().last() == msgs.last());
        assert(msgs.drop_first().drop_last() =~= msgs.drop_last().drop_first());
        assert(times.drop_first()[msgs.len() - 2] == times[msgs.len() - 1]);
        assert(msgs.drop_last()[0] == msgs[0]);
        assert(msgs.drop_last().len() >= 1);
        assert(blocks_text(msgs, times, sid) =~= blocks_text(msgs.drop_last(), times, sid)
            + block_text(
            msgs.last().lines,
            msgs.last().sender_name,
            times[msgs.len() - 1],
            msgs.last().id,
            match sid {
                Some(v) => v,
                None => msgs.last().id,
            },
        ));
    }
}

/// A nonempty message run's text ends with a newline, and is CR-free for
/// well-formed messages and times.
proof fn lemma_blocks_shape(msgs: Seq<NewMessageView>, times: Seq<Seq<char>>, sid: Option<u64>)
    requires
        msgs.len() <= times.len(),
        forall|i: int| 0 <= i < msgs.len() ==> message_wf(#[trigger] msgs[i]),
        forall|j: int|
            0 <= j < times.len() ==> crate::roomfile::field_wf(#[trigger] times[j]),
    ensures
        msgs.len() > 0 ==> blocks_text(msgs, times, sid).len() > 0 && blocks_text(
            msgs,
            times,
            sid,
        ).last() == '\n',
        forall|i: int|
            0 <= i < blocks_text(msgs, times, sid).len() ==> #[trigger] blocks_text(
                msgs,
                times,
                sid,
            )[i] != '\r',
    decreases msgs.len(),
{
    if msgs.len() > 0 {
        let resume = match sid {
            Some(v) => v,
            None => msgs[0].id,
        };
        assert(forall|i: int|
            0 <= i < msgs.drop_first().len() ==> msgs.drop_first()[i] == msgs[i + 1]);
        assert(forall|j: int|
            0 <= j < times.drop_first().len() ==> times.drop_first()[j] == times[j + 1]);
        lemma_blocks_shape(msgs.drop_first(), times.drop_first(), sid);
        crate::roomfile::lemma_block_text_last(
            msgs[0].lines,
            msgs[0].sender_name,
            times[0],
            msgs[0].id,
            resume,
        );
        crate::roomfile::lemma_block_no_cr(
            msgs[0].lines,
            msgs[0].sender_name,
            times[0],
            msgs[0].id,
            resume,
        );
        if msgs.len() == 1 {
            assert(msgs.drop_first() =~= Seq::<NewMessageView>::empty());
        }
    }
}

/// Resume-point correctness against the parser: after a response in which
/// the client's own message was acknowledged, re-parsing the appended room
/// file tail resumes exactly at the acknowledged id, with nothing staged
/// and the blank-line sentinel set — whatever inbound messages came along.
#[verifier::rlimit(60)]
pub proof fn lemma_resume_after_ack(
    text0: Seq<char>,
    ms: MessageSuccess,
    msgs: Seq<NewMessageView>,
    self_name: Seq<char>,
    times: Seq<Seq<char>>,
    ends_with_newline: bool,
)
    requires
        times.len() == 1 + msgs.len(),
        crate::roomfile::field_wf(self_name),
        forall|j: int|
            0 <= j < times.len() ==> crate::roomfile::field_wf(#[trigger] times[j]),
        forall|i: int| 0 <= i < msgs.len() ==> message_wf(#[trigger] msgs[i]),
        ends_with_newline ==> text0.len() == 0 || text0.last() == '\n',
        forall|i: int| 0 <= i < text0.len() ==> text0[i] != '\r',
    ensures
        ({
            let t = text0 + append_text_spec(
                Some(ms),
                msgs,
                self_name,
                times,
                ends_with_newline,
            );
            let scan = crate::roomfile::scan_tail(
                crate::roomfile::room_lines(t),
                Seq::empty(),
                false,
            );
            &&& scan.0 == Seq::<Seq<char>>::empty()
            &&& scan.1
            &&& scan.2 is Some
            &&& crate::roomfile::delim_resume(scan.2.unwrap()) == Some(ms.id)
        }),
{
    let lead: Seq<char> = if ends_with_newline {
        Seq::empty()
    } else {
        seq!['\n']
    };
    let ack = crate::roomfile::block_text(Seq::empty(), self_name, times[0], ms.id, ms.id);
    let mtimes = times.drop_first();
    assert(forall|j: int| 0 <= j < mtimes.len() ==> mtimes[j] == times[j + 1]);
    crate::roomfile::lemma_block_text_last(Seq::empty(), self_name, times[0], ms.id, ms.id);
    crate::roomfile::lemma_block_no_cr(Seq::empty(), self_name, times[0], ms.id, ms.id);
    lemma_blocks_shape(msgs, mtimes, Some(ms.id));
    if msgs.len() == 0 {
        let text1 = text0 + lead;
        assert(blocks_text(msgs, mtimes, Some(ms.id)) =~= Seq::<char>::empty());
        assert(text0 + append_text_spec(Some(ms), msgs, self_name, times, ends_with_newline)
            =~= text1 + ack);
        assert(text1.len() == 0 || text1.last() == '\n');
        assert(forall|i: int| 0 <= i < text1.len() ==> text1[i] != '\r');
        crate::roomfile::lemma_block_round_trip(
            text1,
            Seq::empty(),
            self_name,
            times[0],
            ms.id,
            ms.id,
        );
    } else {
        lemma_blocks_snoc(msgs, mtimes, Some(ms.id));
        let last = msgs.last();
        let text1 = text0 + lead + ack + blocks_text(msgs.drop_last(), mtimes, Some(ms.id));
        assert(text0 + append_text_spec(Some(ms), msgs, self_name, times, ends_with_newline)
            =~= text1 + crate::roomfile::block_text(
            last.lines,
            last.sender_name,
            mtimes[msgs.len() - 1],
            last.id,
            ms.id,
        ));
        assert(forall|i: int|
            0 <= i < msgs.drop_last().len() ==> msgs.drop_last()[i] == msgs[i]);
        lemma_blocks_shape(msgs.drop_last(), mtimes, Some(ms.id));
        if msgs.len() == 1 {
            assert(blocks_text(msgs.drop_last(), mtimes, Some(ms.id)) =~= Seq::<
                char,
            >::empty());
            assert(text1.last() == '\n');
        } else {
            assert(text1.last() == '\n');
        }
        assert(forall|i: int| 0 <= i < text1.len() ==> text1[i] != '\r');
        assert(message_wf(last));
        crate::roomfile::lemma_block_round_trip(
            text1,
            last.lines,
            last.sender_name,
            mtimes[msgs.len() - 1],
            last.id,
            ms.id,
        );
    }
}

} // verus!

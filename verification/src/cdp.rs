//! The engine's protocol: messages on a pipe, and where each one goes.
//!
//! Every message is JSON ended by a NUL. A command carries an id that its
//! reply comes back under, and the session it is for; the browser's own
//! commands carry none. What has arrived for a session waits in its
//! [`Mailbox`]: a reply only when somebody has said that they will come back
//! for it, and events in a queue that drops the oldest.
use vstd::prelude::*;
use vstd::slice::slice_subrange;
use vstd::utf8::{decode_utf8, encode_utf8_decode_utf8, encode_utf8_valid_utf8, valid_utf8};
use std::collections::{HashMap, HashSet, VecDeque};

use crate::bytes::{push_bytes, push_text, utf8};
use crate::double::{double_of, lemma_double_of_is_valid};
use crate::json::{
    field, field2, lemma_each_is_found, lemma_none_is_found, named_once, record_of, text_of, whole_of,
    Json, Value,
};
use crate::json_parse::{parsed, MAX_DEPTH};
use crate::json_text::rendered;
use crate::json_wire::{
    is_visible, is_writable, law_what_is_written_is_visible, law_what_is_written_reads_back,
};
use crate::strings::{decimal, decimal_string, same};
use crate::text::{sanitize, sanitized};

verus! {

broadcast use vstd::std_specs::hash::group_hash_axioms;

/// The largest message that will be assembled.
pub const MAX_MESSAGE: usize = 16 * 1024 * 1024;

/// The most events a mailbox holds.
pub const MAX_EVENTS: usize = 512;

// ---- the framing ----

/// Where the first NUL of some bytes is: their length when there is none.
pub open spec fn nul_at(b: Seq<u8>) -> int
    decreases b.len(),
{
    if b.len() == 0 || b[0] == 0 {
        0
    } else {
        1 + nul_at(b.drop_first())
    }
}

/// What [`nul_at`] is: the first place that holds a NUL.
pub proof fn lemma_nul_at(b: Seq<u8>)
    ensures
        0 <= nul_at(b) <= b.len(),
        nul_at(b) < b.len() ==> b[nul_at(b)] == 0,
        forall|j: int| 0 <= j < nul_at(b) ==> b[j] != 0,
    decreases b.len(),
{
    if b.len() > 0 && b[0] != 0 {
        lemma_nul_at(b.drop_first());
        let k = nul_at(b.drop_first());
        assert forall|j: int| 0 <= j < k + 1 implies b[j] != 0 by {
            if j > 0 {
                assert(b[j] == b.drop_first()[j - 1]);
            }
        }
    }
}

/// The place that holds a NUL with none before it is [`nul_at`].
proof fn lemma_nul_is(b: Seq<u8>, i: int)
    requires
        0 <= i <= b.len(),
        i < b.len() ==> b[i] == 0,
        forall|j: int| 0 <= j < i ==> b[j] != 0,
    ensures
        nul_at(b) == i,
{
    lemma_nul_at(b);
    if nul_at(b) < i {
        assert(b[nul_at(b)] != 0);
    }
    if i < nul_at(b) {
        assert(b[i] != 0);
    }
}

/// The message that some bytes are: none for no bytes, and for bytes that are
/// not text.
pub open spec fn message_of(b: Seq<u8>) -> Seq<Seq<char>> {
    if b.len() > 0 && valid_utf8(b) {
        seq![decode_utf8(b)]
    } else {
        Seq::empty()
    }
}

/// The whole messages in some bytes, each up to its NUL.
pub open spec fn messages_in(b: Seq<u8>) -> Seq<Seq<char>>
    decreases b.len(),
{
    let end = nul_at(b);
    if end >= b.len() {
        Seq::empty()
    } else {
        proof {
            lemma_nul_at(b);
        }
        message_of(b.take(end)) + messages_in(b.skip(end + 1))
    }
}

/// What is left after the last NUL: the start of a message still arriving.
pub open spec fn still_arriving(b: Seq<u8>) -> Seq<u8>
    decreases b.len(),
{
    let end = nul_at(b);
    if end >= b.len() {
        b
    } else {
        proof {
            lemma_nul_at(b);
        }
        still_arriving(b.skip(end + 1))
    }
}

/// The texts that some strings are.
pub open spec fn texts(v: Seq<String>) -> Seq<Seq<char>> {
    v.map_values(|s: String| s@)
}

/// `std::str::from_utf8`: the text that bytes are in UTF-8, and `None` when
/// they are not UTF-8.
#[verifier::external_body]
fn text_from(bytes: &[u8]) -> (r: Option<String>)
    ensures
        match r {
            Some(s) => valid_utf8(bytes@) && s@ == decode_utf8(bytes@),
            None => !valid_utf8(bytes@),
        },
{
    match std::str::from_utf8(bytes) {
        Ok(text) => Some(text.to_string()),
        Err(_) => None,
    }
}

/// The sentence for a message that does not end.
pub open spec fn endless(n: nat) -> Seq<char> {
    "the engine sent "@ + decimal(n) + " bytes without ending a message"@
}

/// Cut whole messages off the front of what has been read.
///
/// A message is everything up to a NUL, and the NUL is not part of it. What is
/// left after the last NUL is the start of a message still arriving and stays
/// in `buf` for the next read. An empty message is nothing and is skipped, and
/// a message that is not UTF-8 is dropped. The one thing that is an error is
/// more than [`MAX_MESSAGE`] bytes with no NUL in them.
pub fn split_messages(buf: &mut Vec<u8>) -> (r: Result<Vec<String>, String>)
    ensures
        final(buf)@ == still_arriving(old(buf)@),
        match r {
            Ok(messages) => still_arriving(old(buf)@).len() <= MAX_MESSAGE && texts(messages@)
                == messages_in(old(buf)@),
            Err(why) => still_arriving(old(buf)@).len() > MAX_MESSAGE && why@ == endless(
                still_arriving(old(buf)@).len(),
            ),
        },
{
    let ghost all = buf@;
    let mut messages: Vec<String> = Vec::new();
    let mut start: usize = 0;
    let mut i: usize = 0;
    proof {
        assert(all.skip(0) =~= all);
        assert(texts(messages@) + messages_in(all) =~= messages_in(all));
    }
    while i < buf.len()
        invariant
            buf@ == all,
            start <= i <= all.len(),
            forall|j: int| start <= j < i ==> all[j] != 0,
            messages_in(all) == texts(messages@) + messages_in(all.skip(start as int)),
            still_arriving(all) == still_arriving(all.skip(start as int)),
        decreases all.len() - i,
    {
        if buf[i] == 0 {
            let ghost rest = all.skip(start as int);
            let ghost before = texts(messages@);
            let piece = slice_subrange(buf.as_slice(), start, i);
            proof {
                assert forall|j: int| 0 <= j < i - start implies rest[j] != 0 by {
                    assert(rest[j] == all[start + j]);
                }
                lemma_nul_is(rest, i - start);
                assert(piece@ =~= rest.take(i - start));
                assert(rest.skip(i - start + 1) =~= all.skip(i + 1));
            }
            let ghost more = messages_in(all.skip(i + 1));
            if i > start {
                match text_from(piece) {
                    Some(text) => {
                        messages.push(text);
                        proof {
                            assert(texts(messages@) =~= before.push(text@));
                            assert(before + (seq![text@] + more) =~= texts(messages@) + more);
                        }
                    },
                    None => {
                        proof {
                            assert(before + (Seq::<Seq<char>>::empty() + more) =~= before + more);
                        }
                    },
                }
            } else {
                proof {
                    assert(before + (Seq::<Seq<char>>::empty() + more) =~= before + more);
                }
            }
            start = i + 1;
        }
        i += 1;
    }
    let ghost rest = all.skip(start as int);
    proof {
        assert forall|j: int| 0 <= j < rest.len() implies rest[j] != 0 by {
            assert(rest[j] == all[start + j]);
        }
        lemma_nul_is(rest, rest.len() as int);
        assert(texts(messages@) + Seq::<Seq<char>>::empty() =~= texts(messages@));
        assert(rest =~= all.subrange(start as int, all.len() as int));
    }
    let left = slice_subrange(buf.as_slice(), start, buf.len());
    let mut kept: Vec<u8> = Vec::new();
    push_bytes(&mut kept, left);
    proof {
        assert(kept@ =~= rest);
    }
    *buf = kept;
    if buf.len() > MAX_MESSAGE {
        let mut why = String::new();
        why.append("the engine sent ");
        why.append(decimal_string(buf.len() as u64).as_str());
        why.append(" bytes without ending a message");
        proof {
            assert(why@ =~= endless(rest.len()));
        }
        return Err(why);
    }
    Ok(messages)
}

/// A message that arrives in two reads is one message: reading some bytes and
/// then more is reading them together.
pub proof fn law_two_reads_are_one(a: Seq<u8>, b: Seq<u8>)
    ensures
        messages_in(a + b) == messages_in(a) + messages_in(still_arriving(a) + b),
        still_arriving(a + b) == still_arriving(still_arriving(a) + b),
    decreases a.len(),
{
    lemma_nul_at(a);
    let end = nul_at(a);
    if end >= a.len() {
        assert(messages_in(a) + messages_in(a + b) =~= messages_in(a + b));
    } else {
        let all = a + b;
        assert forall|j: int| 0 <= j < end implies all[j] != 0 by {
            assert(all[j] == a[j]);
        }
        lemma_nul_is(all, end);
        let rest = a.skip(end + 1);
        assert(all.take(end) =~= a.take(end));
        assert(all.skip(end + 1) =~= rest + b);
        law_two_reads_are_one(rest, b);
        assert(message_of(a.take(end)) + (messages_in(rest) + messages_in(
            still_arriving(rest) + b,
        )) =~= messages_in(a) + messages_in(still_arriving(a) + b));
    }
}

// ---- commands ----

/// One command: the id it will be answered under, the session it is for, and
/// what it asks. The browser's own commands carry no session.
pub open spec fn command(
    id: i64,
    session: Option<Seq<char>>,
    method: Seq<char>,
    params: Value,
) -> Value {
    let head = seq![("id"@, Value::Number(double_of(id as int)))];
    let named = match session {
        Some(s) => head.push(("sessionId"@, Value::Text(s))),
        None => head,
    };
    Value::Record(named.push(("method"@, Value::Text(method))).push(("params"@, params)))
}

/// The text of an optional string.
pub open spec fn session_view(session: Option<&str>) -> Option<Seq<char>> {
    match session {
        Some(s) => Some(s@),
        None => None,
    }
}

/// One command on the wire.
pub fn message(id: i64, session: Option<&str>, method: &str, params: Json) -> (r: String)
    ensures
        r@ == rendered(command(id, session_view(session), method@, params@)),
{
    let mut fields: Vec<(&str, Json)> = Vec::new();
    fields.push(("id", Json::number(id)));
    match session {
        Some(session) => fields.push(("sessionId", Json::string(session))),
        None => {},
    }
    fields.push(("method", Json::string(method)));
    fields.push(("params", params));
    proof {
        assert(record_of(fields@) =~= command(
            id,
            session_view(session),
            method@,
            params@,
        )->Record_0);
    }
    Json::object(fields).to_string()
}

/// A message as it goes on the pipe: its bytes, and the NUL.
pub fn framed(message: &str) -> (r: Vec<u8>)
    ensures
        r@ == utf8(message@).push(0),
{
    let mut out: Vec<u8> = Vec::new();
    push_text(&mut out, message);
    out.push(0);
    proof {
        assert(out@ =~= utf8(message@).push(0));
    }
    out
}

/// No byte of a visible character is a NUL.
proof fn lemma_no_nul_in(c: u32)
    requires
        c > 0x1f,
        vstd::utf8::is_scalar(c),
    ensures
        forall|k: int|
            0 <= k < vstd::utf8::encode_scalar(c).len() ==> #[trigger] vstd::utf8::encode_scalar(
                c,
            )[k] != 0,
{
    if vstd::utf8::has_width_1_encoding(c) {
        assert(vstd::utf8::leading_byte_width_1(c) != 0) by (bit_vector)
            requires
                c > 0x1f,
                vstd::utf8::has_width_1_encoding(c),
        ;
    } else {
        assert(vstd::utf8::leading_byte_width_2(c) != 0) by (bit_vector);
        assert(vstd::utf8::leading_byte_width_3(c) != 0) by (bit_vector);
        assert(vstd::utf8::leading_byte_width_4(c) != 0) by (bit_vector);
        assert(vstd::utf8::last_continuation_byte(c) != 0) by (bit_vector);
        assert(vstd::utf8::second_last_continuation_byte(c) != 0) by (bit_vector);
        assert(vstd::utf8::third_last_continuation_byte(c) != 0) by (bit_vector);
    }
}

/// No byte of a visible text is a NUL.
proof fn lemma_no_nul(t: Seq<char>)
    requires
        is_visible(t),
    ensures
        forall|k: int| 0 <= k < utf8(t).len() ==> #[trigger] utf8(t)[k] != 0,
    decreases t.len(),
{
    if t.len() > 0 {
        let first = vstd::utf8::encode_scalar(t[0] as u32);
        let rest = utf8(t.drop_first());
        vstd::utf8::char_is_scalar(t[0]);
        assert(t[0] > '\u{1f}');
        vstd::utf8::char_u32_cast(t[0], t[0] as u32);
        lemma_no_nul_in(t[0] as u32);
        assert(is_visible(t.drop_first())) by {
            assert forall|k: int| 0 <= k < t.drop_first().len() implies (#[trigger] t.drop_first()[k])
                > '\u{1f}' by {
                assert(t.drop_first()[k] == t[k + 1]);
            }
        }
        lemma_no_nul(t.drop_first());
        assert(utf8(t) =~= first + rest);
        assert forall|k: int| 0 <= k < utf8(t).len() implies #[trigger] utf8(t)[k] != 0 by {
            if k < first.len() {
                assert(utf8(t)[k] == first[k]);
            } else {
                assert(utf8(t)[k] == rest[k - first.len()]);
            }
        }
    }
}

/// A value that is written, framed, split off the pipe and read is the value it
/// was, and nothing else comes of it.
pub proof fn law_what_is_framed_splits_back(v: Value)
    requires
        is_writable(v, MAX_DEPTH as nat),
    ensures
        messages_in(utf8(rendered(v)).push(0)) == seq![rendered(v)],
        still_arriving(utf8(rendered(v)).push(0)).len() == 0,
        parsed(rendered(v)) == Some(v),
{
    let t = rendered(v);
    let b = utf8(t);
    let all = b.push(0);
    law_what_is_written_is_visible(v);
    law_what_is_written_reads_back(v);
    lemma_no_nul(t);
    assert forall|k: int| 0 <= k < b.len() implies all[k] != 0 by {
        assert(all[k] == b[k]);
    }
    lemma_nul_is(all, b.len() as int);
    assert(all.take(b.len() as int) =~= b);
    assert(all.skip(b.len() as int + 1) =~= Seq::<u8>::empty());
    vstd::utf8::encode_utf8_valid_utf8(t);
    vstd::utf8::encode_utf8_decode_utf8(t);
    assert(t.len() > 0) by {
        if t.len() == 0 {
            assert(parsed(t) is None);
        }
    }
    assert(b.len() > 0) by {
        if b.len() == 0 {
            assert(b =~= utf8(Seq::<char>::empty()));
            vstd::utf8::encode_utf8_decode_utf8(Seq::<char>::empty());
        }
    }
    assert(messages_in(Seq::<u8>::empty()) =~= Seq::<Seq<char>>::empty()) by {
        lemma_nul_at(Seq::<u8>::empty());
    }
    assert(still_arriving(Seq::<u8>::empty()) =~= Seq::<u8>::empty()) by {
        lemma_nul_at(Seq::<u8>::empty());
    }
    assert(message_of(b) + Seq::<Seq<char>>::empty() =~= seq![t]);
}

/// A command whose parameters can be written is one whose message can be: the
/// engine reads what was asked.
pub proof fn law_a_command_reads_back(
    id: i64,
    session: Option<Seq<char>>,
    method: Seq<char>,
    params: Value,
)
    requires
        is_writable(params, (MAX_DEPTH - 1) as nat),
    ensures
        messages_in(utf8(rendered(command(id, session, method, params))).push(0)) == seq![
            rendered(command(id, session, method, params)),
        ],
        parsed(rendered(command(id, session, method, params))) == Some(
            command(id, session, method, params),
        ),
{
    let fields = command(id, session, method, params)->Record_0;
    lemma_double_of_is_valid(id as int);
    assert forall|i: int| 0 <= i < fields.len() implies is_writable(
        (#[trigger] fields[i]).1,
        (MAX_DEPTH - 1) as nat,
    ) by {
        if i < fields.len() - 1 {
            assert(fields[i].1 is Number || fields[i].1 is Text);
        }
    }
    law_what_is_framed_splits_back(command(id, session, method, params));
}

/// What one reply means: the result, or the engine's refusal in words.
pub open spec fn meaning(method: Seq<char>, reply: Value) -> Result<Value, Seq<char>> {
    match field(reply, "error"@) {
        Some(error) => Err(
            method + ": "@ + sanitized(
                match text_of(field(error, "message"@)) {
                    Some(what) => what,
                    None => "the engine refused it"@,
                },
            ),
        ),
        None => Ok(
            match field(reply, "result"@) {
                Some(result) => result,
                None => Value::Null,
            },
        ),
    }
}

/// The mathematical value of an answer.
pub open spec fn answer_view(r: Result<Json, String>) -> Result<Value, Seq<char>> {
    match r {
        Ok(j) => Ok(j@),
        Err(why) => Err(why@),
    }
}

/// What one reply means: the result, or the engine's refusal in words. The
/// words are plain text; the method name is this program's own.
pub fn outcome(method: &str, reply: &Json) -> (r: Result<Json, String>)
    ensures
        answer_view(r) == meaning(method@, reply@),
{
    match reply.get("error") {
        Some(error) => {
            let what = match error.text_at("message") {
                Some(what) => sanitize(what),
                None => sanitize("the engine refused it"),
            };
            let mut why = method.to_owned();
            why.append(": ");
            why.append(what.as_str());
            Err(why)
        },
        None => match reply.get("result") {
            Some(result) => Ok(result.duplicate()),
            None => Ok(Json::Null),
        },
    }
}

// ---- the mailbox ----

/// An event as it arrived: the method and its parameters.
#[derive(Debug, PartialEq, Eq)]
pub struct Event {
    pub method: String,
    pub params: Json,
}

/// What an [`Event`] is.
pub struct News {
    pub method: Seq<char>,
    pub params: Value,
}

impl View for Event {
    type V = News;

    open spec fn view(&self) -> News {
        News { method: self.method@, params: self.params@ }
    }
}

/// What has arrived, and who is still waiting for it.
#[derive(Debug)]
pub struct Mailbox {
    /// The ids somebody has said they will come back for.
    pub wanted: HashSet<i64>,
    pub replies: HashMap<i64, Json>,
    pub events: VecDeque<Event>,
    /// Set once the session has gone, with the reason.
    pub ended: Option<String>,
}

/// What a [`Mailbox`] is.
#[verifier::ext_equal]
pub struct Held {
    pub wanted: Set<i64>,
    pub replies: Map<i64, Value>,
    pub events: Seq<News>,
    pub ended: Option<Seq<char>>,
}

impl View for Mailbox {
    type V = Held;

    open spec fn view(&self) -> Held {
        Held {
            wanted: self.wanted@,
            replies: self.replies@.map_values(|j: Json| j@),
            events: self.events@.map_values(|e: Event| e@),
            ended: match self.ended {
                Some(why) => Some(why@),
                None => None,
            },
        }
    }
}

impl Held {
    /// Nothing arrived and nobody waiting.
    pub open spec fn nothing() -> Held {
        Held { wanted: Set::empty(), replies: Map::empty(), events: Seq::empty(), ended: None }
    }

    /// Every reply held is one that somebody is coming back for, and the
    /// events are no more than may be held.
    pub open spec fn valid(self) -> bool {
        self.replies.dom().subset_of(self.wanted) && self.events.len() <= MAX_EVENTS
    }

    /// Nobody waits for this id any more, and its reply is thrown away.
    pub open spec fn without(self, id: i64) -> Held {
        Held { wanted: self.wanted.remove(id), replies: self.replies.remove(id), ..self }
    }

    /// Ended for this reason, unless it has ended already.
    pub open spec fn ended_by(self, why: Seq<char>) -> Held {
        Held {
            ended: match self.ended {
                Some(first) => Some(first),
                None => Some(why),
            },
            ..self
        }
    }

    /// One message put where it belongs: a reply under its id when it is
    /// wanted, an event at the end of the queue, anything else nowhere.
    pub open spec fn sorted(self, v: Value) -> Held {
        match whole_of(field(v, "id"@)) {
            Some(id) => if self.wanted.contains(id) {
                Held { replies: self.replies.insert(id, v), ..self }
            } else {
                self
            },
            None => match text_of(field(v, "method"@)) {
                Some(method) => {
                    let room = if self.events.len() >= MAX_EVENTS {
                        self.events.drop_first()
                    } else {
                        self.events
                    };
                    let params = match field(v, "params"@) {
                        Some(params) => params,
                        None => Value::Null,
                    };
                    Held { events: room.push(News { method, params }), ..self }
                },
                None => self,
            },
        }
    }
}

impl Mailbox {
    /// The replies and events are as they should be.
    pub open spec fn wf(&self) -> bool {
        self@.valid()
    }

    /// A mailbox with nothing in it.
    pub fn new() -> (r: Mailbox)
        ensures
            r.wf(),
            r@ == Held::nothing(),
    {
        let r = Mailbox {
            wanted: HashSet::new(),
            replies: HashMap::new(),
            events: VecDeque::new(),
            ended: None,
        };
        proof {
            assert(r@.replies =~= Map::empty());
            assert(r@.events =~= Seq::empty());
            assert(r@ =~= Held::nothing());
        }
        r
    }

    /// Say that the reply to this id is going to be collected.
    ///
    /// Said before the command goes out, so that there is no window in which a
    /// reply could arrive at a mailbox not yet willing to keep it.
    pub fn want(&mut self, id: i64)
        requires
            old(self).wf(),
        ensures
            final(self).wf(),
            final(self)@ == (Held { wanted: old(self)@.wanted.insert(id), ..old(self)@ }),
    {
        self.wanted.insert(id);
        proof {
            assert(self@ =~= (Held { wanted: old(self)@.wanted.insert(id), ..old(self)@ }));
        }
    }

    /// Stop waiting for this id, and throw away a reply that beat the giving
    /// up. Forgetting something already forgotten is nothing.
    pub fn forget(&mut self, id: i64)
        requires
            old(self).wf(),
        ensures
            final(self).wf(),
            final(self)@ == old(self)@.without(id),
    {
        self.wanted.remove(&id);
        self.replies.remove(&id);
        proof {
            assert(self@.replies =~= old(self)@.replies.remove(id));
            assert(self@.wanted =~= old(self)@.wanted.remove(id));
            assert(self@ =~= old(self)@.without(id));
        }
    }

    /// The reply to this id if it has come; taking it ends the waiting.
    pub fn take(&mut self, id: i64) -> (r: Option<Json>)
        requires
            old(self).wf(),
        ensures
            final(self).wf(),
            match r {
                Some(reply) => old(self)@.replies.dom().contains(id) && reply@
                    == old(self)@.replies[id] && final(self)@ == old(self)@.without(id),
                None => !old(self)@.replies.dom().contains(id) && final(self)@ == old(self)@,
            },
    {
        match self.replies.remove(&id) {
            Some(reply) => {
                self.wanted.remove(&id);
                proof {
                    assert(self@.replies =~= old(self)@.replies.remove(id));
                    assert(self@.wanted =~= old(self)@.wanted.remove(id));
                    assert(self@ =~= old(self)@.without(id));
                }
                Some(reply)
            },
            None => {
                proof {
                    assert(self@.replies =~= old(self)@.replies);
                    assert(self@ =~= old(self)@);
                }
                None
            },
        }
    }

    /// The session is over, for this reason unless there was one already.
    pub fn end(&mut self, why: &str)
        requires
            old(self).wf(),
        ensures
            final(self).wf(),
            final(self)@ == old(self)@.ended_by(why@),
    {
        if self.ended.is_none() {
            self.ended = Some(why.to_owned());
        }
        proof {
            assert(self@ =~= old(self)@.ended_by(why@));
        }
    }

    /// Put one message where it belongs.
    ///
    /// A message that is neither a reply nor an event is dropped. A reply whose
    /// id nobody wants is dropped: that is the whole of what bounds the
    /// replies. The events are bounded so that a slow frame cannot become
    /// unbounded memory; what goes is the oldest.
    pub fn sort(&mut self, value: &Json)
        requires
            old(self).wf(),
        ensures
            final(self).wf(),
            final(self)@ == old(self)@.sorted(value@),
    {
        let id = match value.get("id") {
            Some(id) => id.as_i64(),
            None => None,
        };
        match id {
            Some(id) => {
                if self.wanted.contains(&id) {
                    self.replies.insert(id, value.duplicate());
                    proof {
                        assert(self@.replies =~= old(self)@.replies.insert(id, value@));
                    }
                }
                proof {
                    assert(self@ =~= old(self)@.sorted(value@));
                }
            },
            None => {
                match value.text_at("method") {
                    Some(method) => {
                        let params = match value.get("params") {
                            Some(params) => params.duplicate(),
                            None => Json::Null,
                        };
                        if self.events.len() >= MAX_EVENTS {
                            let gone = self.events.pop_front();
                        }
                        let ghost room = self@.events;
                        proof {
                            if old(self)@.events.len() >= MAX_EVENTS {
                                assert(room =~= old(self)@.events.drop_first());
                            } else {
                                assert(room =~= old(self)@.events);
                            }
                        }
                        let event = Event { method: method.to_owned(), params };
                        let ghost news = event@;
                        self.events.push_back(event);
                        proof {
                            assert(self@.events =~= room.push(news));
                            assert(self@ =~= old(self)@.sorted(value@));
                        }
                    },
                    None => {
                        proof {
                            assert(self@ =~= old(self)@.sorted(value@));
                        }
                    },
                }
            },
        }
    }

    /// Every event that has arrived since the last time, in order.
    pub fn take_events(&mut self) -> (r: Vec<Event>)
        requires
            old(self).wf(),
        ensures
            final(self).wf(),
            r@.map_values(|e: Event| e@) == old(self)@.events,
            final(self)@ == (Held { events: Seq::empty(), ..old(self)@ }),
    {
        let mut out: Vec<Event> = Vec::new();
        let ghost all = self.events@;
        while self.events.len() > 0
            invariant
                out@ + self.events@ == all,
                self.wanted == old(self).wanted,
                self.replies == old(self).replies,
                self.ended == old(self).ended,
            decreases self.events@.len(),
        {
            let ghost now = self.events@;
            let ghost before = out@;
            match self.events.pop_front() {
                Some(event) => {
                    out.push(event);
                    proof {
                        assert(before + now =~= out@ + self.events@);
                    }
                },
                None => {},
            }
        }
        proof {
            assert(out@ =~= all);
            assert(out@.map_values(|e: Event| e@) =~= old(self)@.events);
            assert(self@.events =~= Seq::empty());
            assert(self@ =~= (Held { events: Seq::empty(), ..old(self)@ }));
        }
        out
    }

    /// The answer to a command if there is one yet: what its reply means, or
    /// why the session ended. `None` is "not yet, ask again" and nothing else.
    pub fn answer(&mut self, id: i64, method: &str) -> (r: Option<Result<Json, String>>)
        requires
            old(self).wf(),
        ensures
            final(self).wf(),
            ({
                let before = old(self)@;
                match r {
                    Some(answer) => final(self)@ == before.without(id) && if before.replies.dom().contains(
                    id) {
                        answer_view(answer) == meaning(method@, before.replies[id])
                    } else {
                        before.ended is Some && answer_view(answer) == Err::<Value, Seq<char>>(
                            method@ + ": "@ + before.ended->0,
                        )
                    },
                    None => !before.replies.dom().contains(id) && before.ended is None && final(
                        self)@ == before,
                }
            }),
    {
        match self.take(id) {
            Some(reply) => Some(outcome(method, &reply)),
            None => {
                let why = match &self.ended {
                    Some(ended) => ended.clone(),
                    None => return None,
                };
                let mut words = method.to_owned();
                words.append(": ");
                words.append(why.as_str());
                self.forget(id);
                Some(Err(words))
            },
        }
    }

    /// The answer to a command that is being waited for: as
    /// [`Mailbox::answer`], and when time is up, that there was none in
    /// `seconds`. A reply after that answers a question that was withdrawn.
    pub fn answer_within(
        &mut self,
        id: i64,
        method: &str,
        time_is_up: bool,
        seconds: u64,
    ) -> (r: Option<Result<Json, String>>)
        requires
            old(self).wf(),
        ensures
            final(self).wf(),
            match r {
                Some(answer) => old(self)@.answered(id, method@, time_is_up, seconds as nat) == Some(
                    answer_view(answer),
                ),
                None => old(self)@.answered(id, method@, time_is_up, seconds as nat) is None,
            },
            ({
                let before = old(self)@;
                match r {
                    Some(answer) => final(self)@ == before.without(id) && if before.replies.dom().contains(
                    id) {
                        answer_view(answer) == meaning(method@, before.replies[id])
                    } else if before.ended is Some {
                        answer_view(answer) == Err::<Value, Seq<char>>(
                            method@ + ": "@ + before.ended->0,
                        )
                    } else {
                        time_is_up && answer_view(answer) == Err::<Value, Seq<char>>(
                            method@ + ": no answer in "@ + decimal(seconds as nat) + " seconds"@,
                        )
                    },
                    None => !before.replies.dom().contains(id) && before.ended is None
                        && !time_is_up && final(self)@ == before,
                }
            }),
    {
        match self.answer(id, method) {
            Some(answer) => Some(answer),
            None => {
                if !time_is_up {
                    return None;
                }
                self.forget(id);
                let mut words = method.to_owned();
                words.append(": no answer in ");
                words.append(decimal_string(seconds).as_str());
                words.append(" seconds");
                Some(Err(words))
            },
        }
    }

    /// How many replies the mailbox is holding for somebody to collect.
    pub fn replies_held(&self) -> (n: usize)
        ensures
            n == self@.replies.dom().len(),
    {
        proof {
            assert(self@.replies.dom() =~= self.replies@.dom());
        }
        self.replies.len()
    }

    /// How many commands are still expecting a reply to be kept for them.
    pub fn replies_wanted(&self) -> (n: usize)
        ensures
            n == self@.wanted.len(),
    {
        self.wanted.len()
    }
}

impl Default for Mailbox {
    fn default() -> (r: Mailbox)
        ensures
            r.wf(),
            r@ == Held::nothing(),
    {
        Mailbox::new()
    }
}


// ---- the routing ----

/// One session's mailbox. The key tells this registration from a later one of
/// the same session; the session is `None` for the browser's own.
#[derive(Debug)]
pub struct Post {
    pub key: u64,
    pub session: Option<String>,
    pub mailbox: Mailbox,
}

/// What a [`Post`] is.
#[verifier::ext_equal]
pub struct Address {
    pub key: u64,
    pub session: Option<Seq<char>>,
    pub held: Held,
}

/// The text of an optional string.
pub open spec fn name_view(session: Option<String>) -> Option<Seq<char>> {
    match session {
        Some(s) => Some(s@),
        None => None,
    }
}

impl View for Post {
    type V = Address;

    open spec fn view(&self) -> Address {
        Address { key: self.key, session: name_view(self.session), held: self.mailbox@ }
    }
}

/// The addresses that some posts are.
pub open spec fn addresses(posts: Seq<Post>) -> Seq<Address> {
    posts.map_values(|p: Post| p@)
}

/// The session that a message says is detached, when it is that message.
pub open spec fn detached(v: Value) -> Option<Seq<char>> {
    if text_of(field(v, "method"@)) == Some("Target.detachedFromTarget"@) {
        text_of(field2(v, "params"@, "sessionId"@))
    } else {
        None
    }
}

/// A message is about this address: it is for its session, or says that its
/// session is detached.
pub open spec fn concerns(a: Address, v: Value) -> bool {
    a.session == text_of(field(v, "sessionId"@)) || (a.session is Some && a.session == detached(v))
}

/// An address after a message: ended when the message says that its session is
/// detached, and holding the message when it is for its session.
pub open spec fn delivered(a: Address, v: Value) -> Address {
    let heard = if a.session is Some && a.session == detached(v) {
        a.held.ended_by("the engine detached from the target"@)
    } else {
        a.held
    };
    Address {
        held: if a.session == text_of(field(v, "sessionId"@)) {
            heard.sorted(v)
        } else {
            heard
        },
        ..a
    }
}

/// No session twice, and no key twice; every key below `next`.
pub open spec fn distinct(posts: Seq<Address>, next: u64) -> bool {
    &&& forall|i: int, j: int|
        0 <= i < j < posts.len() ==> (#[trigger] posts[i]).session != (#[trigger] posts[j]).session
    &&& forall|i: int, j: int|
        0 <= i < j < posts.len() ==> (#[trigger] posts[i]).key != (#[trigger] posts[j]).key
    &&& forall|i: int| 0 <= i < posts.len() ==> (#[trigger] posts[i]).key < next
}

/// Where the reader delivers: a mailbox per session, and whether the pipe has
/// ended.
#[derive(Debug)]
pub struct Routes {
    pub posts: Vec<Post>,
    pub ended: Option<String>,
    /// The key the next registration gets.
    pub next: u64,
}

/// The keys of the addresses that a message concerns, in order.
pub open spec fn concerned(posts: Seq<Address>, v: Value) -> Seq<u64>
    decreases posts.len(),
{
    if posts.len() == 0 {
        Seq::empty()
    } else {
        let before = concerned(posts.drop_last(), v);
        if concerns(posts.last(), v) {
            before.push(posts.last().key)
        } else {
            before
        }
    }
}

/// Some address is of this session.
pub open spec fn has_session(posts: Seq<Address>, session: Option<Seq<char>>) -> bool {
    exists|i: int| 0 <= i < posts.len() && (#[trigger] posts[i]).session == session
}

/// Sessions are the same.
fn same_session(a: &Option<String>, b: Option<&str>) -> (r: bool)
    ensures
        r == (name_view(*a) == session_view(b)),
{
    match (a, b) {
        (Some(a), Some(b)) => same(a.as_str(), b),
        (None, None) => true,
        _ => false,
    }
}

impl Routes {
    /// The addresses. Why the pipe is over, and the key that the next one gets,
    /// are said beside them.
    pub open spec fn view(&self) -> Seq<Address> {
        addresses(self.posts@)
    }

    /// No session twice, and every mailbox as it should be.
    pub open spec fn wf(&self) -> bool {
        distinct(self@, self.next) && forall|i: int|
            0 <= i < self@.len() ==> (#[trigger] self@[i]).held.valid()
    }

    /// No sessions yet.
    pub fn new() -> (r: Routes)
        ensures
            r.wf(),
            r@ == Seq::<Address>::empty(),
            r.ended is None,
            r.next == 0,
    {
        let r = Routes { posts: Vec::new(), ended: None, next: 0 };
        proof {
            assert(r@ =~= Seq::empty());
        }
        r
    }

    /// Give a session a mailbox, or say why it cannot have one: the pipe is
    /// over, or the session has one already.
    pub fn register(&mut self, session: Option<String>) -> (r: Result<u64, String>)
        requires
            old(self).wf(),
            old(self).next < u64::MAX,
        ensures
            final(self).wf(),
            final(self).ended == old(self).ended,
            final(self).next == (if r is Ok {
                old(self).next + 1
            } else {
                old(self).next as int
            }),
            match r {
                Ok(key) => old(self).ended is None && !has_session(old(self)@, name_view(session))
                    && key == old(self).next && final(self)@ == old(self)@.push(
                    Address { key, session: name_view(session), held: Held::nothing() },
                ),
                Err(why) => final(self)@ == old(self)@ && if old(self).ended is Some {
                    why@ == old(self).ended->0@
                } else {
                    has_session(old(self)@, name_view(session)) && why@ == (match session {
                        None => "the browser already has a client on this pipe"@,
                        Some(s) => "session "@ + s@ + " already has a client"@,
                    })
                },
            },
    {
        match &self.ended {
            Some(why) => return Err(why.clone()),
            None => {},
        }
        let mut i: usize = 0;
        while i < self.posts.len()
            invariant
                i <= self.posts@.len(),
                *self == *old(self),
                forall|j: int| 0 <= j < i ==> (#[trigger] self@[j]).session != name_view(session),
                old(self).ended is None,
                old(self).wf(),
            decreases self.posts@.len() - i,
        {
            let wanted = match &session {
                Some(s) => Some(s.as_str()),
                None => None,
            };
            if same_session(&self.posts[i].session, wanted) {
                proof {
                    assert(self@[i as int].session == name_view(session));
                }
                return match session {
                    None => Err("the browser already has a client on this pipe".to_owned()),
                    Some(s) => {
                        let mut why = "session ".to_owned();
                        why.append(s.as_str());
                        why.append(" already has a client");
                        Err(why)
                    },
                };
            }
            i += 1;
        }
        let key = self.next;
        self.next = self.next + 1;
        let ghost before = self@;
        let post = Post { key, session, mailbox: Mailbox::new() };
        let ghost address = post@;
        self.posts.push(post);
        proof {
            assert(self@ =~= before.push(address));
            assert(self.wf());
        }
        Ok(key)
    }

    /// Stop delivering to a registration: this one, and not one made since
    /// under the same session.
    pub fn deregister(&mut self, key: u64)
        requires
            old(self).wf(),
        ensures
            final(self).wf(),
            final(self).ended == old(self).ended,
            final(self).next == old(self).next,
            final(self)@ == without_key(old(self)@, key),
    {
        let ghost before = self@;
        let mut i: usize = 0;
        while i < self.posts.len()
            invariant
                i <= self.posts@.len(),
                *self == *old(self),
                before == self@,
                old(self).wf(),
                forall|j: int| 0 <= j < i ==> (#[trigger] before[j]).key != key,
            decreases self.posts@.len() - i,
        {
            if self.posts[i].key == key {
                let gone = self.posts.remove(i);
                proof {
                    assert(self@ =~= before.remove(i as int));
                    lemma_key_place(before, key, i as int);
                    lemma_remove_keeps(before, i as int, self.next);
                }
                return;
            }
            i += 1;
        }
        proof {
            lemma_key_place(before, key, before.len() as int);
        }
    }

    /// Deliver one message to the mailbox it is for: the keys of the sessions
    /// that it concerns, which are to be woken.
    ///
    /// Addressed by the string `sessionId` at the top level of the message, and
    /// by nothing else: no `sessionId` is the browser's own mailbox, and a
    /// session nobody has a mailbox for is dropped here, as is what is not
    /// JSON. `Target.detachedFromTarget` goes to the browser's mailbox like any
    /// other, and is also the end of the session it names.
    pub fn route(&mut self, text: &str) -> (r: Vec<u64>)
        requires
            old(self).wf(),
        ensures
            final(self).wf(),
            final(self).ended == old(self).ended,
            final(self).next == old(self).next,
            match crate::json_parse::parsed(text@) {
                Some(v) => final(self)@ == old(self)@.map_values(|a: Address| delivered(a, v)) && r@
                    == concerned(old(self)@, v),
                None => final(self)@ == old(self)@ && r@.len() == 0,
            },
    {
        match Json::parse(text) {
            Some(value) => self.deliver(&value),
            None => Vec::new(),
        }
    }

    /// Deliver one message that has been read.
    pub fn deliver(&mut self, value: &Json) -> (r: Vec<u64>)
        requires
            old(self).wf(),
        ensures
            final(self).wf(),
            final(self).ended == old(self).ended,
            final(self).next == old(self).next,
            final(self)@ == old(self)@.map_values(|a: Address| delivered(a, value@)),
            r@ == concerned(old(self)@, value@),
    {
        let session = value.text_at("sessionId");
        let gone = if value.says("method", "Target.detachedFromTarget") {
            value.text_at2("params", "sessionId")
        } else {
            None
        };
        let ghost before = self@;
        let ghost v = value@;
        let mut woken: Vec<u64> = Vec::new();
        let mut i: usize = 0;
        proof {
            assert(before.take(0) =~= Seq::<Address>::empty());
            assert forall|j: int| 0 <= j < self.posts@.len() implies (
            #[trigger] self.posts@[j]).mailbox.wf() by {
                assert(self@[j].held.valid());
            }
        }
        while i < self.posts.len()
            invariant
                i <= self.posts@.len(),
                before == old(self)@,
                v == value@,
                before.len() == self.posts@.len(),
                old(self).wf(),
                self.next == old(self).next,
                self.ended == old(self).ended,
                session_view(session) == text_of(field(v, "sessionId"@)),
                session_view(gone) == detached(v),
                forall|j: int| 0 <= j < i ==> #[trigger] self.posts@[j]@ == delivered(before[j], v),
                forall|j: int|
                    i <= j < self.posts@.len() ==> #[trigger] self.posts@[j]@ == before[j],
                forall|j: int| 0 <= j < self.posts@.len() ==> (#[trigger] self.posts@[j]).mailbox.wf(),
                woken@ == concerned(before.take(i as int), v),
            decreases self.posts@.len() - i,
        {
            let ghost was = self.posts@;
            proof {
                assert(before.take(i + 1).drop_last() =~= before.take(i as int));
                assert(before.take(i + 1).last() == before[i as int]);
                assert(self.posts@[i as int]@ == before[i as int]);
            }
            let named = self.posts[i].session.is_some();
            let ended = named && same_session(&self.posts[i].session, gone);
            let here = same_session(&self.posts[i].session, session);
            if ended || here {
                let post = &mut self.posts[i];
                if ended {
                    post.mailbox.end("the engine detached from the target");
                }
                if here {
                    post.mailbox.sort(value);
                }
                woken.push(post.key);
            }
            proof {
                assert(self.posts@[i as int]@ =~= delivered(before[i as int], v));
            }
            i += 1;
        }
        proof {
            assert(before.take(i as int) =~= before);
            assert(self@ =~= before.map_values(|a: Address| delivered(a, v)));
            assert(distinct(self@, self.next)) by {
                assert forall|j: int, k: int| 0 <= j < k < self@.len() implies (#[trigger]
                self@[j]).session != (#[trigger] self@[k]).session && self@[j].key != self@[k].key by {
                    assert(before[j].session != before[k].session);
                    assert(before[j].key != before[k].key);
                }
                assert forall|j: int| 0 <= j < self@.len() implies (#[trigger] self@[j]).key
                    < self.next by {
                    assert(before[j].key < old(self).next);
                }
            }
            assert forall|j: int| 0 <= j < self@.len() implies (
            #[trigger] self@[j]).held.valid() by {
                assert(self.posts@[j].mailbox.wf());
            }
        }
        woken
    }

    /// The pipe is over: every mailbox on it is told why, and so is every
    /// client that asks for one afterwards.
    pub fn end_all(&mut self, why: &str)
        requires
            old(self).wf(),
        ensures
            final(self).wf(),
            final(self)@ == old(self)@.map_values(
                |a: Address| Address { held: a.held.ended_by(why@), ..a },
            ),
            final(self).next == old(self).next,
            name_view(final(self).ended) == (match old(self).ended {
                Some(first) => Some(first@),
                None => Some(why@),
            }),
    {
        if self.ended.is_none() {
            self.ended = Some(why.to_owned());
        }
        let ghost before = self@;
        let mut i: usize = 0;
        proof {
            assert forall|j: int| 0 <= j < self.posts@.len() implies (
            #[trigger] self.posts@[j]).mailbox.wf() by {
                assert(self@[j].held.valid());
            }
        }
        while i < self.posts.len()
            invariant
                i <= self.posts@.len(),
                before == old(self)@,
                before.len() == self.posts@.len(),
                old(self).wf(),
                self.next == old(self).next,
                name_view(self.ended) == (match old(self).ended {
                    Some(first) => Some(first@),
                    None => Some(why@),
                }),
                forall|j: int|
                    0 <= j < i ==> #[trigger] self.posts@[j]@ == (Address {
                        held: before[j].held.ended_by(why@),
                        ..before[j]
                    }),
                forall|j: int|
                    i <= j < self.posts@.len() ==> #[trigger] self.posts@[j]@ == before[j],
                forall|j: int| 0 <= j < self.posts@.len() ==> (#[trigger] self.posts@[j]).mailbox.wf(),
            decreases self.posts@.len() - i,
        {
            proof {
                assert(self.posts@[i as int]@ == before[i as int]);
            }
            let post = &mut self.posts[i];
            post.mailbox.end(why);
            proof {
                assert(self.posts@[i as int]@ =~= (Address {
                    held: before[i as int].held.ended_by(why@),
                    ..before[i as int]
                }));
            }
            i += 1;
        }
        proof {
            assert(self@ =~= before.map_values(
                |a: Address| Address { held: a.held.ended_by(why@), ..a },
            ));
            assert forall|j: int, k: int| 0 <= j < k < self@.len() implies (#[trigger]
            self@[j]).session != (#[trigger] self@[k]).session && self@[j].key != self@[k].key by {
                assert(before[j].session != before[k].session);
                assert(before[j].key != before[k].key);
            }
            assert forall|j: int| 0 <= j < self@.len() implies (#[trigger] self@[j]).key
                < self.next by {
                assert(before[j].key < old(self).next);
            }
            assert forall|j: int| 0 <= j < self@.len() implies (
            #[trigger] self@[j]).held.valid() by {
                assert(self.posts@[j].mailbox.wf());
            }
        }
    }

    /// Where a registration is: the number of them when it is gone.
    pub fn place(&self, key: u64) -> (i: usize)
        ensures
            i <= self@.len(),
            i == key_place(self@, key),
            i < self@.len() ==> self@[i as int].key == key,
    {
        let mut i: usize = 0;
        while i < self.posts.len()
            invariant
                i <= self.posts@.len(),
                forall|j: int| 0 <= j < i ==> (#[trigger] self@[j]).key != key,
            decreases self.posts@.len() - i,
        {
            if self.posts[i].key == key {
                proof {
                    lemma_key_place(self@, key, i as int);
                }
                return i;
            }
            i += 1;
        }
        proof {
            lemma_key_place(self@, key, i as int);
        }
        i
    }
}

/// Where the address of a key is: their number when there is none.
pub open spec fn key_place(posts: Seq<Address>, key: u64) -> int
    decreases posts.len(),
{
    if posts.len() == 0 || posts[0].key == key {
        0
    } else {
        1 + key_place(posts.drop_first(), key)
    }
}

/// The addresses without the one of a key.
pub open spec fn without_key(posts: Seq<Address>, key: u64) -> Seq<Address> {
    let i = key_place(posts, key);
    if i < posts.len() {
        posts.remove(i)
    } else {
        posts
    }
}

/// The place with that key and none before it is [`key_place`].
proof fn lemma_key_place(posts: Seq<Address>, key: u64, i: int)
    requires
        0 <= i <= posts.len(),
        i < posts.len() ==> posts[i].key == key,
        forall|j: int| 0 <= j < i ==> (#[trigger] posts[j]).key != key,
    ensures
        key_place(posts, key) == i,
    decreases posts.len(),
{
    if posts.len() > 0 && posts[0].key != key {
        let rest = posts.drop_first();
        assert forall|j: int| 0 <= j < i - 1 implies (#[trigger] rest[j]).key != key by {
            assert(rest[j] == posts[j + 1]);
        }
        lemma_key_place(rest, key, i - 1);
    } else if posts.len() > 0 && i > 0 {
        assert(posts[0].key != key);
    }
}

/// Taking an address out keeps the others as they should be.
proof fn lemma_remove_keeps(posts: Seq<Address>, i: int, next: u64)
    requires
        distinct(posts, next),
        0 <= i < posts.len(),
        forall|j: int| 0 <= j < posts.len() ==> (#[trigger] posts[j]).held.valid(),
    ensures
        distinct(posts.remove(i), next),
        forall|j: int| 0 <= j < posts.remove(i).len() ==> (#[trigger] posts.remove(i)[j]).held.valid(),
{
    let now = posts.remove(i);
    assert forall|j: int| 0 <= j < now.len() implies (#[trigger] now[j]).held.valid() && now[j].key
        < next && now[j] == posts[if j < i {
        j
    } else {
        j + 1
    }] by {}
    assert forall|j: int, k: int| 0 <= j < k < now.len() implies (#[trigger] now[j]).session != (
    #[trigger] now[k]).session && now[j].key != now[k].key by {
        let a = if j < i {
            j
        } else {
            j + 1
        };
        let b = if k < i {
            k
        } else {
            k + 1
        };
        assert(posts[a].session != posts[b].session);
        assert(posts[a].key != posts[b].key);
    }
}

// ---- attaching ----

/// The parameters of the `Target.attachToTarget` for a page.
pub fn attach_params(target: &str) -> (r: Json)
    ensures
        r@ == attaching(target@),
        r@ == Value::Record(
            seq![("targetId"@, Value::Text(target@)), ("flatten"@, Value::Bool(true))],
        ),
{
    let fields = vec![("targetId", Json::string(target)), ("flatten", Json::Bool(true))];
    proof {
        assert(record_of(fields@) =~= seq![
            ("targetId"@, Value::Text(target@)),
            ("flatten"@, Value::Bool(true)),
        ]);
    }
    Json::object(fields)
}

/// The session out of the reply to an attach, or the sentence for one that
/// gave none.
pub fn attached(reply: &Json, target: &str) -> (r: Result<String, String>)
    ensures
        match r {
            Ok(session) => text_of(field(reply@, "sessionId"@)) == Some(session@),
            Err(why) => text_of(field(reply@, "sessionId"@)) is None && why@
                == "the engine attached to "@ + target@ + " and gave no session"@,
        },
{
    match reply.text_at("sessionId") {
        Some(session) => Ok(session.to_owned()),
        None => {
            let mut why = "the engine attached to ".to_owned();
            why.append(target);
            why.append(" and gave no session");
            Err(why)
        },
    }
}

/// The parameters of the `Target.detachFromTarget` for a session.
pub fn detach_params(session: &str) -> (r: Json)
    ensures
        r@ == detaching(session@),
        r@ == Value::Record(seq![("sessionId"@, Value::Text(session@))]),
{
    let fields = vec![("sessionId", Json::string(session))];
    proof {
        assert(record_of(fields@) =~= seq![("sessionId"@, Value::Text(session@))]);
    }
    Json::object(fields)
}

// ---- writing ----

/// What one write to the pipe did.
#[derive(Debug, PartialEq, Eq)]
pub enum Wrote {
    /// This many bytes went.
    Bytes(usize),
    /// A signal came first.
    Interrupted,
    /// The pipe is full, and there was room again in the time that is left.
    Room,
    /// The pipe is full, and there was no room in the time.
    Full,
    /// The engine's end is closed.
    Gone,
    /// Anything else, in the system's words.
    Failed(String),
}

/// What is to be done about a message that is being written.
#[derive(Debug, PartialEq, Eq)]
pub enum Writing {
    /// All of it is on the pipe.
    Done,
    /// Write again, from this byte.
    Again(usize),
    /// Give up, for this reason; close the pipe when half of the message is on
    /// it, since the engine would read the next one as the rest.
    Stop { why: String, close: bool },
}

/// What is to be done after one write, `at` bytes of `total` being on the pipe
/// before it.
pub fn wrote(at: usize, total: usize, event: Wrote) -> (r: Writing)
    requires
        at < total,
        event matches Wrote::Bytes(n) ==> n <= total - at,
    ensures
        match event {
            Wrote::Bytes(n) => r == (if at + n == total {
                Writing::Done
            } else {
                Writing::Again((at + n) as usize)
            }),
            Wrote::Interrupted => r == Writing::Again(at),
            Wrote::Room => r == Writing::Again(at),
            Wrote::Full => r matches Writing::Stop { why, close } && close == (at > 0) && why@
                == "the engine is not reading its pipe"@,
            Wrote::Gone => r matches Writing::Stop { why, close } && close == (at > 0) && why@
                == "the engine closed its end of the pipe"@,
            Wrote::Failed(words) => r matches Writing::Stop { why, close } && close == (at > 0)
                && why@ == "cannot write to the engine's pipe: "@ + words@,
        },
{
    match event {
        Wrote::Bytes(n) => if at + n == total {
            Writing::Done
        } else {
            Writing::Again(at + n)
        },
        Wrote::Interrupted => Writing::Again(at),
        Wrote::Room => Writing::Again(at),
        Wrote::Full => Writing::Stop {
            why: "the engine is not reading its pipe".to_owned(),
            close: at > 0,
        },
        Wrote::Gone => Writing::Stop {
            why: "the engine closed its end of the pipe".to_owned(),
            close: at > 0,
        },
        Wrote::Failed(words) => {
            let mut why = "cannot write to the engine's pipe: ".to_owned();
            why.append(words.as_str());
            Writing::Stop { why, close: at > 0 }
        },
    }
}

// ---- laws ----

/// Sorting keeps the mailbox bounded: no reply that nobody wants, and no more
/// events than may be held.
pub proof fn law_sorting_keeps_the_mailbox_bounded(h: Held, v: Value)
    requires
        h.valid(),
    ensures
        h.sorted(v).valid(),
        h.sorted(v).wanted == h.wanted,
{
}

/// A reply to a command nobody will come back for leaves nothing behind.
pub proof fn law_an_unwanted_reply_is_dropped(h: Held, v: Value, id: i64)
    requires
        whole_of(field(v, "id"@)) == Some(id),
        !h.wanted.contains(id),
    ensures
        h.sorted(v) == h,
{
}

/// A reply that somebody asked for is there for them, and giving it up leaves
/// the mailbox as it was before they asked.
pub proof fn law_a_wanted_reply_is_kept_until_it_is_given_up(h: Held, v: Value, id: i64)
    requires
        h.valid(),
        whole_of(field(v, "id"@)) == Some(id),
        !h.wanted.contains(id),
    ensures
        ({
            let asked = Held { wanted: h.wanted.insert(id), ..h };
            asked.sorted(v).replies[id] == v && asked.sorted(v).without(id) == h
                && asked.without(id).sorted(v) == h
        }),
{
    let asked = Held { wanted: h.wanted.insert(id), ..h };
    assert(!h.replies.dom().contains(id));
    assert(asked.sorted(v).without(id).replies =~= h.replies);
    assert(asked.sorted(v).without(id).wanted =~= h.wanted);
    assert(asked.without(id).wanted =~= h.wanted);
    assert(asked.without(id).replies =~= h.replies);
    assert(asked.without(id) =~= h);
}

/// A message changes no address that it does not concern, and none but one of
/// those it does concern holds it.
pub proof fn law_a_message_goes_to_its_session_and_nowhere_else(a: Address, v: Value)
    ensures
        !concerns(a, v) ==> delivered(a, v) == a,
        a.session != text_of(field(v, "sessionId"@)) ==> delivered(a, v).held.events
            == a.held.events && delivered(a, v).held.replies == a.held.replies,
{
}

/// A detach ends the session it names, and no other.
pub proof fn law_a_detach_ends_the_session_it_names(a: Address, v: Value)
    ensures
        a.session is Some && a.session == detached(v) ==> delivered(a, v).held.ended is Some,
        a.session != detached(v) ==> delivered(a, v).held.ended == a.held.ended,
{
}

/// Forgetting what is already forgotten is nothing.
pub proof fn law_forgetting_twice_is_forgetting_once(h: Held, id: i64)
    ensures
        h.without(id).without(id) == h.without(id),
{
    assert(h.without(id).without(id) =~= h.without(id));
}

/// A session ends for one reason, whatever is said of it after.
pub proof fn law_the_first_reason_stays(h: Held, why: Seq<char>, later: Seq<char>, v: Value)
    ensures
        h.ended_by(why).ended is Some,
        h.ended_by(why).ended_by(later) == h.ended_by(why),
        h.ended_by(why).sorted(v).ended == h.ended_by(why).ended,
{
}

/// A command is asked by its number, of its session if it has one, by its
/// method and with its parameters, each under the engine's name for it.
pub proof fn law_a_command_says_what_it_asks(
    id: i64,
    session: Option<Seq<char>>,
    method: Seq<char>,
    params: Value,
)
    ensures
        ({
            let asked = command(id, session, method, params);
            &&& field(asked, "id"@) == Some(Value::Number(double_of(id as int)))
            &&& text_of(field(asked, "sessionId"@)) == session
            &&& text_of(field(asked, "method"@)) == Some(method)
            &&& field(asked, "params"@) == Some(params)
        }),
{
    let fields = command(id, session, method, params)->Record_0;
    reveal_strlit("id");
    reveal_strlit("sessionId");
    reveal_strlit("method");
    reveal_strlit("params");
    assert("id"@.len() == 2);
    assert("sessionId"@.len() == 9);
    assert("method"@.len() == 6);
    assert("params"@.len() == 6);
    assert("method"@[0] != "params"@[0]);
    assert(fields[0].0 == "id"@);
    if session is Some {
        assert(fields[1].0 == "sessionId"@);
        assert(fields[2].0 == "method"@);
        assert(fields[3].0 == "params"@);
    } else {
        assert(fields[1].0 == "method"@);
        assert(fields[2].0 == "params"@);
        lemma_none_is_found(fields, "sessionId"@);
    }
    assert(named_once(fields));
    lemma_each_is_found(fields);
}

/// A reply without an error is its result, whatever that is, and one with an
/// error is a refusal that names the method and what the engine said.
pub proof fn law_a_reply_is_its_result_or_a_refusal(
    method: Seq<char>,
    id: Value,
    result: Value,
    what: Seq<char>,
)
    ensures
        meaning(method, Value::Record(seq![("id"@, id), ("result"@, result)])) == Ok::<
            Value,
            Seq<char>,
        >(result),
        meaning(method, Value::Record(seq![("id"@, id)])) == Ok::<Value, Seq<char>>(Value::Null),
        meaning(
            method,
            Value::Record(
                seq![
                    ("id"@, id),
                    ("result"@, result),
                    ("error"@, Value::Record(seq![("message"@, Value::Text(what))])),
                ],
            ),
        ) == Err::<Value, Seq<char>>(method + ": "@ + sanitized(what)),
        meaning(method, Value::Record(seq![("error"@, id), ("result"@, result)])) is Err,
{
    let error = seq![("message"@, Value::Text(what))];
    let good = seq![("id"@, id), ("result"@, result)];
    let bare = seq![("id"@, id)];
    let bad = seq![("id"@, id), ("result"@, result), ("error"@, Value::Record(error))];
    let odd = seq![("error"@, id), ("result"@, result)];
    reveal_strlit("id");
    reveal_strlit("result");
    reveal_strlit("error");
    assert("id"@.len() == 2);
    assert("result"@.len() == 6);
    assert("error"@.len() == 5);
    lemma_none_is_found(good, "error"@);
    lemma_none_is_found(bare, "error"@);
    lemma_none_is_found(bare, "result"@);
    assert(good[0].0 == "id"@ && good[1].0 == "result"@);
    assert(bad[0].0 == "id"@ && bad[1].0 == "result"@ && bad[2].0 == "error"@);
    assert(odd[0].0 == "error"@ && odd[1].0 == "result"@);
    assert(error[0].0 == "message"@);
    assert(named_once(good) && named_once(bad) && named_once(odd) && named_once(error));
    lemma_each_is_found(good);
    lemma_each_is_found(bad);
    lemma_each_is_found(odd);
    lemma_each_is_found(error);
}

/// An event joins the end of those that wait, and pushes the oldest out when
/// there are as many as are kept.
pub proof fn law_an_event_waits_last_in_line(h: Held, v: Value, method: Seq<char>)
    requires
        h.valid(),
        whole_of(field(v, "id"@)) is None,
        text_of(field(v, "method"@)) == Some(method),
    ensures
        ({
            let after = h.sorted(v);
            &&& after.events.len() > 0
            &&& after.events.last().method == method
            &&& field(v, "params"@) matches Some(params) ==> after.events.last().params == params
            &&& h.events.len() < 512 ==> after.events.drop_last() == h.events
            &&& h.events.len() == 512 ==> after.events.drop_last() == h.events.skip(1)
            &&& after.replies == h.replies && after.wanted == h.wanted && after.ended == h.ended
        }),
{
    assert(h.events.drop_first() =~= h.events.skip(1));
    assert(h.sorted(v).events.drop_last() =~= if h.events.len() >= MAX_EVENTS {
        h.events.skip(1)
    } else {
        h.events
    });
}

proof fn lemma_nul_ends(b: Seq<u8>, rest: Seq<u8>)
    requires
        forall|i: int| 0 <= i < b.len() ==> b[i] != 0,
    ensures
        nul_at(b.push(0) + rest) == b.len(),
    decreases b.len(),
{
    let all = b.push(0) + rest;
    if b.len() > 0 {
        assert(all.drop_first() =~= b.drop_first().push(0) + rest);
        assert forall|i: int| 0 <= i < b.drop_first().len() implies b.drop_first()[i] != 0 by {
            assert(b.drop_first()[i] == b[i + 1]);
        }
        lemma_nul_ends(b.drop_first(), rest);
        assert(all[0] == b[0]);
    } else {
        assert(all[0] == 0);
    }
}

/// What comes before a nul is one message, if it is text and not nothing, and
/// what comes after it is read on its own. Without a nul nothing is a message
/// yet, and all of it waits.
pub proof fn law_a_nul_ends_a_message(b: Seq<u8>, rest: Seq<u8>)
    requires
        forall|i: int| 0 <= i < b.len() ==> b[i] != 0,
    ensures
        b.len() > 0 && valid_utf8(b) ==> messages_in(b.push(0) + rest) == seq![decode_utf8(b)]
            + messages_in(rest),
        b.len() == 0 || !valid_utf8(b) ==> messages_in(b.push(0) + rest) == messages_in(rest),
        still_arriving(b.push(0) + rest) == still_arriving(rest),
        messages_in(b).len() == 0,
        still_arriving(b) == b,
{
    let all = b.push(0) + rest;
    lemma_nul_ends(b, rest);
    assert(all.take(b.len() as int) =~= b);
    assert(all.skip(b.len() as int + 1) =~= rest);
    assert(Seq::<Seq<char>>::empty() + messages_in(rest) =~= messages_in(rest));
    lemma_unended(b);
}

proof fn lemma_unended(b: Seq<u8>)
    requires
        forall|i: int| 0 <= i < b.len() ==> b[i] != 0,
    ensures
        nul_at(b) == b.len(),
    decreases b.len(),
{
    if b.len() > 0 {
        assert forall|i: int| 0 <= i < b.drop_first().len() implies b.drop_first()[i] != 0 by {
            assert(b.drop_first()[i] == b[i + 1]);
        }
        lemma_unended(b.drop_first());
    }
}

/// Leaving a session takes its place away and no other.
pub proof fn law_a_client_that_leaves_is_the_only_one_gone(posts: Seq<Address>, next: u64, i: int)
    requires
        distinct(posts, next),
        0 <= i < posts.len(),
    ensures
        without_key(posts, posts[i].key) == posts.remove(i),
        without_key(posts, next) == posts,
    decreases posts.len(),
{
    lemma_own_place(posts, next, i);
    lemma_no_key(posts, next);
}

proof fn lemma_own_place(posts: Seq<Address>, next: u64, i: int)
    requires
        distinct(posts, next),
        0 <= i < posts.len(),
    ensures
        key_place(posts, posts[i].key) == i,
    decreases posts.len(),
{
    if i > 0 {
        let rest = posts.drop_first();
        assert forall|a: int, b: int| 0 <= a < b < rest.len() implies (#[trigger] rest[a]).session
            != (#[trigger] rest[b]).session && rest[a].key != rest[b].key by {
            assert(rest[a] == posts[a + 1]);
            assert(rest[b] == posts[b + 1]);
        }
        assert forall|a: int| 0 <= a < rest.len() implies (#[trigger] rest[a]).key < next by {
            assert(rest[a] == posts[a + 1]);
        }
        lemma_own_place(rest, next, i - 1);
        assert(posts[0].key != posts[i].key);
        assert(rest[i - 1] == posts[i]);
    }
}

proof fn lemma_no_key(posts: Seq<Address>, next: u64)
    requires
        forall|i: int| 0 <= i < posts.len() ==> (#[trigger] posts[i]).key < next,
    ensures
        key_place(posts, next) == posts.len(),
    decreases posts.len(),
{
    if posts.len() > 0 {
        let rest = posts.drop_first();
        assert forall|a: int| 0 <= a < rest.len() implies (#[trigger] rest[a]).key < next by {
            assert(rest[a] == posts[a + 1]);
        }
        lemma_no_key(rest, next);
        assert(posts[0].key < next);
    }
}

/// Those that hear of a message are those it concerns: its own session, and one
/// that it says was detached.
pub proof fn law_those_concerned_hear_of_it(posts: Seq<Address>, v: Value, key: u64)
    ensures
        concerned(posts, v).contains(key) <==> exists|i: int|
            0 <= i < posts.len() && (#[trigger] posts[i]).key == key && (posts[i].session
                == text_of(field(v, "sessionId"@)) || (posts[i].session is Some && text_of(
                field(v, "method"@),
            ) == Some("Target.detachedFromTarget"@) && posts[i].session == text_of(
                field2(v, "params"@, "sessionId"@),
            ))),
    decreases posts.len(),
{
    if posts.len() > 0 {
        let rest = posts.drop_last();
        law_those_concerned_hear_of_it(rest, v, key);
        let before = concerned(rest, v);
        let all = concerned(posts, v);
        assert forall|i: int| 0 <= i < rest.len() implies #[trigger] rest[i] == posts[i] by {}
        assert(posts[posts.len() - 1] == posts.last());
        if all.contains(key) {
            let k = choose|k: int| 0 <= k < all.len() && all[k] == key;
            if k < before.len() {
                assert(before[k] == key);
                assert(before.contains(key));
                let i = choose|i: int|
                    0 <= i < rest.len() && (#[trigger] rest[i]).key == key && concerns(rest[i], v);
                assert(posts[i].key == key && concerns(posts[i], v));
            } else {
                assert(posts[posts.len() - 1].key == key && concerns(posts[posts.len() - 1], v));
            }
        }
        if exists|i: int|
            0 <= i < posts.len() && (#[trigger] posts[i]).key == key && concerns(posts[i], v) {
            let i = choose|i: int|
                0 <= i < posts.len() && (#[trigger] posts[i]).key == key && concerns(posts[i], v);
            if i < rest.len() {
                assert(rest[i].key == key && concerns(rest[i], v));
                assert(before.contains(key));
                let k = choose|k: int| 0 <= k < before.len() && before[k] == key;
                assert(all[k] == key);
            } else {
                assert(all[all.len() - 1] == key);
            }
        }
    }
}

impl Held {
    /// What a command that is waited for is answered, if anything yet.
    pub open spec fn answered(
        self,
        id: i64,
        method: Seq<char>,
        time_is_up: bool,
        seconds: nat,
    ) -> Option<Result<Value, Seq<char>>> {
        if self.replies.dom().contains(id) {
            Some(meaning(method, self.replies[id]))
        } else {
            match self.ended {
                Some(why) => Some(Err(method + ": "@ + why)),
                None => if time_is_up {
                    Some(Err(method + ": no answer in "@ + decimal(seconds) + " seconds"@))
                } else {
                    None
                },
            }
        }
    }
}

/// What a page is attached to with.
pub open spec fn attaching(target: Seq<char>) -> Value {
    Value::Record(seq![("targetId"@, Value::Text(target)), ("flatten"@, Value::Bool(true))])
}

/// What a session is left with.
pub open spec fn detaching(session: Seq<char>) -> Value {
    Value::Record(seq![("sessionId"@, Value::Text(session))])
}

/// A command that was asked is answered by its own reply when that has come, by
/// why it never will when the page is gone, and by how long it was waited for when
/// time is up; until then it is not answered. A reply to another answers nothing.
pub proof fn law_a_command_is_answered_by_its_own_reply(
    h: Held,
    v: Value,
    id: i64,
    other: i64,
    method: Seq<char>,
    seconds: nat,
)
    requires
        h.wanted.contains(id),
        !h.replies.dom().contains(id),
        h.ended is None,
    ensures
        whole_of(field(v, "id"@)) == Some(id) ==> h.sorted(v).answered(id, method, false, seconds)
            == Some(meaning(method, v)) && h.sorted(v).answered(id, method, true, seconds) == Some(
            meaning(method, v),
        ),
        whole_of(field(v, "id"@)) == Some(other) && other != id ==> h.sorted(v).answered(
            id,
            method,
            false,
            seconds,
        ) is None,
        h.answered(id, method, false, seconds) is None,
        h.answered(id, method, true, seconds) == Some(
            Err::<Value, Seq<char>>(method + ": no answer in "@ + decimal(seconds) + " seconds"@),
        ),
        h.ended_by(method).answered(id, method, false, seconds) == Some(
            Err::<Value, Seq<char>>(method + ": "@ + method),
        ),
{
}

/// A page is attached to by its target, in the one stream, and left by its
/// session.
pub proof fn law_a_page_is_attached_to_by_its_target(name: Seq<char>)
    ensures
        text_of(field(attaching(name), "targetId"@)) == Some(name),
        field(attaching(name), "flatten"@) == Some(Value::Bool(true)),
        text_of(field(detaching(name), "sessionId"@)) == Some(name),
{
    let a = attaching(name)->Record_0;
    let b = detaching(name)->Record_0;
    reveal_strlit("targetId");
    reveal_strlit("flatten");
    assert("targetId"@.len() == 8);
    assert("flatten"@.len() == 7);
    assert(a[0].0 == "targetId"@ && a[1].0 == "flatten"@);
    assert(b[0].0 == "sessionId"@);
    assert(named_once(a));
    lemma_each_is_found(a);
    lemma_each_is_found(b);
}

}

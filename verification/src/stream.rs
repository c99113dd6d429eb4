//! The stream orchestrator's decision core: buffering raw bytes, cutting
//! them into frames, decoding each frame, and guaranteeing the terminal
//! event. The surrounding shell performs the reads and hands each outcome
//! in; everything decided here is verified.

use crate::codex::{oauth_step, parse_openai_oauth_event};
use crate::events::{EventModel, ProtocolStreamState, StateModel, StreamEvent};
use crate::sse::{crlf_crlf_at, find_sse_delimiter, lf_lf_at, parse_sse_event, sse_parse};
use vstd::prelude::*;

verus! {

/// The position of the first four-byte delimiter, scanning from the front.
pub open spec fn first_crlf2(b: Seq<u8>) -> Option<int>
    decreases b.len(),
{
    if b.len() < 4 {
        None
    } else if b[0] == 13u8 && b[1] == 10u8 && b[2] == 13u8 && b[3] == 10u8 {
        Some(0)
    } else {
        match first_crlf2(b.drop_first()) {
            Some(i) => Some(i + 1),
            None => None,
        }
    }
}

/// The position of the first two-byte delimiter, scanning from the front.
pub open spec fn first_lf2(b: Seq<u8>) -> Option<int>
    decreases b.len(),
{
    if b.len() < 2 {
        None
    } else if b[0] == 10u8 && b[1] == 10u8 {
        Some(0)
    } else {
        match first_lf2(b.drop_first()) {
            Some(i) => Some(i + 1),
            None => None,
        }
    }
}

pub proof fn lemma_first_crlf2(b: Seq<u8>)
    ensures
        match first_crlf2(b) {
            Some(i) => crlf_crlf_at(b, i) && forall|j: int| 0 <= j < i ==> !crlf_crlf_at(b, j),
            None => forall|j: int| !crlf_crlf_at(b, j),
        },
    decreases b.len(),
{
    if b.len() < 4 {
    } else if b[0] == 13u8 && b[1] == 10u8 && b[2] == 13u8 && b[3] == 10u8 {
    } else {
        lemma_first_crlf2(b.drop_first());
        let t = b.drop_first();
        match first_crlf2(t) {
            Some(i) => {
                assert(crlf_crlf_at(b, i + 1));
                assert forall|j: int| 0 <= j < i + 1 implies !crlf_crlf_at(b, j) by {
                    if j > 0 && crlf_crlf_at(b, j) {
                        assert(crlf_crlf_at(t, j - 1));
                    }
                }
            },
            None => {
                assert forall|j: int| !crlf_crlf_at(b, j) by {
                    if j > 0 && crlf_crlf_at(b, j) {
                        assert(crlf_crlf_at(t, j - 1));
                    }
                }
            },
        }
    }
}

pub proof fn lemma_first_lf2(b: Seq<u8>)
    ensures
        match first_lf2(b) {
            Some(i) => lf_lf_at(b, i) && forall|j: int| 0 <= j < i ==> !lf_lf_at(b, j),
            None => forall|j: int| !lf_lf_at(b, j),
        },
    decreases b.len(),
{
    if b.len() < 2 {
    } else if b[0] == 10u8 && b[1] == 10u8 {
    } else {
        lemma_first_lf2(b.drop_first());
        let t = b.drop_first();
        match first_lf2(t) {
            Some(i) => {
                assert(lf_lf_at(b, i + 1));
                assert forall|j: int| 0 <= j < i + 1 implies !lf_lf_at(b, j) by {
                    if j > 0 && lf_lf_at(b, j) {
                        assert(lf_lf_at(t, j - 1));
                    }
                }
            },
            None => {
                assert forall|j: int| !lf_lf_at(b, j) by {
                    if j > 0 && lf_lf_at(b, j) {
                        assert(lf_lf_at(t, j - 1));
                    }
                }
            },
        }
    }
}

/// Cut the earliest complete frame off the buffer: the frame bytes and what
/// remains after its delimiter. The four-byte delimiter is preferred over
/// the two-byte one wherever each stands.
pub open spec fn frame_split(buf: Seq<u8>) -> Option<(Seq<u8>, Seq<u8>)> {
    match first_crlf2(buf) {
        Some(i) => Some((buf.take(i), buf.skip(i + 4))),
        None => match first_lf2(buf) {
            Some(i) => Some((buf.take(i), buf.skip(i + 2))),
            None => None,
        },
    }
}

/// How draining the buffer ended.
pub enum DrainStatus {
    /// Every complete frame was decoded; more bytes may come.
    Rolling,
    /// The decoder handed out its `Done`: the request is over.
    Ended,
    /// A frame could not be decoded: the request is aborted.
    Broken,
}

/// What draining the buffer yields: the bytes kept, the state reached, the
/// canonical events in emission order, how it ended, and the item ids of
/// the tool calls emitted.
pub struct DrainResult {
    pub buf: Seq<u8>,
    pub st: StateModel,
    pub events: Seq<EventModel>,
    pub status: DrainStatus,
    pub log: Seq<Seq<char>>,
}

/// The message for a frame holding bytes that are not UTF-8.
pub open spec fn utf8_error_message() -> Seq<char> {
    "invalid UTF-8 in stream frame"@
}

/// Drain every complete frame from the buffer through the decoder. Each
/// frame's handed-out event comes first, then its drained queue; a frame
/// whose handed-out event is `Done` ends the drain at once.
pub open spec fn drain_model(buf: Seq<u8>, st: StateModel) -> DrainResult
    decreases buf.len(),
    via drain_model_decreases
{
    match frame_split(buf) {
        None => DrainResult {
            buf,
            st,
            events: Seq::empty(),
            status: DrainStatus::Rolling,
            log: Seq::empty(),
        },
        Some(split) => {
            let frame = split.0;
            let rest = split.1;
            if !vstd::utf8::valid_utf8(frame) {
                DrainResult {
                    buf: rest,
                    st,
                    events: seq![EventModel::Error { message: utf8_error_message() }],
                    status: DrainStatus::Broken,
                    log: Seq::empty(),
                }
            } else {
                match sse_parse(vstd::utf8::decode_utf8(frame)) {
                    None => drain_model(rest, st),
                    Some(parsed) => match oauth_step(st, parsed.0, parsed.1) {
                        None => DrainResult {
                            buf: rest,
                            st,
                            events: seq![EventModel::Error { message: crate::codex::decode_error_message() }],
                            status: DrainStatus::Broken,
                            log: Seq::empty(),
                        },
                        Some(sr) => {
                            let emitted_now = (match sr.out {
                                Some(ev) => seq![ev],
                                None => Seq::<EventModel>::empty(),
                            }) + sr.st.pending;
                            let st1 = StateModel { pending: Seq::empty(), ..sr.st };
                            if sr.out matches Some(ev2) && ev2 is Done {
                                DrainResult {
                                    buf: rest,
                                    st: st1,
                                    events: emitted_now,
                                    status: DrainStatus::Ended,
                                    log: sr.log,
                                }
                            } else {
                                let next = drain_model(rest, st1);
                                DrainResult {
                                    buf: next.buf,
                                    st: next.st,
                                    events: emitted_now + next.events,
                                    status: next.status,
                                    log: sr.log + next.log,
                                }
                            }
                        },
                    },
                }
            }
        },
    }
}

#[via_fn]
proof fn drain_model_decreases(buf: Seq<u8>, st: StateModel) {
    lemma_first_crlf2(buf);
    lemma_first_lf2(buf);
}

/// The text that a run of events carries: its text deltas, in order.
pub open spec fn transcript_of(events: Seq<EventModel>) -> Seq<char>
    decreases events.len(),
{
    if events.len() == 0 {
        Seq::empty()
    } else {
        let head = match events[0] {
            EventModel::TextDelta { text } => text,
            _ => Seq::empty(),
        };
        head + transcript_of(events.drop_first())
    }
}

/// One in-flight request's decoding half: what remains buffered, the
/// decoder state, the transcript, and whether the decoder already ended it.
pub struct StreamSession {
    pub buffer: Vec<u8>,
    pub state: ProtocolStreamState,
    pub response_text: String,
    pub ended: bool,
}

/// The mathematical shape of a session.
pub struct SessionModel {
    pub buf: Seq<u8>,
    pub st: StateModel,
    pub text: Seq<char>,
    pub ended: bool,
}

impl StreamSession {
    pub open spec fn wf(self) -> bool {
        self.state.wf()
    }

    pub open spec fn model(self) -> SessionModel {
        SessionModel {
            buf: self.buffer@,
            st: self.state.model(),
            text: self.response_text@,
            ended: self.ended,
        }
    }

    /// A session with nothing buffered and a fresh decoder state.
    pub fn new() -> (r: Self)
        ensures
            r.wf(),
            r.model() == (SessionModel {
                buf: Seq::<u8>::empty(),
                st: crate::events::init_state(),
                text: Seq::<char>::empty(),
                ended: false,
            }),
    {
        StreamSession {
            buffer: Vec::new(),
            state: ProtocolStreamState::default(),
            response_text: String::new(),
            ended: false,
        }
    }
}

/// Copy the bytes of `s` between `from` and `to`.
fn copy_byte_range(s: &Vec<u8>, from: usize, to: usize) -> (r: Vec<u8>)
    requires
        from <= to <= s@.len(),
    ensures
        r@ == s@.subrange(from as int, to as int),
{
    let mut r: Vec<u8> = Vec::new();
    let mut i: usize = from;
    while i < to
        invariant
            from <= i <= to <= s@.len(),
            r@ =~= s@.subrange(from as int, i as int),
        decreases to - i,
    {
        r.push(s[i]);
        assert(r@ =~= s@.subrange(from as int, i + 1));
        i = i + 1;
    }
    proof {
        assert(r@ =~= s@.subrange(from as int, to as int));
    }
    r
}

/// Relies on `String::from_utf8`: it succeeds exactly on valid UTF-8 and
/// decodes it to the characters that `vstd`'s own UTF-8 model gives.
#[verifier::external_body]
fn utf8_to_string(bytes: Vec<u8>) -> (r: Option<String>)
    ensures
        (r is Some) == vstd::utf8::valid_utf8(bytes@),
        match r {
            Some(s) => s@ == vstd::utf8::decode_utf8(bytes@),
            None => true,
        },
{
    String::from_utf8(bytes).ok()
}

/// A text delta appended to a run of events extends its transcript by that
/// delta; any other event leaves it unchanged.
pub proof fn lemma_transcript_snoc(events: Seq<EventModel>, ev: EventModel)
    ensures
        transcript_of(events.push(ev)) == transcript_of(events) + (match ev {
            EventModel::TextDelta { text } => text,
            _ => Seq::<char>::empty(),
        }),
    decreases events.len(),
{
    let whole = events.push(ev);
    if events.len() == 0 {
        assert(whole.drop_first() =~= Seq::<EventModel>::empty());
        assert(transcript_of(whole.drop_first()) =~= Seq::<char>::empty());
        assert(whole[0] == ev);
        assert(transcript_of(whole) =~= transcript_of(events) + (match ev {
            EventModel::TextDelta { text } => text,
            _ => Seq::<char>::empty(),
        }));
    } else {
        lemma_transcript_snoc(events.drop_first(), ev);
        assert(whole.drop_first() =~= events.drop_first().push(ev));
        assert(whole[0] == events[0]);
        assert(transcript_of(whole) =~= transcript_of(events) + (match ev {
            EventModel::TextDelta { text } => text,
            _ => Seq::<char>::empty(),
        }));
    }
}

/// What feeding one chunk of bytes yields: the canonical events produced,
/// in order, and whether the request rolls on, has ended, or broke with the
/// given error.
pub enum FeedResult {
    Rolling(Vec<StreamEvent>),
    Ended(Vec<StreamEvent>),
    Broken(Vec<StreamEvent>, String),
}

impl StreamSession {
    /// Push one event out: record it, extend the transcript for a text
    /// delta, and hand it to the result list.
    fn note_event(&mut self, events: &mut Vec<StreamEvent>, ev: StreamEvent)
        requires
            old(self).wf(),
        ensures
            final(self).wf(),
            final(events)@.len() == old(events)@.len() + 1,
            final(events).deep_view() == old(events).deep_view().push(ev.deep_view()),
            final(self).model() == (SessionModel {
                text: old(self).model().text + (match ev.deep_view() {
                    EventModel::TextDelta { text } => text,
                    _ => Seq::<char>::empty(),
                }),
                ..old(self).model()
            }),
    {
        let ghost dv = events.deep_view();
        match &ev {
            StreamEvent::TextDelta { text } => {
                self.response_text.append(text.as_str());
            },
            _ => {},
        }
        events.push(ev);
        proof {
            assert(events.deep_view() =~~= dv.push(ev.deep_view()));
        }
    }

    /// Feed one chunk of bytes: append to the buffer, then drain every
    /// complete frame through the decoder, per [`drain_model`].
    #[verifier::rlimit(100)]
    #[verifier::spinoff_prover]
    pub fn feed_data(&mut self, bytes: &[u8]) -> (r: FeedResult)
        requires
            old(self).wf(),
            !old(self).ended,
        ensures
            final(self).wf(),
            ({
                let d = drain_model(old(self).model().buf + bytes@, old(self).model().st);
                &&& final(self).model().st == d.st
                &&& final(self).model().buf == d.buf
                &&& final(self).model().text == old(self).model().text + transcript_of(d.events)
                &&& match r {
                    FeedResult::Rolling(evs) => {
                        &&& evs.deep_view() == d.events
                        &&& d.status is Rolling
                        &&& !final(self).ended
                    },
                    FeedResult::Ended(evs) => {
                        &&& evs.deep_view() == d.events
                        &&& d.status is Ended
                        &&& final(self).ended
                    },
                    FeedResult::Broken(evs, msg) => {
                        &&& evs.deep_view() == d.events
                        &&& d.status is Broken
                        &&& d.events.len() > 0
                        &&& d.events.last() == (EventModel::Error { message: msg@ })
                    },
                }
            }),
    {
        let ghost start_buf = self.buffer@ + bytes@;
        let ghost start_st = self.state.model();
        let ghost start_text = self.response_text@;
        let ghost full = drain_model(start_buf, start_st);
        let mut k: usize = 0;
        while k < bytes.len()
            invariant
                k <= bytes@.len(),
                self.state == old(self).state,
                self.response_text == old(self).response_text,
                self.ended == old(self).ended,
                self.buffer@ =~= old(self).buffer@ + bytes@.take(k as int),
            decreases bytes@.len() - k,
        {
            self.buffer.push(bytes[k]);
            proof {
                assert(self.buffer@ =~= old(self).buffer@ + bytes@.take(k + 1));
            }
            k = k + 1;
        }
        proof {
            assert(self.buffer@ =~= start_buf);
        }
        let mut events: Vec<StreamEvent> = Vec::new();
        let ghost mut done_events: Seq<EventModel> = Seq::empty();
        let ghost mut ended_flag = false;
        loop
            invariant
                self.wf(),
                !self.ended,
                start_buf == old(self).model().buf + bytes@,
                start_st == old(self).model().st,
                full == drain_model(start_buf, start_st),
                events.deep_view() == done_events,
                self.response_text@ == start_text + transcript_of(done_events),
                start_text == old(self).model().text,
                full.events == done_events + drain_model(self.buffer@, self.state.model()).events,
                full.st == drain_model(self.buffer@, self.state.model()).st,
                full.buf == drain_model(self.buffer@, self.state.model()).buf,
                full.status == drain_model(self.buffer@, self.state.model()).status,
            decreases self.buffer@.len(),
        {
            let ghost cur_buf = self.buffer@;
            let ghost cur_st = self.state.model();
            let ghost cur_drain = drain_model(cur_buf, cur_st);
            let split = find_sse_delimiter(&self.buffer);
            proof {
                lemma_first_crlf2(cur_buf);
                lemma_first_lf2(cur_buf);
            }
            let pair = match split {
                Some(p) => p,
                None => {
                    proof {
                        assert(frame_split(cur_buf) is None) by {
                            match first_crlf2(cur_buf) {
                                Some(i) => {
                                    assert(crlf_crlf_at(cur_buf, i));
                                },
                                None => {},
                            }
                            match first_lf2(cur_buf) {
                                Some(i) => {
                                    assert(lf_lf_at(cur_buf, i));
                                },
                                None => {},
                            }
                        }
                        assert(drain_model(cur_buf, cur_st).events =~= Seq::<
                            EventModel,
                        >::empty());
                        assert(full.events =~= done_events);
                        assert(self.response_text@ =~= start_text + transcript_of(full.events));
                        assert(full.st == cur_st);
                        assert(full.buf == cur_buf);
                        assert(self.state.model() == full.st);
                        assert(self.buffer@ == full.buf);
                        assert(events.deep_view() == full.events);
                        assert(full.status is Rolling);
                        assert(full == drain_model(
                            old(self).model().buf + bytes@,
                            old(self).model().st,
                        ));
                    }
                    return FeedResult::Rolling(events);
                },
            };
            let idx = pair.0;
            let dlen = pair.1;
            proof {
                if dlen == 4 {
                    match first_crlf2(cur_buf) {
                        Some(i) => {
                            assert(i == idx) by {
                                if i < idx {
                                    assert(!crlf_crlf_at(cur_buf, i));
                                } else if idx < i {
                                    assert(!crlf_crlf_at(cur_buf, idx as int));
                                }
                            }
                        },
                        None => {
                            assert(false);
                        },
                    }
                } else {
                    assert(first_crlf2(cur_buf) is None) by {
                        match first_crlf2(cur_buf) {
                            Some(i) => {
                                assert(crlf_crlf_at(cur_buf, i));
                            },
                            None => {},
                        }
                    }
                    match first_lf2(cur_buf) {
                        Some(i) => {
                            assert(i == idx) by {
                                if i < idx {
                                    assert(!lf_lf_at(cur_buf, i));
                                } else if idx < i {
                                    assert(!lf_lf_at(cur_buf, idx as int));
                                }
                            }
                        },
                        None => {
                            assert(false);
                        },
                    }
                }
                assert(frame_split(cur_buf) == Some(
                    (cur_buf.take(idx as int), cur_buf.skip(idx + dlen)),
                ));
                if dlen == 4 {
                    assert(crlf_crlf_at(cur_buf, idx as int));
                    assert(idx + 4 <= cur_buf.len());
                } else {
                    assert(lf_lf_at(cur_buf, idx as int));
                    assert(idx + 2 <= cur_buf.len());
                }
            }
            let blen = self.buffer.len();
            let frame = copy_byte_range(&self.buffer, 0, idx);
            let rest = copy_byte_range(&self.buffer, idx + dlen, blen);
            self.buffer = rest;
            proof {
                assert(frame@ =~= cur_buf.take(idx as int));
                assert(self.buffer@ =~= cur_buf.skip(idx + dlen));
            }
            let ghost frame_bytes = frame@;
            let text = match utf8_to_string(frame) {
                Some(t) => t,
                None => {
                    let msg = "invalid UTF-8 in stream frame".to_owned();
                    let ghost msg_view = msg@;
                    let ev = StreamEvent::Error { message: msg.clone() };
                    self.note_event(&mut events, ev);
                    proof {
                        reveal_strlit("invalid UTF-8 in stream frame");
                        assert(msg_view == utf8_error_message());
                        assert(cur_drain.events =~= seq![
                            EventModel::Error { message: msg_view },
                        ]);
                        assert(events.deep_view() =~= done_events + cur_drain.events);
                        lemma_transcript_snoc(
                            done_events,
                            EventModel::Error { message: msg_view },
                        );
                        assert(transcript_of(done_events + cur_drain.events)
                            =~= transcript_of(done_events.push(
                            EventModel::Error { message: msg_view },
                        )));
                        assert(done_events + cur_drain.events =~= done_events.push(
                            EventModel::Error { message: msg_view },
                        ));
                    }
                    return FeedResult::Broken(events, msg);
                },
            };
            let parsed = parse_sse_event(text.as_str());
            let sse = match parsed {
                Some(s) => s,
                None => {
                    proof {
                        assert(cur_drain == drain_model(self.buffer@, self.state.model()));
                    }
                    continue ;
                },
            };
            let event_name: Option<&str> = match &sse.event {
                Some(s) => Some(s.as_str()),
                None => None,
            };
            let ghost pre_step = self.state.model();
            let step = parse_openai_oauth_event(event_name, sse.data.as_str(), &mut self.state);
            let returned = match step {
                Ok(out) => out,
                Err(msg) => {
                    let ghost msg_view = msg@;
                    let ev = StreamEvent::Error { message: msg.clone() };
                    self.note_event(&mut events, ev);
                    proof {
                        assert(cur_drain.events =~= seq![
                            EventModel::Error { message: msg_view },
                        ]);
                        assert(events.deep_view() =~= done_events + cur_drain.events);
                        lemma_transcript_snoc(
                            done_events,
                            EventModel::Error { message: msg_view },
                        );
                        assert(done_events + cur_drain.events =~= done_events.push(
                            EventModel::Error { message: msg_view },
                        ));
                    }
                    return FeedResult::Broken(events, msg);
                },
            };
            let ghost sr = oauth_step(
                pre_step,
                crate::codex::opt_str_view(event_name),
                sse.data@,
            )->0;
            let ghost out_was_some = returned is Some;
            let ghost done_before = done_events;
            let mut saw_done = false;
            match returned {
                Some(ev) => {
                    saw_done = matches!(&ev, StreamEvent::Done { .. });
                    let ghost evm = ev.deep_view();
                    self.note_event(&mut events, ev);
                    proof {
                        lemma_transcript_snoc(done_events, evm);
                        done_events = done_events.push(evm);
                    }
                },
                None => {},
            }
            let ghost queue = self.state.model().pending;
            let ghost mut drained: Seq<EventModel> = Seq::empty();
            loop
                invariant
                    self.wf(),
                    !self.ended,
                    self.buffer@ == cur_buf.skip(idx + dlen),
                    events.deep_view() == done_events + drained,
                    self.response_text@ == start_text + transcript_of(done_events + drained),
                    start_text == old(self).model().text,
                    queue == drained + self.state.model().pending,
                    self.state.model() == (StateModel {
                        pending: self.state.model().pending,
                        ..sr.st
                    }),
                ensures
                    self.wf(),
                    !self.ended,
                    self.buffer@ == cur_buf.skip(idx + dlen),
                    events.deep_view() == done_events + drained,
                    self.response_text@ == start_text + transcript_of(done_events + drained),
                    queue == drained,
                    self.state.model() == (StateModel { pending: Seq::<EventModel>::empty(), ..sr.st }),
                decreases self.state.model().pending.len(),
            {
                if self.pending_len() == 0 {
                    proof {
                        assert(self.state.model().pending =~= Seq::<EventModel>::empty());
                    }
                    break ;
                }
                let ghost pend = self.state.model().pending;
                let ev = self.pop_front_pending();
                let ghost evm = ev.deep_view();
                self.note_event(&mut events, ev);
                proof {
                    lemma_transcript_snoc(done_events + drained, evm);
                    assert((done_events + drained).push(evm) =~= done_events + drained.push(
                        evm,
                    ));
                    drained = drained.push(evm);
                    assert(queue =~= drained + self.state.model().pending);
                }
            }
            proof {
                let step_events = (match sr.out {
                    Some(ev) => seq![ev],
                    None => Seq::<EventModel>::empty(),
                }) + sr.st.pending;
                assert(self.state.model().pending =~= Seq::<EventModel>::empty());
                assert(drained =~= sr.st.pending);
                if out_was_some {
                    assert(done_events =~= done_before.push(sr.out->0));
                    assert(done_events + drained =~= done_before + step_events);
                } else {
                    assert(done_events + drained =~= done_before + step_events);
                }
                done_events = done_events + drained;
                assert(done_events =~= done_before + step_events);
                assert(self.state.model() == (StateModel { pending: Seq::empty(), ..sr.st }));
            }
            if saw_done {
                self.ended = true;
                proof {
                    assert(cur_drain.status is Ended);
                    assert(full.events =~= done_events);
                }
                return FeedResult::Ended(events);
            }
            proof {
                assert(full.events == done_events + drain_model(
                    self.buffer@,
                    self.state.model(),
                ).events);
            }
        }
    }

    /// The closing event of a successful request: `Done` with whatever
    /// finish reason the decoder captured.
    pub fn finish_event(&self) -> (r: StreamEvent)
        ensures
            r.deep_view() == (EventModel::Done { finish_reason: self.model().st.finish }),
    {
        let finish_reason = match &self.state.finish_reason {
            Some(s) => Some(s.clone()),
            None => None,
        };
        StreamEvent::Done { finish_reason }
    }

    /// How many events wait in the queue.
    fn pending_len(&self) -> (r: usize)
        ensures
            r == self.model().st.pending.len(),
    {
        self.state.pending_events.len()
    }

    /// Hand out the oldest queued event.
    fn pop_front_pending(&mut self) -> (r: StreamEvent)
        requires
            old(self).wf(),
            old(self).model().st.pending.len() > 0,
        ensures
            final(self).wf(),
            r.deep_view() == old(self).model().st.pending[0],
            final(self).model() == (SessionModel {
                st: StateModel {
                    pending: old(self).model().st.pending.drop_first(),
                    ..old(self).model().st
                },
                ..old(self).model()
            }),
    {
        let ghost pv = self.state.pending_events.deep_view();
        let ev = self.state.pending_events.remove(0);
        proof {
            assert(self.state.pending_events.deep_view() =~~= pv.drop_first());
        }
        ev
    }
}

/// What one read from the transport handed back. The shell around the
/// engine performs the read and reports its outcome here.
pub enum ChunkOutcome {
    /// Bytes arrived.
    Data(Vec<u8>),
    /// The stream ended normally.
    End,
    /// No bytes arrived within the allowed interval.
    TimedOut,
    /// The transport failed with the given message.
    Failed(String),
}

/// The mathematical shape of a read outcome.
pub enum OutcomeModel {
    Data(Seq<u8>),
    End,
    TimedOut,
    Failed(Seq<char>),
}

impl DeepView for ChunkOutcome {
    type V = OutcomeModel;

    open spec fn deep_view(&self) -> OutcomeModel {
        match self {
            ChunkOutcome::Data(bytes) => OutcomeModel::Data(bytes@),
            ChunkOutcome::End => OutcomeModel::End,
            ChunkOutcome::TimedOut => OutcomeModel::TimedOut,
            ChunkOutcome::Failed(m) => OutcomeModel::Failed(m@),
        }
    }
}

/// The message of the inter-chunk timeout error.
pub open spec fn timeout_message() -> Seq<char> {
    "Stream timeout - no data received for 60 seconds"@
}

/// The message wrapping a transport error.
pub open spec fn transport_message(m: Seq<char>) -> Seq<char> {
    "Stream error: "@ + m
}

/// The timeout error event.
pub fn timeout_event() -> (r: StreamEvent)
    ensures
        r.deep_view() == (EventModel::Error { message: timeout_message() }),
{
    StreamEvent::Error { message: "Stream timeout - no data received for 60 seconds".to_owned() }
}

/// The error event wrapping a transport failure.
pub fn transport_event(m: &str) -> (r: StreamEvent)
    ensures
        r.deep_view() == (EventModel::Error { message: transport_message(m@) }),
{
    let mut message = "Stream error: ".to_owned();
    message.append(m);
    StreamEvent::Error { message }
}

/// A whole request's canonical events, whether it succeeded, and the item
/// ids of the tool calls it emitted, in emission order.
pub struct RunResult {
    pub events: Seq<EventModel>,
    pub ok: bool,
    pub log: Seq<Seq<char>>,
}

/// The canonical event sequence of a request, given what each read handed
/// back: data is drained frame by frame; the first timeout or transport
/// failure ends the request with an error; a normal end, a decoder `Done`,
/// or running out of reads closes it with the final `Done`.
pub open spec fn run_from(outs: Seq<OutcomeModel>, buf: Seq<u8>, st: StateModel) -> RunResult
    decreases outs.len(),
{
    if outs.len() == 0 {
        RunResult {
            events: seq![EventModel::Done { finish_reason: st.finish }],
            ok: true,
            log: Seq::empty(),
        }
    } else {
        match outs[0] {
            OutcomeModel::Data(bytes) => {
                if bytes.len() == 0 {
                    run_from(outs.drop_first(), buf, st)
                } else {
                    let d = drain_model(buf + bytes, st);
                    match d.status {
                        DrainStatus::Broken => RunResult {
                            events: d.events,
                            ok: false,
                            log: d.log,
                        },
                        DrainStatus::Ended => RunResult {
                            events: d.events + seq![
                                EventModel::Done { finish_reason: d.st.finish },
                            ],
                            ok: true,
                            log: d.log,
                        },
                        DrainStatus::Rolling => {
                            let r = run_from(outs.drop_first(), d.buf, d.st);
                            RunResult {
                                events: d.events + r.events,
                                ok: r.ok,
                                log: d.log + r.log,
                            }
                        },
                    }
                }
            },
            OutcomeModel::End => RunResult {
                events: seq![EventModel::Done { finish_reason: st.finish }],
                ok: true,
                log: Seq::empty(),
            },
            OutcomeModel::TimedOut => RunResult {
                events: seq![EventModel::Error { message: timeout_message() }],
                ok: false,
                log: Seq::empty(),
            },
            OutcomeModel::Failed(m) => RunResult {
                events: seq![EventModel::Error { message: transport_message(m) }],
                ok: false,
                log: Seq::empty(),
            },
        }
    }
}

/// Drive one whole request from a list of read outcomes: every canonical
/// event in emission order, and whether the request succeeded, per
/// [`run_from`].
pub fn run_stream(outcomes: Vec<ChunkOutcome>) -> (r: (Vec<StreamEvent>, bool))
    ensures
        r.0.deep_view() == run_from(
            outcomes.deep_view(),
            Seq::<u8>::empty(),
            crate::events::init_state(),
        ).events,
        r.1 == run_from(outcomes.deep_view(), Seq::<u8>::empty(), crate::events::init_state()).ok,
{
    let ghost om = outcomes.deep_view();
    let ghost full = run_from(om, Seq::<u8>::empty(), crate::events::init_state());
    let mut session = StreamSession::new();
    let mut events: Vec<StreamEvent> = Vec::new();
    let ghost mut done_events: Seq<EventModel> = Seq::empty();
    let n = outcomes.len();
    let mut i: usize = 0;
    proof {
        assert(om.skip(0) =~= om);
        assert(events.deep_view() =~= Seq::<EventModel>::empty());
    }
    while i < n
        invariant
            i <= n,
            n == outcomes@.len(),
            om == outcomes.deep_view(),
            om.len() == n,
            forall|t: int| 0 <= t < n ==> om[t] == outcomes@[t].deep_view(),
            session.wf(),
            !session.ended,
            full == run_from(om, Seq::<u8>::empty(), crate::events::init_state()),
            events.deep_view() == done_events,
            full.events == done_events + run_from(
                om.skip(i as int),
                session.model().buf,
                session.model().st,
            ).events,
            full.ok == run_from(om.skip(i as int), session.model().buf, session.model().st).ok,
        decreases n - i,
    {
        let ghost rest = om.skip(i as int);
        let ghost cur_buf = session.model().buf;
        let ghost cur_st = session.model().st;
        proof {
            assert(rest[0] == om[i as int]);
            assert(rest.drop_first() =~= om.skip(i + 1));
        }
        let outcome = &outcomes[i];
        match outcome {
            ChunkOutcome::Data(bytes) => {
                if bytes.len() == 0 {
                    i = i + 1;
                    continue ;
                }
                let ghost d = drain_model(cur_buf + bytes@, cur_st);
                let fed = session.feed_data(bytes.as_slice());
                match fed {
                    FeedResult::Rolling(evs) => {
                        let ghost old_done = done_events;
                        append_events(&mut events, evs);
                        proof {
                            done_events = done_events + d.events;
                            assert(events.deep_view() =~= done_events);
                            assert(full.events == done_events + run_from(
                                om.skip(i + 1),
                                session.model().buf,
                                session.model().st,
                            ).events);
                        }
                    },
                    FeedResult::Ended(evs) => {
                        append_events(&mut events, evs);
                        let closing = session.finish_event();
                        let ghost cm = closing.deep_view();
                        events.push(closing);
                        proof {
                            assert(events.deep_view() =~~= (done_events + d.events).push(cm));
                            assert((done_events + d.events).push(cm) =~= done_events + (d.events
                                + seq![EventModel::Done { finish_reason: d.st.finish }]));
                            assert(events.deep_view() =~= full.events);
                        }
                        return (events, true);
                    },
                    FeedResult::Broken(evs, _msg) => {
                        append_events(&mut events, evs);
                        proof {
                            assert(events.deep_view() =~= done_events + d.events);
                            assert(events.deep_view() =~= full.events);
                        }
                        return (events, false);
                    },
                }
            },
            ChunkOutcome::End => {
                let closing = session.finish_event();
                let ghost cm = closing.deep_view();
                events.push(closing);
                proof {
                    assert(events.deep_view() =~~= done_events.push(cm));
                    assert(done_events.push(cm) =~= done_events + seq![
                        EventModel::Done { finish_reason: cur_st.finish },
                    ]);
                    assert(events.deep_view() =~= full.events);
                }
                return (events, true);
            },
            ChunkOutcome::TimedOut => {
                let ev = timeout_event();
                let ghost em = ev.deep_view();
                events.push(ev);
                proof {
                    assert(events.deep_view() =~~= done_events.push(em));
                    assert(done_events.push(em) =~= done_events + seq![
                        EventModel::Error { message: timeout_message() },
                    ]);
                    assert(events.deep_view() =~= full.events);
                }
                return (events, false);
            },
            ChunkOutcome::Failed(m) => {
                let ev = transport_event(m.as_str());
                let ghost em = ev.deep_view();
                events.push(ev);
                proof {
                    assert(events.deep_view() =~~= done_events.push(em));
                    assert(done_events.push(em) =~= done_events + seq![
                        EventModel::Error { message: transport_message(m@) },
                    ]);
                    assert(events.deep_view() =~= full.events);
                }
                return (events, false);
            },
        }
        i = i + 1;
    }
    let closing = session.finish_event();
    let ghost cm = closing.deep_view();
    events.push(closing);
    proof {
        assert(om.skip(n as int) =~= Seq::<OutcomeModel>::empty());
        assert(events.deep_view() =~~= done_events.push(cm));
        assert(done_events.push(cm) =~= done_events + seq![
            EventModel::Done { finish_reason: session.model().st.finish },
        ]);
        assert(events.deep_view() =~= full.events);
    }
    (events, true)
}

/// Move a batch of events to the back of the emission list.
fn append_events(events: &mut Vec<StreamEvent>, batch: Vec<StreamEvent>)
    ensures
        final(events).deep_view() == old(events).deep_view() + batch.deep_view(),
{
    let ghost base = events.deep_view();
    let ghost bm = batch.deep_view();
    let n = batch.len();
    let mut j: usize = 0;
    let mut batch = batch;
    let ghost mut taken: Seq<EventModel> = Seq::empty();
    while batch.len() > 0
        invariant
            events.deep_view() == base + taken,
            taken + batch.deep_view() == bm,
        decreases batch@.len(),
    {
        let ghost bv = batch.deep_view();
        let ev = batch.remove(0);
        let ghost em = ev.deep_view();
        proof {
            assert(batch.deep_view() =~~= bv.drop_first());
            assert(em == bv[0]);
        }
        let ghost edv = events.deep_view();
        events.push(ev);
        proof {
            assert(events.deep_view() =~~= edv.push(em));
            taken = taken.push(em);
            assert(events.deep_view() =~= base + taken);
            assert(taken + batch.deep_view() =~= bm);
        }
    }
    proof {
        assert(batch.deep_view() =~~= Seq::<EventModel>::empty());
        assert(taken =~= bm);
        assert(final(events).deep_view() =~= base + bm);
    }
}

/// A canonical event that closes a request.
pub open spec fn is_terminal(ev: EventModel) -> bool {
    ev is Done || ev is Error
}

/// A drain that broke emitted at least one event, the last an error.
pub proof fn lemma_drain_broken_error(buf: Seq<u8>, st: StateModel)
    requires
        drain_model(buf, st).status is Broken,
    ensures
        drain_model(buf, st).events.len() >= 1,
        drain_model(buf, st).events.last() is Error,
    decreases buf.len(),
{
    lemma_first_crlf2(buf);
    lemma_first_lf2(buf);
    match frame_split(buf) {
        None => {},
        Some(split) => {
            let frame = split.0;
            let rest = split.1;
            if !vstd::utf8::valid_utf8(frame) {
            } else {
                match sse_parse(vstd::utf8::decode_utf8(frame)) {
                    None => {
                        lemma_drain_broken_error(rest, st);
                    },
                    Some(parsed) => match oauth_step(st, parsed.0, parsed.1) {
                        None => {},
                        Some(sr) => {
                            let st1 = StateModel { pending: Seq::empty(), ..sr.st };
                            if sr.out matches Some(ev2) && ev2 is Done {
                            } else {
                                lemma_drain_broken_error(rest, st1);
                                let next = drain_model(rest, st1);
                                let emitted_now = (match sr.out {
                                    Some(ev) => seq![ev],
                                    None => Seq::<EventModel>::empty(),
                                }) + sr.st.pending;
                                assert((emitted_now + next.events).last() == next.events.last());
                            }
                        },
                    },
                }
            }
        },
    }
}

/// Every request closes with exactly one terminal event: the canonical
/// sequence is never empty, its last element is `Done` or `Error`, and it
/// ends in `Done` exactly when the request succeeded.
pub proof fn lemma_exactly_one_terminal(outs: Seq<OutcomeModel>, buf: Seq<u8>, st: StateModel)
    ensures
        run_from(outs, buf, st).events.len() >= 1,
        is_terminal(run_from(outs, buf, st).events.last()),
        run_from(outs, buf, st).ok == (run_from(outs, buf, st).events.last() is Done),
    decreases outs.len(),
{
    if outs.len() == 0 {
    } else {
        match outs[0] {
            OutcomeModel::Data(bytes) => {
                if bytes.len() == 0 {
                    lemma_exactly_one_terminal(outs.drop_first(), buf, st);
                } else {
                    let d = drain_model(buf + bytes, st);
                    match d.status {
                        DrainStatus::Broken => {
                            lemma_drain_broken_error(buf + bytes, st);
                        },
                        DrainStatus::Ended => {
                            let closing = EventModel::Done { finish_reason: d.st.finish };
                            assert((d.events + seq![closing]).last() == closing);
                        },
                        DrainStatus::Rolling => {
                            lemma_exactly_one_terminal(outs.drop_first(), d.buf, d.st);
                            let r = run_from(outs.drop_first(), d.buf, d.st);
                            assert((d.events + r.events).last() == r.events.last());
                        },
                    }
                }
            },
            OutcomeModel::End => {},
            OutcomeModel::TimedOut => {},
            OutcomeModel::Failed(m) => {},
        }
    }
}

/// A read that timed out ends the request at once: one timeout error event
/// and a failed result, whatever would have followed.
pub proof fn lemma_timeout_terminates(outs: Seq<OutcomeModel>, buf: Seq<u8>, st: StateModel)
    requires
        outs.len() > 0,
        outs[0] is TimedOut,
    ensures
        run_from(outs, buf, st) == (RunResult {
            events: seq![EventModel::Error { message: timeout_message() }],
            ok: false,
            log: Seq::<Seq<char>>::empty(),
        }),
{
}

/// What a drain logs: tool calls not yet emitted before it, each at most
/// once, all marked emitted after it; the dedup set only ever grows.
pub proof fn lemma_drain_log(buf: Seq<u8>, st: StateModel)
    ensures
        ({
            let d = drain_model(buf, st);
            &&& d.log.no_duplicates()
            &&& forall|t: int|
                0 <= t < d.log.len() ==> !st.emitted.contains(d.log[t]) && d.st.emitted.contains(
                    d.log[t],
                )
            &&& forall|k: Seq<char>| st.emitted.contains(k) ==> d.st.emitted.contains(k)
        }),
    decreases buf.len(),
{
    lemma_first_crlf2(buf);
    lemma_first_lf2(buf);
    match frame_split(buf) {
        None => {},
        Some(split) => {
            let frame = split.0;
            let rest = split.1;
            if !vstd::utf8::valid_utf8(frame) {
            } else {
                match sse_parse(vstd::utf8::decode_utf8(frame)) {
                    None => {
                        lemma_drain_log(rest, st);
                    },
                    Some(parsed) => match oauth_step(st, parsed.0, parsed.1) {
                        None => {},
                        Some(sr) => {
                            crate::codex::lemma_step_log(st, parsed.0, parsed.1);
                            let st1 = StateModel { pending: Seq::empty(), ..sr.st };
                            if sr.out matches Some(ev2) && ev2 is Done {
                            } else {
                                lemma_drain_log(rest, st1);
                                let next = drain_model(rest, st1);
                                let d = drain_model(buf, st);
                                assert(d.log =~= sr.log + next.log);
                                assert forall|t: int|
                                    0 <= t < d.log.len() implies !st.emitted.contains(d.log[t])
                                    && d.st.emitted.contains(d.log[t]) by {
                                    if t < sr.log.len() {
                                        assert(d.log[t] == sr.log[t]);
                                        assert(sr.st.emitted.contains(sr.log[t]));
                                        assert(st1.emitted.contains(sr.log[t]));
                                    } else {
                                        assert(d.log[t] == next.log[t - sr.log.len()]);
                                        assert(!st1.emitted.contains(d.log[t]));
                                    }
                                }
                                assert forall|i: int, j: int|
                                    0 <= i < d.log.len() && 0 <= j < d.log.len() && i
                                    != j implies d.log[i] != d.log[j] by {
                                    let sl = sr.log.len() as int;
                                    if i < sl && j < sl {
                                        assert(d.log[i] == sr.log[i] && d.log[j] == sr.log[j]);
                                    } else if i < sl && j >= sl {
                                        assert(d.log[i] == sr.log[i]);
                                        assert(d.log[j] == next.log[j - sl]);
                                        assert(st1.emitted.contains(sr.log[i]));
                                        assert(!st1.emitted.contains(next.log[j - sl]));
                                    } else if i >= sl && j < sl {
                                        assert(d.log[j] == sr.log[j]);
                                        assert(d.log[i] == next.log[i - sl]);
                                        assert(st1.emitted.contains(sr.log[j]));
                                        assert(!st1.emitted.contains(next.log[i - sl]));
                                    } else {
                                        assert(d.log[i] == next.log[i - sl]);
                                        assert(d.log[j] == next.log[j - sl]);
                                        assert(next.log[i - sl] != next.log[j - sl]);
                                    }
                                }
                                assert(d.log.no_duplicates());
                            }
                        },
                    },
                }
            }
        },
    }
}

/// At most one tool-call emission per upstream item id, over a whole
/// request: however the frames arrive and whatever they hold, no item id is
/// logged twice, and every logged id was not yet in the dedup set when the
/// request began.
pub proof fn lemma_at_most_one_tool_call(outs: Seq<OutcomeModel>, buf: Seq<u8>, st: StateModel)
    ensures
        run_from(outs, buf, st).log.no_duplicates(),
        forall|t: int|
            0 <= t < run_from(outs, buf, st).log.len() ==> !st.emitted.contains(
                run_from(outs, buf, st).log[t],
            ),
    decreases outs.len(),
{
    if outs.len() == 0 {
    } else {
        match outs[0] {
            OutcomeModel::Data(bytes) => {
                if bytes.len() == 0 {
                    lemma_at_most_one_tool_call(outs.drop_first(), buf, st);
                } else {
                    lemma_drain_log(buf + bytes, st);
                    let d = drain_model(buf + bytes, st);
                    match d.status {
                        DrainStatus::Broken => {},
                        DrainStatus::Ended => {},
                        DrainStatus::Rolling => {
                            lemma_at_most_one_tool_call(outs.drop_first(), d.buf, d.st);
                            let r = run_from(outs.drop_first(), d.buf, d.st);
                            let whole = run_from(outs, buf, st);
                            assert(whole.log =~= d.log + r.log);
                            assert forall|t: int|
                                0 <= t < whole.log.len() implies !st.emitted.contains(
                                whole.log[t],
                            ) by {
                                if t < d.log.len() {
                                    assert(whole.log[t] == d.log[t]);
                                } else {
                                    assert(whole.log[t] == r.log[t - d.log.len()]);
                                    assert(!d.st.emitted.contains(whole.log[t]));
                                }
                            }
                            assert forall|i: int, j: int|
                                0 <= i < whole.log.len() && 0 <= j < whole.log.len() && i
                                != j implies whole.log[i] != whole.log[j] by {
                                let dl = d.log.len() as int;
                                if i < dl && j < dl {
                                    assert(whole.log[i] == d.log[i] && whole.log[j] == d.log[j]);
                                } else if i < dl && j >= dl {
                                    assert(whole.log[i] == d.log[i]);
                                    assert(whole.log[j] == r.log[j - dl]);
                                    assert(d.st.emitted.contains(d.log[i]));
                                    assert(!d.st.emitted.contains(r.log[j - dl]));
                                } else if i >= dl && j < dl {
                                    assert(whole.log[j] == d.log[j]);
                                    assert(whole.log[i] == r.log[i - dl]);
                                    assert(d.st.emitted.contains(d.log[j]));
                                    assert(!d.st.emitted.contains(r.log[i - dl]));
                                } else {
                                    assert(whole.log[i] == r.log[i - dl]);
                                    assert(whole.log[j] == r.log[j - dl]);
                                    assert(r.log[i - dl] != r.log[j - dl]);
                                }
                            }
                            assert(whole.log.no_duplicates());
                        },
                    }
                }
            },
            OutcomeModel::End => {},
            OutcomeModel::TimedOut => {},
            OutcomeModel::Failed(m) => {},
        }
    }
}

} // verus!

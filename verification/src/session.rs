//! Session state machine: the core reducer over decoded envelopes.
//!
//! The session owns the roster (a snapshot wholly replaced by each `Users`
//! envelope) and the append-only message log.  It never performs I/O: the
//! caller feeds it inbound frames and hands its outbound envelopes to the
//! transport.

use vstd::prelude::*;
use vstd::string::StrSliceExecFns;
use vstd::string::StringExecFns;

use crate::codec::decode;
use crate::codec::decode_chat;
use crate::codec::encode_chat;
use crate::codec::spec_decode;
use crate::codec::spec_decode_chat;
use crate::codec::spec_encode_chat;
use crate::codec::ChatMessage;
use crate::codec::ChatView;
use crate::codec::DecodeError;
use crate::codec::Envelope;
use crate::codec::EnvelopeView;
use crate::codec::MsgTypes;
use crate::view::avatar_url;
use crate::view::spec_avatar_url;

verus! {

broadcast use vstd::string::group_string_axioms;

/// One online participant, with the avatar URL derived from the name.
#[derive(Debug)]
pub struct UserProfile {
    pub name: String,
    pub avatar_url: String,
}

/// Mathematical model of a [`UserProfile`].
pub struct ProfileView {
    pub name: Seq<char>,
    pub avatar_url: Seq<char>,
}

impl View for UserProfile {
    type V = ProfileView;

    open spec fn view(&self) -> ProfileView {
        ProfileView { name: self.name@, avatar_url: self.avatar_url@ }
    }
}

/// Where the session stands: waiting to send its registration, or live.
#[derive(Clone, Copy, PartialEq, Eq, Structural, Debug)]
pub enum ConnState {
    Registering,
    Active,
}

/// The session's whole local state.
#[derive(Debug)]
pub struct SessionState {
    pub roster: Vec<UserProfile>,
    pub log: Vec<ChatMessage>,
    pub self_name: String,
    pub conn: ConnState,
}

/// Mathematical model of a [`SessionState`].
pub struct SessionView {
    pub roster: Seq<ProfileView>,
    pub log: Seq<ChatView>,
    pub self_name: Seq<char>,
    pub conn: ConnState,
}

impl View for SessionState {
    type V = SessionView;

    open spec fn view(&self) -> SessionView {
        SessionView {
            roster: self.roster@.map_values(|u: UserProfile| u@),
            log: self.log@.map_values(|m: ChatMessage| m@),
            self_name: self.self_name@,
            conn: self.conn,
        }
    }
}

/// The roster derived from a snapshot list of names: order preserved,
/// duplicates preserved, avatar derived from each name.
pub open spec fn roster_of(names: Seq<Seq<char>>) -> Seq<ProfileView> {
    names.map_values(|n: Seq<char>| ProfileView { name: n, avatar_url: spec_avatar_url(n) })
}

/// The registration envelope carrying the chosen name.
pub open spec fn register_envelope(name: Seq<char>) -> EnvelopeView {
    EnvelopeView { kind: MsgTypes::Register, data: Some(name), data_list: None }
}

/// The outbound envelope for one submitted message: the chat payload is
/// nested, encoded, inside the envelope's `data` field.
pub open spec fn message_envelope(sender: Seq<char>, text: Seq<char>) -> EnvelopeView {
    EnvelopeView {
        kind: MsgTypes::Message,
        data: Some(spec_encode_chat(sender, text)),
        data_list: None,
    }
}

/// A `Users` envelope carrying a roster snapshot.
pub open spec fn users_envelope(names: Seq<Seq<char>>) -> EnvelopeView {
    EnvelopeView { kind: MsgTypes::Users, data: None, data_list: Some(names) }
}

/// One reducer step: what a decoded envelope does to the state, and what the
/// caller is told.
///
/// - `Users` replaces the roster wholesale with the snapshot (a missing list
///   is the empty snapshot); the log is untouched.
/// - `Message` appends the decoded nested payload to the log; a missing or
///   undecodable payload changes nothing and reports the decode error.
/// - `Register` is consumed silently.
pub open spec fn spec_step(st: SessionView, e: EnvelopeView) -> (SessionView, Result<
    (),
    DecodeError,
>) {
    match e.kind {
        MsgTypes::Users => (
            SessionView {
                roster: roster_of(
                    match e.data_list {
                        Some(l) => l,
                        None => Seq::empty(),
                    },
                ),
                log: st.log,
                self_name: st.self_name,
                conn: st.conn,
            },
            Ok(()),
        ),
        MsgTypes::Message => match e.data {
            None => (st, Err(DecodeError::Malformed)),
            Some(p) => match spec_decode_chat(p) {
                Ok(m) => (
                    SessionView {
                        roster: st.roster,
                        log: st.log.push(m),
                        self_name: st.self_name,
                        conn: st.conn,
                    },
                    Ok(()),
                ),
                Err(er) => (st, Err(er)),
            },
        },
        MsgTypes::Register => (st, Ok(())),
    }
}

impl SessionState {
    /// Creates a session for the given name, with empty roster and log, in
    /// the `Registering` state, together with the registration envelope the
    /// caller must hand to the transport.
    pub fn start(self_name: &str) -> (r: (SessionState, Envelope))
        ensures
            r.0@ == (SessionView {
                roster: Seq::empty(),
                log: Seq::empty(),
                self_name: self_name@,
                conn: ConnState::Registering,
            }),
            r.1@ == register_envelope(self_name@),
    {
        let st = SessionState {
            roster: Vec::new(),
            log: Vec::new(),
            self_name: String::from_str(self_name),
            conn: ConnState::Registering,
        };
        let env = Envelope {
            kind: MsgTypes::Register,
            data: Some(String::from_str(self_name)),
            data_list: None,
        };
        proof {
            assert(st.roster@.map_values(|u: UserProfile| u@) =~= Seq::<ProfileView>::empty());
            assert(st.log@.map_values(|m: ChatMessage| m@) =~= Seq::<ChatView>::empty());
        }
        (st, env)
    }

    /// Records that the registration frame was handed to the transport.  The
    /// transition is optimistic: it is taken when the send is attempted,
    /// whether or not the send succeeded.
    pub fn registration_sent(&mut self)
        ensures
            final(self)@ == (SessionView {
                roster: old(self)@.roster,
                log: old(self)@.log,
                self_name: old(self)@.self_name,
                conn: ConnState::Active,
            }),
    {
        self.conn = ConnState::Active;
    }

    /// The core reducer: applies one decoded envelope, as `spec_step` says.
    /// No input is fatal: a bad nested payload is reported and dropped.
    pub fn apply_inbound(&mut self, env: &Envelope) -> (r: Result<(), DecodeError>)
        ensures
            final(self)@ == spec_step(old(self)@, env@).0,
            r == spec_step(old(self)@, env@).1,
    {
        match env.kind {
            MsgTypes::Users => {
                let mut roster: Vec<UserProfile> = Vec::new();
                match &env.data_list {
                    Some(l) => {
                        let ghost names = l@.map_values(|s: String| s@);
                        let mut i: usize = 0;
                        while i < l.len()
                            invariant
                                names == l@.map_values(|s: String| s@),
                                i <= l.len(),
                                roster@.len() == i,
                                forall|k: int|
                                    0 <= k < i ==> (#[trigger] roster@[k])@ == (ProfileView {
                                        name: names[k],
                                        avatar_url: spec_avatar_url(names[k]),
                                    }),
                            decreases l.len() - i,
                        {
                            let name = l[i].clone();
                            let av = avatar_url(l[i].as_str());
                            proof {
                                assert(names[i as int] == l@[i as int]@);
                            }
                            roster.push(UserProfile { name, avatar_url: av });
                            i = i + 1;
                        }
                        proof {
                            assert(roster@.map_values(|u: UserProfile| u@) =~= roster_of(names));
                        }
                        self.roster = roster;
                    },
                    None => {
                        proof {
                            assert(roster@.map_values(|u: UserProfile| u@) =~= roster_of(
                                Seq::empty(),
                            ));
                        }
                        self.roster = roster;
                    },
                }
                Ok(())
            },
            MsgTypes::Message => {
                match &env.data {
                    None => Err(DecodeError::Malformed),
                    Some(p) => match decode_chat(p.as_str()) {
                        Ok(m) => {
                            let ghost old_log = self.log@.map_values(|x: ChatMessage| x@);
                            let ghost mv = m@;
                            self.log.push(m);
                            proof {
                                assert(self.log@.map_values(|x: ChatMessage| x@) =~= old_log.push(
                                    mv,
                                ));
                            }
                            Ok(())
                        },
                        Err(er) => Err(er),
                    },
                }
            },
            MsgTypes::Register => Ok(()),
        }
    }

    /// Decodes one raw inbound frame and applies it.  A frame that does not
    /// decode leaves roster and log exactly as they were and reports why.
    pub fn apply_frame(&mut self, raw: &str) -> (r: Result<(), DecodeError>)
        ensures
            match spec_decode(raw@) {
                Ok(e) => final(self)@ == spec_step(old(self)@, e).0 && r == spec_step(
                    old(self)@,
                    e,
                ).1,
                Err(er) => final(self)@ == old(self)@ && r == Err::<(), DecodeError>(er),
            },
    {
        match decode(raw) {
            Ok(env) => self.apply_inbound(&env),
            Err(er) => Err(er),
        }
    }

    /// Builds the outbound envelope for one submitted message.  Empty input
    /// is rejected: no envelope is produced.  The state is never touched: the
    /// sender's own message reaches the log only through the inbound round
    /// trip, like everyone else's.
    pub fn submit(&self, text: &str) -> (r: Option<Envelope>)
        ensures
            match r {
                None => text@.len() == 0,
                Some(env) => text@.len() > 0 && env@ == message_envelope(self@.self_name, text@),
            },
    {
        if text.unicode_len() == 0 {
            return None;
        }
        let payload = encode_chat(self.self_name.as_str(), text);
        Some(Envelope { kind: MsgTypes::Message, data: Some(payload), data_list: None })
    }
}

/// Applies a sequence of decoded envelopes in arrival order.
pub open spec fn apply_seq(st: SessionView, es: Seq<EnvelopeView>) -> SessionView
    decreases es.len(),
{
    if es.len() == 0 {
        st
    } else {
        apply_seq(spec_step(st, es[0]).0, es.skip(1))
    }
}

/// The chosen name and the connection stage are never altered by inbound
/// envelopes: the name is set once at `start`, and only `registration_sent`
/// moves the stage.
pub proof fn lemma_step_keeps_identity(st: SessionView, e: EnvelopeView)
    ensures
        spec_step(st, e).0.self_name == st.self_name,
        spec_step(st, e).0.conn == st.conn,
{
}

/// Roster replacement: after two `Users` snapshots the roster is exactly the
/// second snapshot's roster, never an accumulation of both.
pub proof fn lemma_roster_replacement(st: SessionView, l1: Seq<Seq<char>>, l2: Seq<Seq<char>>)
    ensures
        spec_step(spec_step(st, users_envelope(l1)).0, users_envelope(l2)).0.roster == roster_of(
            l2,
        ),
{
}

/// Log append-only: no step ever mutates or removes an existing log entry;
/// the old log is always a prefix of the new one.
pub proof fn lemma_log_append_only(st: SessionView, e: EnvelopeView)
    ensures
        spec_step(st, e).0.log.len() >= st.log.len(),
        spec_step(st, e).0.log.take(st.log.len() as int) == st.log,
{
    assert(spec_step(st, e).0.log.take(st.log.len() as int) =~= st.log);
}

/// The nested payload a `Message` envelope carries, decoded.
pub open spec fn payload_of(e: EnvelopeView) -> ChatView {
    spec_decode_chat(e.data->0)->Ok_0
}

/// A `Message` envelope whose payload decodes.
pub open spec fn decodable_message(e: EnvelopeView) -> bool {
    e.kind == MsgTypes::Message && e.data is Some && spec_decode_chat(e.data->0) is Ok
}

/// Unknown-sender safety: a decodable `Message` is appended to the log and
/// reported as success whatever the roster holds (no roster condition
/// appears here at all), and the roster itself is untouched.
pub proof fn lemma_unknown_sender_appended(st: SessionView, e: EnvelopeView)
    requires
        decodable_message(e),
    ensures
        spec_step(st, e).0.log == st.log.push(payload_of(e)),
        spec_step(st, e).0.roster == st.roster,
        spec_step(st, e).1 == Ok::<(), DecodeError>(()),
{
}

/// Log arrival order: N decodable `Message` envelopes append exactly their
/// N payloads, in arrival order, after the existing log.
pub proof fn lemma_log_arrival_order(st: SessionView, es: Seq<EnvelopeView>)
    requires
        forall|i: int| 0 <= i < es.len() ==> decodable_message(#[trigger] es[i]),
    ensures
        apply_seq(st, es).log == st.log + es.map_values(|e: EnvelopeView| payload_of(e)),
        apply_seq(st, es).log.len() == st.log.len() + es.len(),
    decreases es.len(),
{
    let pays = es.map_values(|e: EnvelopeView| payload_of(e));
    if es.len() == 0 {
        assert(st.log + pays =~= st.log);
    } else {
        let st1 = spec_step(st, es[0]).0;
        assert(st1.log == st.log.push(payload_of(es[0])));
        assert(forall|i: int|
            0 <= i < es.skip(1).len() ==> decodable_message(#[trigger] es.skip(1)[i]));
        lemma_log_arrival_order(st1, es.skip(1));
        assert(st.log.push(payload_of(es[0])) + es.skip(1).map_values(
            |e: EnvelopeView| payload_of(e),
        ) =~= st.log + pays);
    }
}

} // verus!

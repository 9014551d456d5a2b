//! The session: the open handshake's decisions and the generate step.
//!
//! The session logic is a small state machine over the transport's events.
//! The caller's I/O layer connects, sends [`InferenceSession::open_frame`],
//! reads exactly one reply frame, and hands the outcome to
//! [`InferenceSession::open`] as a [`HandshakeEvent`]; the returned session
//! then turns each parameter set into one outbound generate frame. Reading
//! the stream of responses that follow a generate frame stays with the
//! caller, one frame at a time, through [`Response::decode`].

use vstd::prelude::*;
use crate::codec::spec_generate_frame;
use crate::codec::spec_open_frame;
use crate::codec::spec_parse_response;
use crate::codec::encode_generate;
use crate::codec::encode_open_session;
use crate::codec::parse_response_frame;
use crate::model::Model;
use crate::params::GenerateParams;

verus! {

/// One inbound frame of a generation stream: the success flag, one output
/// chunk, and the stop flag that ends the stream of the current request.
#[derive(Debug, Clone)]
pub struct Response {
    pub ok: bool,
    pub outputs: String,
    pub stop: bool,
}

impl Response {
    /// Decodes one stream response frame. Yields a response exactly when the
    /// frame parses and carries both the output chunk and the stop flag;
    /// a malformed frame yields nothing and must end the in-flight read.
    pub fn decode(s: &str) -> (r: Option<Response>)
        ensures
            match spec_parse_response(s@) {
                Some(f) => match (f.outputs, f.stop) {
                    (Some(o), Some(st)) => r matches Some(resp) && resp.ok == f.ok
                        && resp.outputs@ == o && resp.stop == st,
                    _ => r is None,
                },
                None => r is None,
            },
    {
        match parse_response_frame(s) {
            None => None,
            Some(f) => match (f.outputs, f.stop) {
                (Some(o), Some(st)) => Some(Response { ok: f.ok, outputs: o, stop: st }),
                _ => None,
            },
        }
    }
}

/// Why an open attempt failed.
#[derive(Debug)]
pub enum OpenInferenceSessionError {
    /// The channel itself failed: connect, send, or the handshake read.
    TransportError { detail: String },
    /// The remote endpoint rejected the open request; `traceback` carries its
    /// diagnostic text (empty when the reply gave none).
    ApiError { traceback: String },
    /// The handshake reply was not a well-formed response frame.
    ProtocolDecodeError { frame: String },
}

/// What the transport did during the open handshake, as reported by the
/// caller's I/O layer: either some stage of connect/send/read failed, or one
/// reply frame arrived.
#[derive(Debug)]
pub enum HandshakeEvent {
    TransportFailed { detail: String },
    Reply { frame: String },
}

/// An open, handshake-established generation context. Owns no transport
/// itself: the caller's I/O layer holds the channel and feeds frames both
/// ways; the session fixes what those frames are.
#[derive(Debug)]
pub struct InferenceSession {
    /// The maximum total length the session was opened with.
    pub max_length: u32,
    /// The model the session was opened for, when one was named.
    pub model: Option<Model>,
}

impl InferenceSession {
    /// The open-session frame to send first on a fresh connection.
    pub fn open_frame(max_length: u32, model: &Option<Model>) -> (s: String)
        ensures
            s@ == spec_open_frame(max_length, *model),
    {
        encode_open_session(max_length, model)
    }

    /// Completes the open handshake from the transport's outcome.
    ///
    /// A transport failure at any stage surfaces as a transport error and
    /// never as an api error. A reply whose `ok` flag (read as a JSON
    /// boolean) is true opens the session; a reply with `ok` false is the
    /// remote rejection, carried as an api error with the reply's traceback;
    /// a reply that does not parse fails the open attempt as a decode error.
    pub fn open(max_length: u32, model: Option<Model>, reply: HandshakeEvent) -> (r: Result<
        InferenceSession,
        OpenInferenceSessionError,
    >)
        ensures
            (reply matches HandshakeEvent::TransportFailed { detail } ==> (r matches Err(
                OpenInferenceSessionError::TransportError { detail: d },
            ) && d == detail)),
            (reply matches HandshakeEvent::Reply { frame } ==> (match spec_parse_response(
                frame@,
            ) {
                Some(f) => {
                    &&& (f.ok ==> (r matches Ok(sess) && sess.max_length == max_length
                        && sess.model == model))
                    &&& (!f.ok ==> (r matches Err(
                        OpenInferenceSessionError::ApiError { traceback },
                    ) && traceback@ == (match f.traceback {
                        Some(t) => t,
                        None => Seq::<char>::empty(),
                    })))
                },
                None => r matches Err(OpenInferenceSessionError::ProtocolDecodeError { frame: g })
                    && g == frame,
            })),
    {
        match reply {
            HandshakeEvent::TransportFailed { detail } => Err(
                OpenInferenceSessionError::TransportError { detail },
            ),
            HandshakeEvent::Reply { frame } => match parse_response_frame(frame.as_str()) {
                None => Err(OpenInferenceSessionError::ProtocolDecodeError { frame }),
                Some(f) => {
                    if f.ok {
                        Ok(InferenceSession { max_length, model })
                    } else {
                        let traceback = match f.traceback {
                            Some(t) => t,
                            None => String::new(),
                        };
                        Err(OpenInferenceSessionError::ApiError { traceback })
                    }
                },
            },
        }
    }

    /// The generate frame for one parameter set: exactly one outbound frame,
    /// and no read. The session completes this step without waiting for any
    /// response; the caller reads the resulting stream separately, at its own
    /// pace.
    pub fn generate(&self, params: GenerateParams) -> (frame: String)
        requires
            params@.valid(),
        ensures
            frame@ == spec_generate_frame(params@),
    {
        encode_generate(&params)
    }
}

} // verus!

//! Client-side core of a streaming text-generation protocol: generation
//! parameters with their completeness invariant, the wire codec for the
//! protocol's framed JSON messages, and the session handshake decisions.

pub mod codec;
pub mod model;
pub mod params;
pub mod session;
pub mod text;

pub use codec::ResponseFields;
pub use model::Model;
pub use params::Decimal;
pub use params::GenerateParams;
pub use params::GenerateParamsBuilder;
pub use session::HandshakeEvent;
pub use session::InferenceSession;
pub use session::OpenInferenceSessionError;
pub use session::Response;

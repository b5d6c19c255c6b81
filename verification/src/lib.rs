//! Decoders for the FastRPC wire format and for the base64 transport
//! encoding that FastRPC messages usually arrive in.
//!
//! * [`b64`] turns base64 text into raw bytes.
//! * [`frpc`] turns raw bytes into a [`frpc::RPC`] envelope holding a tree
//!   of [`frpc::Value`]s.
//!
//! Every executable function carries a contract that relates its result to
//! a mathematical model: [`b64::decoded`] for base64 and
//! [`wire::wire_message`] for FastRPC. What holds of the models themselves
//! is proved in [`b64_lemmas`], [`value_lemmas`] and [`wire_lemmas`].
pub mod b64;
pub mod b64_lemmas;
pub mod cursor;
pub mod error;
pub mod frpc;
pub mod text;
pub mod value;
pub mod value_lemmas;
pub mod wire;
pub mod wire_lemmas;

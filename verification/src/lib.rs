//! Invoke a routine in another program as if it were a local function
//! call.
//!
//! Arguments and the result cross the process boundary as text in a
//! JSON-compatible encoding: the caller spawns a child with the encoded
//! arguments and a channel address in its environment, and the child
//! writes its encoded result to that local rendezvous channel.  This
//! crate is the verified core of the protocol: the [`Value`] data model,
//! the encoder and the decoder of the interchange text, the drainable
//! [`Args`] sequence the callee reads, and the caller-side planning of
//! one call.  The process and channel I/O around it is ordinary OS work
//! and lives outside the library.

mod args;
mod codec;
mod invoke;
mod laws;
mod text;
mod value;

pub use args::Args;
pub use codec::spec_decode;
pub use invoke::ARGS_ENV;
pub use invoke::CallError;
pub use invoke::CallPlan;
pub use invoke::ForeignFunction;
pub use invoke::SOCKET_ENV;
pub use invoke::socket_path_text;
pub use laws::good;
pub use laws::good_items;
pub use laws::good_str;
pub use laws::lemma_args_round_trip;
pub use laws::lemma_decode_encoded;
pub use laws::lemma_distinct_pids_distinct_paths;
pub use value::encoded;
pub use value::Dec;
pub use value::Val;
pub use value::Value;

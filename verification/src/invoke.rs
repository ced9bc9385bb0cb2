//! Caller-side planning of one foreign invocation: everything about a
//! call that is pure computation — the command tokens, the environment
//! payloads, and the channel address — stated exactly, so the surrounding
//! process and channel I/O has nothing left to decide.

use vstd::prelude::*;
use vstd::string::StringExecFns;
use crate::text::uint_text;
use crate::text::u64_string;
use crate::value::encoded;
use crate::value::items_model;
use crate::value::items_wf;
use crate::value::Val;
use crate::value::Value;

verus! {

/// The environment entry that carries the encoded argument array.
pub const ARGS_ENV: &'static str = "UFFI_ARGS";

/// The environment entry that carries the channel address.
pub const SOCKET_ENV: &'static str = "UFFI_SOCKET";

/// Why a call failed, one variant per failure point of the protocol.
#[derive(Debug, PartialEq, Eq)]
pub enum CallError {
    /// The child process could not be spawned.
    Spawn,
    /// The channel's backing resource could not be created.
    Channel,
    /// No connection arrived on the channel.
    Accept,
    /// Reading the reply stream failed.
    Read,
    /// The accumulated reply text does not decode to a value.
    Decode,
    /// The channel's backing resource could not be removed afterwards.
    Cleanup,
}

/// Identifies the foreign routine to run: its executable name or path.
/// Stateless beyond the name; safe to reuse across calls.
pub struct ForeignFunction<'a> {
    pub name: &'a str,
}

impl<'a> ForeignFunction<'a> {
    /// A handle on the routine with the given invocable name.
    pub fn new(name: &'a str) -> (r: ForeignFunction<'a>)
        ensures
            r.name@ == name@,
    {
        ForeignFunction { name }
    }
}

/// The spec text of the channel address derived from a caller process id.
pub open spec fn socket_path_text(pid: u64) -> Seq<char> {
    seq!['/', 't', 'm', 'p', '/', 'u', 'f', 'f', 'i', '_'] + uint_text(pid as nat)
}

/// Everything the call's I/O needs, laid out in advance: the program, one
/// encoded command-line token per argument, the argument-array text for
/// the environment, and the channel address.
pub struct CallPlan {
    pub program: String,
    pub argv: Vec<String>,
    pub env_args: String,
    pub socket_path: String,
}

impl ForeignFunction<'_> {
    /// Lays out one call of this routine with the given arguments, for a
    /// caller with the given process id: each argument becomes one encoded
    /// token, the whole array one list-shaped text, and the channel
    /// address is derived from the process id alone.
    pub fn plan(&self, args: &[Value], pid: u64) -> (r: CallPlan)
        requires
            items_wf(args@),
        ensures
            r.program@ == self.name@,
            r.argv@.len() == args@.len(),
            forall|k: int|
                0 <= k < args@.len() ==> (#[trigger] r.argv@[k])@ == encoded(args@[k].model()),
            r.env_args@ == encoded(Val::Lst(items_model(args@))),
            r.socket_path@ == socket_path_text(pid),
    {
        let program = String::from_str(self.name);
        let mut argv: Vec<String> = Vec::new();
        let mut k: usize = 0;
        while k < args.len()
            invariant
                k <= args@.len(),
                items_wf(args@),
                argv@.len() == k,
                forall|q: int|
                    0 <= q < k ==> (#[trigger] argv@[q])@ == encoded(args@[q].model()),
            decreases args@.len() - k,
        {
            proof {
                crate::value::lemma_items_wf_index(args@, k as int);
            }
            let v = vstd::slice::slice_index_get(args, k);
            argv.push(v.to_json());
            k = k + 1;
        }
        let env_args = Value::as_json(args);
        let mut socket_path = String::new();
        socket_path.push('/');
        socket_path.push('t');
        socket_path.push('m');
        socket_path.push('p');
        socket_path.push('/');
        socket_path.push('u');
        socket_path.push('f');
        socket_path.push('f');
        socket_path.push('i');
        socket_path.push('_');
        let pid_text = u64_string(pid);
        socket_path.append(pid_text.as_str());
        proof {
            assert(socket_path@ =~= socket_path_text(pid));
        }
        CallPlan { program, argv, env_args, socket_path }
    }

    /// The result of the call, from the bytes the channel carried: the
    /// decoded value, or the decode failure when the text does not parse.
    pub fn finish(&self, reply: &str) -> (r: Result<Value, CallError>)
        ensures
            (r is Ok) == (crate::codec::spec_decode(reply@) is Some),
            r matches Ok(v) ==> crate::codec::spec_decode(reply@) == Some(v.model()) && v.wf(),
            r matches Err(e) ==> e == CallError::Decode,
    {
        match Value::from_json_value(reply) {
            Some(v) => Ok(v),
            None => Err(CallError::Decode),
        }
    }
}

} // verus!

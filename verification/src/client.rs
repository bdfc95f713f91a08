//! The client's decisions: what each kind of response means for output and
//! exit status. Connecting, sending and receiving live outside this crate.

use vstd::prelude::*;
use vstd::string::StringExecFns;

use crate::error::error_message;
use crate::error::KvError;
use crate::protocol::Response;
use crate::protocol::ResponseModel;
use crate::text::str_eq;

verus! {

/// What a client command does once the response is in: what it prints to
/// stdout and stderr, and the process exit code.
pub struct CliOutcome {
    pub stdout: Option<String>,
    pub stderr: Option<String>,
    pub exit_code: i32,
}

/// The outcome of `get KEY`: print the value, or the `Key not found`
/// message, on stdout and exit 0; a server-side error exits nonzero.
pub fn get_outcome(resp: Response) -> (r: CliOutcome)
    ensures
        match resp@ {
            ResponseModel::Success { value: Some(v) } => r.stdout matches Some(s) && s@ == v
                && r.stderr is None && r.exit_code == 0,
            ResponseModel::Success { value: None } => r.stdout matches Some(s) && s@
                == error_message(KvError::KeyNotFound) && r.stderr is None && r.exit_code == 0,
            ResponseModel::Failure { message } => r.stdout is None && (r.stderr matches Some(s)
                && s@ == message) && r.exit_code == -1,
        },
{
    match resp {
        Response::Success(Some(v)) => CliOutcome { stdout: Some(v), stderr: None, exit_code: 0 },
        Response::Success(None) => CliOutcome {
            stdout: Some(KvError::KeyNotFound.message()),
            stderr: None,
            exit_code: 0,
        },
        Response::Failure(m) => CliOutcome { stdout: None, stderr: Some(m), exit_code: -1 },
    }
}

/// The outcome of `set KEY VALUE`: silence and exit 0 on success; a
/// server-side error exits nonzero.
pub fn set_outcome(resp: Response) -> (r: CliOutcome)
    ensures
        match resp@ {
            ResponseModel::Success { value } => r.stdout is None && r.stderr is None && r.exit_code
                == 0,
            ResponseModel::Failure { message } => r.stdout is None && (r.stderr matches Some(s)
                && s@ == message) && r.exit_code == -2,
        },
{
    match resp {
        Response::Success(_) => CliOutcome { stdout: None, stderr: None, exit_code: 0 },
        Response::Failure(m) => CliOutcome { stdout: None, stderr: Some(m), exit_code: -2 },
    }
}

/// The outcome of `rm KEY`: silence and exit 0 on success; the distinguished
/// `Key not found` message goes to stderr with exit code 1; any other
/// server-side error exits with another nonzero code.
pub fn rm_outcome(resp: Response) -> (r: CliOutcome)
    ensures
        match resp@ {
            ResponseModel::Success { value } => r.stdout is None && r.stderr is None && r.exit_code
                == 0,
            ResponseModel::Failure { message } => {
                &&& r.stdout is None
                &&& (r.stderr matches Some(s) && s@ == message)
                &&& r.exit_code == if message == error_message(KvError::KeyNotFound) {
                    1
                } else {
                    -3
                }
            },
        },
{
    match resp {
        Response::Success(_) => CliOutcome { stdout: None, stderr: None, exit_code: 0 },
        Response::Failure(m) => {
            let not_found = KvError::KeyNotFound.message();
            if str_eq(m.as_str(), not_found.as_str()) {
                CliOutcome { stdout: None, stderr: Some(m), exit_code: 1 }
            } else {
                CliOutcome { stdout: None, stderr: Some(m), exit_code: -3 }
            }
        },
    }
}

} // verus!

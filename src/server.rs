//! The request protocol: parsing a request's payload into a command, and
//! framing responses.
//!
//! A request is an eight-byte big-endian payload length p, then p bytes: a
//! one-byte op (get 0, set 1, delete 2, close 255) and the op's body.

use vstd::prelude::*;
use vstd::slice::slice_subrange;
use crate::bytes::{be64_bytes, push_all, push_u64_be};
use crate::object::{key_len, object_len, Key, Object, ObjectError};

verus! {

/// Why a request could not be turned into a command.
#[derive(Debug, Clone, Copy, PartialEq, Eq, Structural)]
pub enum CommandError {
    /// The connection failed.
    Network,
    /// A key or object in the request does not decode.
    Object(ObjectError),
    /// The op is unknown.
    Invalid(u8),
    /// The parameters of a get are malformed.
    Param,
}

/// The get parameter that asks for links to be resolved, up to a depth.
#[derive(Debug)]
pub struct LinkResolution {
    max_resolutions: u8,
}

impl View for LinkResolution {
    type V = u8;

    closed spec fn view(&self) -> u8 {
        self.max_resolutions
    }
}

impl LinkResolution {
    /// Link resolution up to `max_resolutions` links deep.
    pub fn new(max_resolutions: u8) -> (r: LinkResolution)
        ensures
            r@ == max_resolutions,
    {
        LinkResolution { max_resolutions }
    }

    /// The greatest number of links to follow along any path.
    pub fn max_resolutions(&self) -> (r: u8)
        ensures
            r == self@,
    {
        self.max_resolutions
    }

    /// Reads the one-byte value of the parameter from the start of `bytes`.
    pub fn from_bytes(bytes: &[u8]) -> (r: Result<(LinkResolution, &[u8]), CommandError>)
        ensures
            bytes@.len() == 0 ==> r == Err::<(LinkResolution, &[u8]), CommandError>(
                CommandError::Param,
            ),
            bytes@.len() > 0 ==> (r matches Ok((l, rest)) && l@ == bytes@[0] && rest@
                == bytes@.subrange(1, bytes@.len() as int)),
    {
        if bytes.len() == 0 {
            Err(CommandError::Param)
        } else {
            Ok((LinkResolution::new(bytes[0]), slice_subrange(bytes, 1, bytes.len())))
        }
    }
}

/// `count` get parameters at the start of `d`, the last link resolution
/// depth among them (or `acc`) on success. The only parameter type is 1,
/// link resolution, with a one-byte value.
pub open spec fn params_from(d: Seq<u8>, count: nat, acc: Option<u8>) -> Result<
    Option<u8>,
    CommandError,
>
    decreases count,
{
    if count == 0 {
        Ok(acc)
    } else if d.len() == 0 || d[0] != 1 || d.len() < 2 {
        Err(CommandError::Param)
    } else {
        params_from(d.subrange(2, d.len() as int), (count - 1) as nat, Some(d[1]))
    }
}

/// The link resolution depth that a get's parameter block `d` asks for: no
/// block asks for none; a block is a one-byte count, then the parameters.
pub open spec fn params_of(d: Seq<u8>) -> Result<Option<u8>, CommandError> {
    if d.len() == 0 {
        Ok(None)
    } else {
        params_from(d.subrange(1, d.len() as int), d[0] as nat, None)
    }
}

/// The parameters of a get.
#[derive(Debug)]
pub struct GetParams {
    /// Whether, and how deep, links are resolved.
    pub link_resolution: Option<LinkResolution>,
}

impl View for GetParams {
    type V = Option<u8>;

    open spec fn view(&self) -> Option<u8> {
        match self.link_resolution {
            Some(l) => Some(l@),
            None => None,
        }
    }
}

impl GetParams {
    /// Parses a get's parameter block.
    pub fn from_bytes(data: &[u8]) -> (r: Result<GetParams, CommandError>)
        ensures
            match params_of(data@) {
                Ok(p) => r matches Ok(g) && g@ == p,
                Err(e) => r matches Err(e2) && e2 == e,
            },
    {
        let mut params = GetParams { link_resolution: None };
        if data.len() == 0 {
            return Ok(params);
        }
        let num_params = data[0];
        let mut rest = slice_subrange(data, 1, data.len());
        let mut i: u8 = 0;
        while i < num_params
            invariant
                i <= num_params,
                num_params == data@[0],
                data@.len() > 0,
                params_of(data@) == params_from(rest@, (num_params - i) as nat, params@),
            decreases num_params - i,
        {
            if rest.len() == 0 {
                return Err(CommandError::Param);
            }
            if rest[0] != 1 {
                return Err(CommandError::Param);
            }
            let (link_resolution, after) = match LinkResolution::from_bytes(
                slice_subrange(rest, 1, rest.len()),
            ) {
                Ok(x) => x,
                Err(e) => return Err(e),
            };
            proof {
                assert(after@ =~= rest@.subrange(2, rest@.len() as int));
            }
            params.link_resolution = Some(link_resolution);
            rest = after;
            i = i + 1;
        }
        Ok(params)
    }
}

/// A client's command.
#[derive(Debug)]
pub enum Command {
    /// Read the object under a key (body: a key, then optional parameters).
    Get(Key, GetParams),
    /// Store an object under a key (body: a key, then an object).
    Put(Key, Object),
    /// Remove the object under a key (body: a key).
    Delete(Key),
    /// End the connection (no body).
    Close,
}

/// The get op.
pub const GET: u8 = 0;

/// The set op.
pub const SET: u8 = 1;

/// The delete op.
pub const DELETE: u8 = 2;

/// The close op.
pub const CLOSE: u8 = 255;

/// `r` is the outcome that a request with op `t` and body `data` must have.
pub open spec fn command_parsed(t: u8, data: Seq<u8>, r: Result<Command, CommandError>) -> bool {
    if t == GET {
        match key_len(data) {
            Err(e) => r == Err::<Command, CommandError>(CommandError::Object(e)),
            Ok(n) => match params_of(data.subrange(n as int, data.len() as int)) {
                Err(e) => r == Err::<Command, CommandError>(e),
                Ok(p) => r matches Ok(Command::Get(k, g)) && k@ == data.subrange(2, n as int)
                    && g@ == p,
            },
        }
    } else if t == SET {
        match key_len(data) {
            Err(e) => r == Err::<Command, CommandError>(CommandError::Object(e)),
            Ok(n) => match object_len(data.subrange(n as int, data.len() as int)) {
                Err(e) => r == Err::<Command, CommandError>(CommandError::Object(e)),
                Ok(m) => r matches Ok(Command::Put(k, o)) && k@ == data.subrange(2, n as int)
                    && o@ == data.subrange(n as int, (n + m) as int),
            },
        }
    } else if t == DELETE {
        match key_len(data) {
            Err(e) => r == Err::<Command, CommandError>(CommandError::Object(e)),
            Ok(n) => r matches Ok(Command::Delete(k)) && k@ == data.subrange(2, n as int),
        }
    } else if t == CLOSE {
        r matches Ok(Command::Close)
    } else {
        r == Err::<Command, CommandError>(CommandError::Invalid(t))
    }
}

impl Command {
    /// The command with op `command_type` and body `data`.
    pub fn new(command_type: u8, data: Vec<u8>) -> (r: Result<Command, CommandError>)
        ensures
            command_parsed(command_type, data@, r),
    {
        if command_type == GET {
            Command::new_get(data)
        } else if command_type == SET {
            Command::new_set(data)
        } else if command_type == DELETE {
            Command::new_delete(data)
        } else if command_type == CLOSE {
            Ok(Command::Close)
        } else {
            Err(CommandError::Invalid(command_type))
        }
    }

    fn new_get(data: Vec<u8>) -> (r: Result<Command, CommandError>)
        ensures
            match key_len(data@) {
                Err(e) => r == Err::<Command, CommandError>(CommandError::Object(e)),
                Ok(n) => match params_of(data@.subrange(n as int, data@.len() as int)) {
                    Err(e) => r == Err::<Command, CommandError>(e),
                    Ok(p) => r matches Ok(Command::Get(k, g)) && k@ == data@.subrange(2, n as int)
                        && g@ == p,
                },
            },
    {
        let (key, rest) = match Key::new(data.as_slice()) {
            Ok(x) => x,
            Err(e) => return Err(CommandError::Object(e)),
        };
        match GetParams::from_bytes(rest) {
            Ok(params) => Ok(Command::Get(key, params)),
            Err(e) => Err(e),
        }
    }

    fn new_set(data: Vec<u8>) -> (r: Result<Command, CommandError>)
        ensures
            match key_len(data@) {
                Err(e) => r == Err::<Command, CommandError>(CommandError::Object(e)),
                Ok(n) => match object_len(data@.subrange(n as int, data@.len() as int)) {
                    Err(e) => r == Err::<Command, CommandError>(CommandError::Object(e)),
                    Ok(m) => r matches Ok(Command::Put(k, o)) && k@ == data@.subrange(2, n as int)
                        && o@ == data@.subrange(n as int, (n + m) as int),
                },
            },
    {
        let (key, rest) = match Key::new(data.as_slice()) {
            Ok(x) => x,
            Err(e) => return Err(CommandError::Object(e)),
        };
        match Object::deserialize(rest) {
            Ok((object, _)) => {
                proof {
                    let n = key_len(data@)->Ok_0;
                    let m = object_len(rest@)->Ok_0;
                    crate::object::lemma_object_len_bounds(rest@);
                    assert(rest@.subrange(0, m as int) =~= data@.subrange(n as int, (n + m) as int));
                }
                Ok(Command::Put(key, object))
            },
            Err(e) => Err(CommandError::Object(e)),
        }
    }

    fn new_delete(data: Vec<u8>) -> (r: Result<Command, CommandError>)
        ensures
            match key_len(data@) {
                Err(e) => r == Err::<Command, CommandError>(CommandError::Object(e)),
                Ok(n) => r matches Ok(Command::Delete(k)) && k@ == data@.subrange(2, n as int),
            },
    {
        match Key::new(data.as_slice()) {
            Ok((key, _)) => Ok(Command::Delete(key)),
            Err(e) => Err(CommandError::Object(e)),
        }
    }
}

/// The command in a request payload (the bytes after the length): an empty
/// payload is an invalid op.
pub fn parse_request(payload: &[u8]) -> (r: Result<Command, CommandError>)
    ensures
        payload@.len() == 0 ==> r == Err::<Command, CommandError>(CommandError::Invalid(0)),
        payload@.len() > 0 ==> command_parsed(payload@[0], payload@.subrange(1, payload@.len() as int), r),
{
    if payload.len() == 0 {
        return Err(CommandError::Invalid(0));
    }
    let data = vstd::slice::slice_to_vec(slice_subrange(payload, 1, payload.len()));
    Command::new(payload[0], data)
}

/// The response carrying `object`: the length of its encoding, then the
/// encoding.
pub fn encode_response(object: &Object) -> (r: Vec<u8>)
    ensures
        r@ == be64_bytes(object@.len() as u64) + object@,
{
    let enc = object.serialize();
    let mut out: Vec<u8> = Vec::new();
    push_u64_be(&mut out, enc.len() as u64);
    push_all(&mut out, enc.as_slice());
    out
}

/// The error response: a one-byte payload 0xFF.
pub fn error_response() -> (r: Vec<u8>)
    ensures
        r@ == be64_bytes(1) + seq![0xFFu8],
{
    let mut out: Vec<u8> = Vec::new();
    push_u64_be(&mut out, 1);
    out.push(0xFFu8);
    out
}

} // verus!

//! The command model: validating a protocol value as a command, and
//! executing commands against the shared store.
use vstd::prelude::*;
use vstd::utf8::encode_utf8;
use std::collections::VecDeque;

use crate::store::Store;
use crate::text::{spec_upper_seq, upper_eq};
use crate::types::{BulkString, RespValue, SpecValue, views_of, bulks_of, lemma_model_array};

verus! {

/// Why a protocol value was rejected as a command.
#[derive(Clone, Copy, PartialEq, Eq, Structural, Debug)]
pub enum CmdError {
    /// The array was empty, or its first element carries no name.
    NoCommand,
    /// The value is not an array, or the name matches no known command.
    InvalidCommand,
    /// The command needs more arguments than the array holds.
    NotEnoughArguments,
    /// An argument is not a bulk string.
    InvalidArgument,
}

/// The reply text of each command-parse error.
pub open spec fn err_text(e: CmdError) -> Seq<char> {
    match e {
        CmdError::NoCommand => "No command specified"@,
        CmdError::InvalidCommand => "Invalid command"@,
        CmdError::NotEnoughArguments => "Not enough arguments"@,
        CmdError::InvalidArgument => "Invalid argument, must be BulkString"@,
    }
}

impl CmdError {
    /// The error's reply text.
    pub fn message(&self) -> (r: &'static str)
        ensures
            r@ == err_text(*self),
    {
        match self {
            CmdError::NoCommand => "No command specified",
            CmdError::InvalidCommand => "Invalid command",
            CmdError::NotEnoughArguments => "Not enough arguments",
            CmdError::InvalidArgument => "Invalid argument, must be BulkString",
        }
    }
}

/// A recognized client command, each variant carrying exactly the
/// arguments the operation needs.
#[derive(Debug)]
pub enum RedisCmd {
    Ping(Option<BulkString>),
    Get(BulkString),
    SetValue(BulkString, BulkString),
    Append(BulkString, BulkString),
    Keys(BulkString),
    Exists(BulkString),
    Command,
}

/// The mathematical model of a command: payloads as byte sequences.
pub enum SpecCmd {
    Ping(Option<Seq<u8>>),
    Get(Seq<u8>),
    SetValue(Seq<u8>, Seq<u8>),
    Append(Seq<u8>, Seq<u8>),
    Keys(Seq<u8>),
    Exists(Seq<u8>),
    Command,
}

impl View for RedisCmd {
    type V = SpecCmd;

    open spec fn view(&self) -> SpecCmd {
        match self {
            RedisCmd::Ping(p) => SpecCmd::Ping(
                match p {
                    Option::Some(x) => Option::Some(x@),
                    Option::None => Option::None,
                },
            ),
            RedisCmd::Get(k) => SpecCmd::Get(k@),
            RedisCmd::SetValue(k, v) => SpecCmd::SetValue(k@, v@),
            RedisCmd::Append(k, v) => SpecCmd::Append(k@, v@),
            RedisCmd::Keys(p) => SpecCmd::Keys(p@),
            RedisCmd::Exists(k) => SpecCmd::Exists(k@),
            RedisCmd::Command => SpecCmd::Command,
        }
    }
}

/// The name a value offers as a command name: a bulk string's bytes, or a
/// simple string's text as bytes. Other values name nothing.
pub open spec fn spec_name(v: SpecValue) -> Option<Seq<u8>> {
    match v {
        SpecValue::Bulk(b) => Option::Some(b),
        SpecValue::Simple(s) => Option::Some(encode_utf8(s)),
        _ => Option::None,
    }
}

/// The positional argument at `i`: the bulk string there, or the error
/// that consuming it reports.
pub open spec fn spec_arg(args: Seq<SpecValue>, i: int) -> Result<Seq<u8>, CmdError> {
    if i >= args.len() {
        Err(CmdError::NotEnoughArguments)
    } else {
        match args[i] {
            SpecValue::Bulk(b) => Ok(b),
            _ => Err(CmdError::InvalidArgument),
        }
    }
}

/// Which command an upper-cased name and argument list denote. Trailing
/// arguments beyond a command's arity are ignored.
pub open spec fn spec_dispatch(up: Seq<u8>, args: Seq<SpecValue>) -> Result<SpecCmd, CmdError> {
    if up.len() == 0 {
        Err(CmdError::NoCommand)
    } else if up == seq![71u8, 69u8, 84u8] {  // GET
        match spec_arg(args, 0) {
            Ok(k) => Ok(SpecCmd::Get(k)),
            Err(e) => Err(e),
        }
    } else if up == seq![83u8, 69u8, 84u8] {  // SET
        match spec_arg(args, 0) {
            Ok(k) => match spec_arg(args, 1) {
                Ok(v) => Ok(SpecCmd::SetValue(k, v)),
                Err(e) => Err(e),
            },
            Err(e) => Err(e),
        }
    } else if up == seq![65u8, 80u8, 80u8, 69u8, 78u8, 68u8] {  // APPEND
        match spec_arg(args, 0) {
            Ok(k) => match spec_arg(args, 1) {
                Ok(v) => Ok(SpecCmd::Append(k, v)),
                Err(e) => Err(e),
            },
            Err(e) => Err(e),
        }
    } else if up == seq![80u8, 73u8, 78u8, 71u8] {  // PING
        Ok(SpecCmd::Ping(
            match spec_arg(args, 0) {
                Ok(p) => Option::Some(p),
                Err(_) => Option::None,
            },
        ))
    } else if up == seq![75u8, 69u8, 89u8, 83u8] {  // KEYS
        match spec_arg(args, 0) {
            Ok(p) => Ok(SpecCmd::Keys(p)),
            Err(e) => Err(e),
        }
    } else if up == seq![69u8, 88u8, 73u8, 83u8, 84u8, 83u8] {  // EXISTS
        match spec_arg(args, 0) {
            Ok(k) => Ok(SpecCmd::Exists(k)),
            Err(e) => Err(e),
        }
    } else if up == seq![67u8, 79u8, 77u8, 77u8, 65u8, 78u8, 68u8] {  // COMMAND
        Ok(SpecCmd::Command)
    } else {
        Err(CmdError::InvalidCommand)
    }
}

/// Which command a protocol value denotes: only arrays are commands, the
/// first element names the command case-insensitively, and the remaining
/// elements are its positional arguments.
pub open spec fn spec_try_from(v: SpecValue) -> Result<SpecCmd, CmdError> {
    match v {
        SpecValue::Arr(elems) => {
            if elems.len() == 0 {
                Err(CmdError::NoCommand)
            } else {
                match spec_name(elems[0]) {
                    Option::Some(n) => spec_dispatch(spec_upper_seq(n), elems.drop_first()),
                    Option::None => Err(CmdError::NoCommand),
                }
            }
        },
        _ => Err(CmdError::InvalidCommand),
    }
}

/// Case-insensitivity: two commands whose names fold to the same
/// upper-case bytes and whose arguments agree parse identically.
pub proof fn lemma_case_insensitive(
    v1: SpecValue,
    v2: SpecValue,
    n1: Seq<u8>,
    n2: Seq<u8>,
)
    requires
        v1 is Arr && v2 is Arr,
        v1->Arr_0.len() > 0 && v2->Arr_0.len() > 0,
        v1->Arr_0.drop_first() == v2->Arr_0.drop_first(),
        spec_name(v1->Arr_0[0]) == Option::Some(n1),
        spec_name(v2->Arr_0[0]) == Option::Some(n2),
        spec_upper_seq(n1) == spec_upper_seq(n2),
    ensures
        spec_try_from(v1) == spec_try_from(v2),
{
}

/// Pops the next argument off a command's argument queue: it must be a
/// bulk string.
pub fn get_next_value(resp: &mut VecDeque<RespValue>) -> (r: Result<BulkString, CmdError>)
    ensures
        old(resp)@.len() == 0 ==> r == Err::<BulkString, CmdError>(CmdError::NotEnoughArguments)
            && final(resp)@ == old(resp)@,
        old(resp)@.len() > 0 ==> final(resp)@ == old(resp)@.drop_first() && (match old(
            resp,
        )@[0]@ {
            SpecValue::Bulk(b) => r matches Ok(bs) && bs@ == b,
            _ => r == Err::<BulkString, CmdError>(CmdError::InvalidArgument),
        }),
{
    match resp.pop_front() {
        None => Err(CmdError::NotEnoughArguments),
        Some(RespValue::BulkString(b)) => Ok(b),
        Some(_) => Err(CmdError::InvalidArgument),
    }
}

impl RedisCmd {
    /// Reads a decoded protocol value as a command, exactly as
    /// [`spec_try_from`] describes; rejection reports which rule failed.
    pub fn try_from(resp: RespValue) -> (r: Result<RedisCmd, CmdError>)
        ensures
            (match spec_try_from(resp@) {
                Ok(c) => r matches Ok(rc) && rc@ == c,
                Err(e) => r == Err::<RedisCmd, CmdError>(e),
            }),
    {
        let ghost rm = resp@;
        match resp {
            RespValue::Array(mut d) => {
                proof {
                    lemma_model_array(d);
                    assert(rm == SpecValue::Arr(views_of(d@)));
                }
                let ghost elems = views_of(d@);
                match d.pop_front() {
                    None => {
                        proof {
                            assert(elems.len() == 0);
                        }
                        Err(CmdError::NoCommand)
                    },
                    Some(first) => {
                        proof {
                            assert(first@ == elems[0]);
                            assert(views_of(d@) =~= elems.drop_first());
                        }
                        match &first {
                            RespValue::BulkString(b) => Self::dispatch(b.0.as_slice(), &mut d),
                            RespValue::SimpleString(s) => Self::dispatch(
                                s.as_str().as_bytes(),
                                &mut d,
                            ),
                            _ => {
                                proof {
                                    assert(spec_name(elems[0]) is None);
                                }
                                Err(CmdError::NoCommand)
                            },
                        }
                    },
                }
            },
            _ => Err(CmdError::InvalidCommand),
        }
    }

    /// Matches the command name case-insensitively and consumes the
    /// arguments its arity asks for.
    fn dispatch(name: &[u8], args: &mut VecDeque<RespValue>) -> (r: Result<RedisCmd, CmdError>)
        ensures
            (match spec_dispatch(spec_upper_seq(name@), views_of(old(args)@)) {
                Ok(c) => r matches Ok(rc) && rc@ == c,
                Err(e) => r == Err::<RedisCmd, CmdError>(e),
            }),
    {
        let ghost sargs = views_of(args@);
        let ghost up = spec_upper_seq(name@);
        proof {
            assert(up.len() == name@.len());
        }
        if name.len() == 0 {
            return Err(CmdError::NoCommand);
        }
        let t_get: Vec<u8> = vec![71u8, 69u8, 84u8];
        if upper_eq(name, t_get.as_slice()) {
            return (match get_next_value(args) {
                Ok(k) => Ok(RedisCmd::Get(k)),
                Err(e) => Err(e),
            });
        }
        let t_set: Vec<u8> = vec![83u8, 69u8, 84u8];
        if upper_eq(name, t_set.as_slice()) {
            let a0 = get_next_value(args);
            proof {
                assert(views_of(args@).len() == if sargs.len() == 0 {
                    0int
                } else {
                    sargs.len() - 1
                });
                if sargs.len() > 0 {
                    assert(views_of(args@) =~= sargs.drop_first());
                }
            }
            return (match a0 {
                Ok(k) => match get_next_value(args) {
                    Ok(v) => Ok(RedisCmd::SetValue(k, v)),
                    Err(e) => Err(e),
                },
                Err(e) => Err(e),
            });
        }
        let t_append: Vec<u8> = vec![65u8, 80u8, 80u8, 69u8, 78u8, 68u8];
        if upper_eq(name, t_append.as_slice()) {
            let a0 = get_next_value(args);
            proof {
                if sargs.len() > 0 {
                    assert(views_of(args@) =~= sargs.drop_first());
                }
            }
            return (match a0 {
                Ok(k) => match get_next_value(args) {
                    Ok(v) => Ok(RedisCmd::Append(k, v)),
                    Err(e) => Err(e),
                },
                Err(e) => Err(e),
            });
        }
        let t_ping: Vec<u8> = vec![80u8, 73u8, 78u8, 71u8];
        if upper_eq(name, t_ping.as_slice()) {
            return (match get_next_value(args) {
                Ok(p) => Ok(RedisCmd::Ping(Some(p))),
                Err(_) => Ok(RedisCmd::Ping(None)),
            });
        }
        let t_keys: Vec<u8> = vec![75u8, 69u8, 89u8, 83u8];
        if upper_eq(name, t_keys.as_slice()) {
            return (match get_next_value(args) {
                Ok(p) => Ok(RedisCmd::Keys(p)),
                Err(e) => Err(e),
            });
        }
        let t_exists: Vec<u8> = vec![69u8, 88u8, 73u8, 83u8, 84u8, 83u8];
        if upper_eq(name, t_exists.as_slice()) {
            return (match get_next_value(args) {
                Ok(k) => Ok(RedisCmd::Exists(k)),
                Err(e) => Err(e),
            });
        }
        let t_command: Vec<u8> = vec![67u8, 79u8, 77u8, 77u8, 65u8, 78u8, 68u8];
        if upper_eq(name, t_command.as_slice()) {
            return Ok(RedisCmd::Command);
        }
        Err(CmdError::InvalidCommand)
    }
}

/// What executing a command does: the reply (or the refusal of an
/// unimplemented command), the store map afterwards, and the key order
/// afterwards.
pub open spec fn spec_apply(
    c: SpecCmd,
    m: Map<Seq<u8>, Seq<u8>>,
    ks: Seq<Seq<u8>>,
) -> (Result<SpecValue, ()>, Map<Seq<u8>, Seq<u8>>, Seq<Seq<u8>>) {
    match c {
        SpecCmd::Ping(p) => (
            Ok(
                match p {
                    Option::Some(x) => SpecValue::Bulk(x),
                    Option::None => SpecValue::Simple("PONG"@),
                },
            ),
            m,
            ks,
        ),
        SpecCmd::Get(k) => (
            Ok(
                if m.contains_key(k) {
                    SpecValue::Bulk(m[k])
                } else {
                    SpecValue::Null
                },
            ),
            m,
            ks,
        ),
        SpecCmd::SetValue(k, v) => (
            Ok(SpecValue::Simple("OK"@)),
            m.insert(k, v),
            if m.contains_key(k) {
                ks
            } else {
                ks.push(k)
            },
        ),
        SpecCmd::Append(k, v) => (
            Ok(
                if (if m.contains_key(k) {
                    m[k].len() + v.len()
                } else {
                    v.len()
                }) <= 0x7fff_ffff_ffff_ffff {
                    SpecValue::Int(
                        (if m.contains_key(k) {
                            m[k].len() + v.len()
                        } else {
                            v.len()
                        }) as i64,
                    )
                } else {
                    SpecValue::Error("ERR string exceeds maximum allowed size"@, Option::None)
                },
            ),
            m.insert(
                k,
                if m.contains_key(k) {
                    m[k] + v
                } else {
                    v
                },
            ),
            if m.contains_key(k) {
                ks
            } else {
                ks.push(k)
            },
        ),
        SpecCmd::Keys(_) => (Ok(SpecValue::Arr(bulks_of(ks))), m, ks),
        SpecCmd::Exists(k) => (
            Ok(
                SpecValue::Int(
                    if m.contains_key(k) {
                        1i64
                    } else {
                        0i64
                    },
                ),
            ),
            m,
            ks,
        ),
        SpecCmd::Command => (Err(()), m, ks),
    }
}

impl RedisCmd {
    /// Executes the command against the store and returns the reply to
    /// send, exactly as [`spec_apply`] describes; an unimplemented command
    /// is refused rather than answered.
    pub fn execute(self, storage: &mut Store) -> (r: Result<RespValue, ()>)
        requires
            old(storage).wf(),
        ensures
            final(storage).wf(),
            ({
                let (rr, nm, nks) = spec_apply(
                    self@,
                    old(storage)@,
                    old(storage).keys_in_order(),
                );
                &&& final(storage)@ == nm
                &&& final(storage).keys_in_order() == nks
                &&& (match rr {
                    Ok(sv) => r matches Ok(v) && v@ == sv,
                    Err(u) => r is Err,
                })
            }),
    {
        match self {
            RedisCmd::Ping(None) => Ok(RespValue::SimpleString("PONG".to_owned())),
            RedisCmd::Ping(Some(p)) => Ok(RespValue::BulkString(p)),
            RedisCmd::Get(key) => match storage.get(&key) {
                Some(v) => Ok(RespValue::BulkString(v)),
                None => Ok(RespValue::Null),
            },
            RedisCmd::SetValue(key, value) => {
                storage.insert(key, value);
                Ok(RespValue::SimpleString("OK".to_owned()))
            },
            RedisCmd::Append(key, value) => {
                let total = storage.append(key, value);
                if (total as u64) <= 0x7fff_ffff_ffff_ffffu64 {
                    Ok(RespValue::Integer(total as i64))
                } else {
                    Ok(RespValue::Error(
                        "ERR string exceeds maximum allowed size".to_owned(),
                        None,
                    ))
                }
            },
            RedisCmd::Keys(_pattern) => {
                let ks = storage.keys();
                proof {
                    lemma_model_array(ks);
                }
                Ok(RespValue::Array(ks))
            },
            RedisCmd::Exists(key) => {
                if storage.contains(&key) {
                    Ok(RespValue::Integer(1))
                } else {
                    Ok(RespValue::Integer(0))
                }
            },
            RedisCmd::Command => Err(()),
        }
    }
}

/// APPEND accumulates: after SET `k a` and APPEND `k b`, the APPEND reply
/// is the combined length and GET `k` sees the concatenation.
pub proof fn lemma_append_accumulates(
    k: Seq<u8>,
    a: Seq<u8>,
    b: Seq<u8>,
    m: Map<Seq<u8>, Seq<u8>>,
    ks: Seq<Seq<u8>>,
)
    requires
        a.len() + b.len() <= 0x7fff_ffff_ffff_ffff,
    ensures
        ({
            let (r1, m1, ks1) = spec_apply(SpecCmd::SetValue(k, a), m, ks);
            let (r2, m2, ks2) = spec_apply(SpecCmd::Append(k, b), m1, ks1);
            let (r3, m3, ks3) = spec_apply(SpecCmd::Get(k), m2, ks2);
            &&& r2 == Ok::<SpecValue, ()>(SpecValue::Int((a.len() + b.len()) as i64))
            &&& r3 == Ok::<SpecValue, ()>(SpecValue::Bulk(a + b))
        }),
{
}

/// Writes to distinct keys do not disturb each other: after setting `k1`
/// and then `k2`, each key still reads its own value.
pub proof fn lemma_disjoint_keys_isolated(
    k1: Seq<u8>,
    v1: Seq<u8>,
    k2: Seq<u8>,
    v2: Seq<u8>,
    m: Map<Seq<u8>, Seq<u8>>,
    ks: Seq<Seq<u8>>,
)
    requires
        k1 != k2,
    ensures
        ({
            let (r1, m1, ks1) = spec_apply(SpecCmd::SetValue(k1, v1), m, ks);
            let (r2, m2, ks2) = spec_apply(SpecCmd::SetValue(k2, v2), m1, ks1);
            let (g1, m3, ks3) = spec_apply(SpecCmd::Get(k1), m2, ks2);
            let (g2, m4, ks4) = spec_apply(SpecCmd::Get(k2), m2, ks2);
            &&& g1 == Ok::<SpecValue, ()>(SpecValue::Bulk(v1))
            &&& g2 == Ok::<SpecValue, ()>(SpecValue::Bulk(v2))
        }),
{
}

} // verus!

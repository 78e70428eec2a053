use vstd::prelude::*;
use crate::db::{remove_keys, DB};
use crate::resp::{bytes_seq, copy_bytes, crlf, deep_seq, lemma_deep_seq, RespData, RespValue};
use crate::storage::{Storage, StorageError};

verus! {

/// The bytes of the verb `GET`.
pub open spec fn name_get() -> Seq<u8> {
    seq![71u8, 69u8, 84u8]
}

/// The bytes of the verb `SET`.
pub open spec fn name_set() -> Seq<u8> {
    seq![83u8, 69u8, 84u8]
}

/// The bytes of the verb `DEL`.
pub open spec fn name_del() -> Seq<u8> {
    seq![68u8, 69u8, 76u8]
}

/// The bytes of the verb `LPUSH`.
pub open spec fn name_lpush() -> Seq<u8> {
    seq![76u8, 80u8, 85u8, 83u8, 72u8]
}

/// The bytes of the verb `RPUSH`.
pub open spec fn name_rpush() -> Seq<u8> {
    seq![82u8, 80u8, 85u8, 83u8, 72u8]
}

/// The bytes of the verb `LPOP`.
pub open spec fn name_lpop() -> Seq<u8> {
    seq![76u8, 80u8, 79u8, 80u8]
}

/// The bytes of the verb `RPOP`.
pub open spec fn name_rpop() -> Seq<u8> {
    seq![82u8, 80u8, 79u8, 80u8]
}

/// The bytes of the verb `SADD`.
pub open spec fn name_sadd() -> Seq<u8> {
    seq![83u8, 65u8, 68u8, 68u8]
}

/// The bytes of the verb `SREM`.
pub open spec fn name_srem() -> Seq<u8> {
    seq![83u8, 82u8, 69u8, 77u8]
}

/// The bytes of the verb `HSET`.
pub open spec fn name_hset() -> Seq<u8> {
    seq![72u8, 83u8, 69u8, 84u8]
}

/// The bytes of the verb `HGET`.
pub open spec fn name_hget() -> Seq<u8> {
    seq![72u8, 71u8, 69u8, 84u8]
}

/// The bytes of the verb `PING`.
pub open spec fn name_ping() -> Seq<u8> {
    seq![80u8, 73u8, 78u8, 71u8]
}

/// The bytes of the verb `ECHO`.
pub open spec fn name_echo() -> Seq<u8> {
    seq![69u8, 67u8, 72u8, 79u8]
}

/// The bytes of the verb `INFO`.
pub open spec fn name_info() -> Seq<u8> {
    seq![73u8, 78u8, 70u8, 79u8]
}

/// The bytes of the verb `COMMAND`.
pub open spec fn name_command() -> Seq<u8> {
    seq![67u8, 79u8, 77u8, 77u8, 65u8, 78u8, 68u8]
}

/// The reply text `OK`.
pub open spec fn ok_bytes() -> Seq<u8> {
    seq![79u8, 75u8]
}

/// The reply text `PONG`.
pub open spec fn pong_bytes() -> Seq<u8> {
    seq![80u8, 79u8, 78u8, 71u8]
}

/// The body of the `INFO` reply: version and mode lines.
pub open spec fn info_bytes() -> Seq<u8> {
    seq![102u8, 111u8, 111u8, 98u8, 97u8, 114u8, 100u8, 98u8, 95u8, 118u8, 101u8, 114u8, 115u8, 105u8, 111u8, 110u8, 58u8, 49u8, 46u8, 48u8, 46u8, 48u8, 13u8, 10u8, 109u8, 111u8, 100u8, 101u8, 58u8, 115u8, 116u8, 97u8, 110u8, 100u8, 97u8, 108u8, 111u8, 110u8, 101u8]
}

/// Mathematical model of a parsed command, payloads as byte sequences.
pub enum CommandData {
    Get { key: Seq<u8> },
    SetCmd { key: Seq<u8>, value: Seq<u8> },
    Del { keys: Seq<Seq<u8>> },
    LPush { key: Seq<u8>, values: Seq<Seq<u8>> },
    RPush { key: Seq<u8>, values: Seq<Seq<u8>> },
    LPop { key: Seq<u8> },
    RPop { key: Seq<u8> },
    SAdd { key: Seq<u8>, members: Seq<Seq<u8>> },
    SRem { key: Seq<u8>, members: Seq<Seq<u8>> },
    HSet { key: Seq<u8>, field: Seq<u8>, value: Seq<u8> },
    HGet { key: Seq<u8>, field: Seq<u8> },
    Ping,
    Echo { message: Seq<u8> },
    Info,
    Command,
    Unknown { command: Seq<u8> },
}

/// Mathematical model of a command-layer error.
pub enum CommandErrorData {
    WrongNumberOfArguments { command: Seq<u8> },
    InvalidCommandName,
    EmptyCommand,
    InvalidArgumentType,
    NotImplemented,
    UnknownCommand(Seq<u8>),
    StorageError,
}

/// A validated request: one verb with its typed arguments. The reserved
/// list, set and hash verbs parse but are not executed.
#[derive(Debug, PartialEq)]
pub enum Command {
    Get { key: Vec<u8> },
    SetCmd { key: Vec<u8>, value: Vec<u8> },
    Del { keys: Vec<Vec<u8>> },
    LPush { key: Vec<u8>, values: Vec<Vec<u8>> },
    RPush { key: Vec<u8>, values: Vec<Vec<u8>> },
    LPop { key: Vec<u8> },
    RPop { key: Vec<u8> },
    SAdd { key: Vec<u8>, members: Vec<Vec<u8>> },
    SRem { key: Vec<u8>, members: Vec<Vec<u8>> },
    HSet { key: Vec<u8>, field: Vec<u8>, value: Vec<u8> },
    HGet { key: Vec<u8>, field: Vec<u8> },
    Ping,
    Echo { message: Vec<u8> },
    Info,
    Command,
    Unknown { command: Vec<u8> },
}

/// Why a frame was rejected as a command, or a command refused. These are
/// answered with an error reply; the connection stays open.
#[derive(Debug)]
pub enum CommandError {
    WrongNumberOfArguments { command: Vec<u8> },
    InvalidCommandName,
    EmptyCommand,
    InvalidArgumentType,
    NotImplemented,
    UnknownCommand(Vec<u8>),
    StorageError(StorageError),
}

impl Command {
    /// The model this command stands for.
    pub open spec fn deep(self) -> CommandData {
        match self {
            Command::Get { key } => CommandData::Get { key: key@ },
            Command::SetCmd { key, value } => CommandData::SetCmd { key: key@, value: value@ },
            Command::Del { keys } => CommandData::Del { keys: bytes_seq(keys@) },
            Command::LPush { key, values } => CommandData::LPush { key: key@, values: bytes_seq(values@) },
            Command::RPush { key, values } => CommandData::RPush { key: key@, values: bytes_seq(values@) },
            Command::LPop { key } => CommandData::LPop { key: key@ },
            Command::RPop { key } => CommandData::RPop { key: key@ },
            Command::SAdd { key, members } => CommandData::SAdd { key: key@, members: bytes_seq(members@) },
            Command::SRem { key, members } => CommandData::SRem { key: key@, members: bytes_seq(members@) },
            Command::HSet { key, field, value } => CommandData::HSet { key: key@, field: field@, value: value@ },
            Command::HGet { key, field } => CommandData::HGet { key: key@, field: field@ },
            Command::Ping => CommandData::Ping,
            Command::Echo { message } => CommandData::Echo { message: message@ },
            Command::Info => CommandData::Info,
            Command::Command => CommandData::Command,
            Command::Unknown { command } => CommandData::Unknown { command: command@ },
        }
    }
}

impl CommandError {
    /// The model this error stands for.
    pub open spec fn deep(self) -> CommandErrorData {
        match self {
            CommandError::WrongNumberOfArguments { command } => (CommandErrorData::WrongNumberOfArguments { command: command@ }),
            CommandError::InvalidCommandName => CommandErrorData::InvalidCommandName,
            CommandError::EmptyCommand => CommandErrorData::EmptyCommand,
            CommandError::InvalidArgumentType => CommandErrorData::InvalidArgumentType,
            CommandError::NotImplemented => CommandErrorData::NotImplemented,
            CommandError::UnknownCommand(command) => CommandErrorData::UnknownCommand(command@),
            CommandError::StorageError(_) => CommandErrorData::StorageError,
        }
    }
}

/// The ASCII upper-case form of a byte.
pub open spec fn upper(b: u8) -> u8 {
    if 97 <= b <= 122 {
        (b - 32) as u8
    } else {
        b
    }
}

/// The ASCII lower-case form of a byte.
pub open spec fn lower(b: u8) -> u8 {
    if 65 <= b <= 90 {
        (b + 32) as u8
    } else {
        b
    }
}

pub open spec fn upper_seq(s: Seq<u8>) -> Seq<u8> {
    s.map_values(|b: u8| upper(b))
}

pub open spec fn lower_seq(s: Seq<u8>) -> Seq<u8> {
    s.map_values(|b: u8| lower(b))
}

/// The text an argument carries: simple strings and non-null bulk strings
/// qualify, nothing else.
pub open spec fn arg_bytes(v: RespData) -> Option<Seq<u8>> {
    match v {
        RespData::SimpleString(s) => Some(s),
        RespData::BulkString(Some(s)) => Some(s),
        _ => None,
    }
}

/// The texts of the elements from `from` on; `None` if any is no text.
pub open spec fn args_from(es: Seq<RespData>, from: int) -> Option<Seq<Seq<u8>>>
    decreases es.len() - from,
{
    if from < 0 || from >= es.len() {
        Some(Seq::empty())
    } else {
        match arg_bytes(es[from]) {
            None => None,
            Some(b) => match args_from(es, from + 1) {
                None => None,
                Some(rest) => Some(seq![b] + rest),
            },
        }
    }
}

/// The arity table's rejections: the verb named `nm` refuses `n` elements.
pub open spec fn wrong_arity(nm: Seq<u8>, n: int) -> bool {
    ||| (nm == name_get() && n != 2)
    ||| (nm == name_set() && n != 3)
    ||| (nm == name_del() && n < 2)
    ||| (nm == name_lpush() && n < 3)
    ||| (nm == name_rpush() && n < 3)
    ||| (nm == name_lpop() && n != 2)
    ||| (nm == name_rpop() && n != 2)
    ||| (nm == name_sadd() && n < 3)
    ||| (nm == name_srem() && n < 3)
    ||| (nm == name_hset() && n != 4)
    ||| (nm == name_hget() && n != 3)
    ||| (nm == name_ping() && n != 1)
    ||| (nm == name_echo() && n != 2)
    ||| (nm == name_info() && n != 1)
    ||| (nm == name_command() && n != 1)
}

/// What `Command::from_resp` yields: the arity table applied to one frame.
pub open spec fn spec_from_resp(v: RespData) -> Result<CommandData, CommandErrorData> {
    match v {
        RespData::Array(Some(es)) => {
            if es.len() == 0 {
                Err(CommandErrorData::EmptyCommand)
            } else {
                match arg_bytes(es[0]) {
                    None => Err(CommandErrorData::InvalidCommandName),
                    Some(s0) => spec_dispatch(upper_seq(s0), es),
                }
            }
        },
        _ => Err(CommandErrorData::InvalidCommandName),
    }
}

/// Dispatch of an upper-cased verb over the arity table.
pub open spec fn spec_dispatch(nm: Seq<u8>, es: Seq<RespData>) -> Result<
    CommandData,
    CommandErrorData,
> {
    if nm == name_get() {
        if es.len() != 2 {
            Err(CommandErrorData::WrongNumberOfArguments { command: lower_seq(nm) })
        } else {
            match arg_bytes(es[1]) {
                None => Err(CommandErrorData::InvalidArgumentType),
                Some(key) => {
                    Ok(CommandData::Get { key })
                },
            }
        }
    } else if nm == name_set() {
        if es.len() != 3 {
            Err(CommandErrorData::WrongNumberOfArguments { command: lower_seq(nm) })
        } else {
            match arg_bytes(es[1]) {
                None => Err(CommandErrorData::InvalidArgumentType),
                Some(key) => {
                    match arg_bytes(es[2]) {
                        None => Err(CommandErrorData::InvalidArgumentType),
                        Some(value) => {
                            Ok(CommandData::SetCmd { key, value })
                        },
                    }
                },
            }
        }
    } else if nm == name_del() {
        if es.len() < 2 {
            Err(CommandErrorData::WrongNumberOfArguments { command: lower_seq(nm) })
        } else {
            match args_from(es, 1) {
                None => Err(CommandErrorData::InvalidArgumentType),
                Some(keys) => {
                    Ok(CommandData::Del { keys })
                },
            }
        }
    } else if nm == name_lpush() {
        if es.len() < 3 {
            Err(CommandErrorData::WrongNumberOfArguments { command: lower_seq(nm) })
        } else {
            match arg_bytes(es[1]) {
                None => Err(CommandErrorData::InvalidArgumentType),
                Some(key) => {
                    match args_from(es, 2) {
                        None => Err(CommandErrorData::InvalidArgumentType),
                        Some(values) => {
                            Ok(CommandData::LPush { key, values })
                        },
                    }
                },
            }
        }
    } else if nm == name_rpush() {
        if es.len() < 3 {
            Err(CommandErrorData::WrongNumberOfArguments { command: lower_seq(nm) })
        } else {
            match arg_bytes(es[1]) {
                None => Err(CommandErrorData::InvalidArgumentType),
                Some(key) => {
                    match args_from(es, 2) {
                        None => Err(CommandErrorData::InvalidArgumentType),
                        Some(values) => {
                            Ok(CommandData::RPush { key, values })
                        },
                    }
                },
            }
        }
    } else if nm == name_lpop() {
        if es.len() != 2 {
            Err(CommandErrorData::WrongNumberOfArguments { command: lower_seq(nm) })
        } else {
            match arg_bytes(es[1]) {
                None => Err(CommandErrorData::InvalidArgumentType),
                Some(key) => {
                    Ok(CommandData::LPop { key })
                },
            }
        }
    } else if nm == name_rpop() {
        if es.len() != 2 {
            Err(CommandErrorData::WrongNumberOfArguments { command: lower_seq(nm) })
        } else {
            match arg_bytes(es[1]) {
                None => Err(CommandErrorData::InvalidArgumentType),
                Some(key) => {
                    Ok(CommandData::RPop { key })
                },
            }
        }
    } else if nm == name_sadd() {
        if es.len() < 3 {
            Err(CommandErrorData::WrongNumberOfArguments { command: lower_seq(nm) })
        } else {
            match arg_bytes(es[1]) {
                None => Err(CommandErrorData::InvalidArgumentType),
                Some(key) => {
                    match args_from(es, 2) {
                        None => Err(CommandErrorData::InvalidArgumentType),
                        Some(members) => {
                            Ok(CommandData::SAdd { key, members })
                        },
                    }
                },
            }
        }
    } else if nm == name_srem() {
        if es.len() < 3 {
            Err(CommandErrorData::WrongNumberOfArguments { command: lower_seq(nm) })
        } else {
            match arg_bytes(es[1]) {
                None => Err(CommandErrorData::InvalidArgumentType),
                Some(key) => {
                    match args_from(es, 2) {
                        None => Err(CommandErrorData::InvalidArgumentType),
                        Some(members) => {
                            Ok(CommandData::SRem { key, members })
                        },
                    }
                },
            }
        }
    } else if nm == name_hset() {
        if es.len() != 4 {
            Err(CommandErrorData::WrongNumberOfArguments { command: lower_seq(nm) })
        } else {
            match arg_bytes(es[1]) {
                None => Err(CommandErrorData::InvalidArgumentType),
                Some(key) => {
                    match arg_bytes(es[2]) {
                        None => Err(CommandErrorData::InvalidArgumentType),
                        Some(field) => {
                            match arg_bytes(es[3]) {
                                None => Err(CommandErrorData::InvalidArgumentType),
                                Some(value) => {
                                    Ok(CommandData::HSet { key, field, value })
                                },
                            }
                        },
                    }
                },
            }
        }
    } else if nm == name_hget() {
        if es.len() != 3 {
            Err(CommandErrorData::WrongNumberOfArguments { command: lower_seq(nm) })
        } else {
            match arg_bytes(es[1]) {
                None => Err(CommandErrorData::InvalidArgumentType),
                Some(key) => {
                    match arg_bytes(es[2]) {
                        None => Err(CommandErrorData::InvalidArgumentType),
                        Some(field) => {
                            Ok(CommandData::HGet { key, field })
                        },
                    }
                },
            }
        }
    } else if nm == name_ping() {
        if es.len() != 1 {
            Err(CommandErrorData::WrongNumberOfArguments { command: lower_seq(nm) })
        } else {
            Ok(CommandData::Ping)
        }
    } else if nm == name_echo() {
        if es.len() != 2 {
            Err(CommandErrorData::WrongNumberOfArguments { command: lower_seq(nm) })
        } else {
            match arg_bytes(es[1]) {
                None => Err(CommandErrorData::InvalidArgumentType),
                Some(message) => {
                    Ok(CommandData::Echo { message })
                },
            }
        }
    } else if nm == name_info() {
        if es.len() != 1 {
            Err(CommandErrorData::WrongNumberOfArguments { command: lower_seq(nm) })
        } else {
            Ok(CommandData::Info)
        }
    } else if nm == name_command() {
        if es.len() != 1 {
            Err(CommandErrorData::WrongNumberOfArguments { command: lower_seq(nm) })
        } else {
            Ok(CommandData::Command)
        }
    } else {
        Ok(CommandData::Unknown { command: nm })
    }
}

} // verus!

verus! {

/// The ASCII upper-case copy of `s`.
#[verifier::loop_isolation(false)]
pub fn upper_bytes(s: &Vec<u8>) -> (r: Vec<u8>)
    ensures
        r@ == upper_seq(s@),
{
    let mut out: Vec<u8> = Vec::new();
    let mut i: usize = 0;
    while i < s.len()
        invariant
            i <= s@.len(),
            out@.len() == i,
            forall|j: int| 0 <= j < i ==> out@[j] == upper(#[trigger] s@[j]),
        decreases s@.len() - i,
    {
        let b = s[i];
        if b >= 97 && b <= 122 {
            out.push(b - 32);
        } else {
            out.push(b);
        }
        i += 1;
    }
    proof {
        assert(out@ =~= upper_seq(s@));
    }
    out
}

/// The ASCII lower-case copy of `s`.
#[verifier::loop_isolation(false)]
pub fn lower_bytes(s: &Vec<u8>) -> (r: Vec<u8>)
    ensures
        r@ == lower_seq(s@),
{
    let mut out: Vec<u8> = Vec::new();
    let mut i: usize = 0;
    while i < s.len()
        invariant
            i <= s@.len(),
            out@.len() == i,
            forall|j: int| 0 <= j < i ==> out@[j] == lower(#[trigger] s@[j]),
        decreases s@.len() - i,
    {
        let b = s[i];
        if b >= 65 && b <= 90 {
            out.push(b + 32);
        } else {
            out.push(b);
        }
        i += 1;
    }
    proof {
        assert(out@ =~= lower_seq(s@));
    }
    out
}

proof fn lemma_args_from_all(es: Seq<RespData>, from: int, xs: Seq<Seq<u8>>)
    requires
        0 <= from <= es.len(),
        xs.len() == es.len() - from,
        forall|j: int| from <= j < es.len() ==> arg_bytes(#[trigger] es[j]) == Some(xs[j - from]),
    ensures
        args_from(es, from) == Some(xs),
    decreases es.len() - from,
{
    if from == es.len() {
        assert(xs =~= Seq::<Seq<u8>>::empty());
    } else {
        lemma_args_from_all(es, from + 1, xs.drop_first());
        assert(seq![xs[0]] + xs.drop_first() =~= xs);
    }
}

proof fn lemma_args_from_none(es: Seq<RespData>, from: int, f: int)
    requires
        0 <= from <= f < es.len(),
        arg_bytes(es[f]) is None,
    ensures
        args_from(es, from) is None,
    decreases es.len() - from,
{
    if from < f {
        lemma_args_from_none(es, from + 1, f);
    }
}

impl Command {
    /// The text an argument value carries, or the rejection of it.
    pub fn extract_string(value: &RespValue) -> (r: Result<Vec<u8>, CommandError>)
        ensures
            match r {
                Ok(b) => arg_bytes(value.deep()) == Some(b@),
                Err(e) => arg_bytes(value.deep()) is None && e.deep()
                    == CommandErrorData::InvalidArgumentType,
            },
    {
        match value {
            RespValue::SimpleString(s) => Ok(copy_bytes(s)),
            RespValue::BulkString(Some(s)) => Ok(copy_bytes(s)),
            _ => Err(CommandError::InvalidArgumentType),
        }
    }

    /// The texts of the elements from `from` on, or the first rejection.
    #[verifier::loop_isolation(false)]
    fn collect_args(array: &Vec<RespValue>, from: usize) -> (r: Result<Vec<Vec<u8>>, CommandError>)
        requires
            from <= array@.len(),
        ensures
            match r {
                Ok(vs) => args_from(deep_seq(array@), from as int) == Some(bytes_seq(vs@)),
                Err(e) => args_from(deep_seq(array@), from as int) is None && e.deep()
                    == CommandErrorData::InvalidArgumentType,
            },
    {
        proof {
            lemma_deep_seq(array@);
        }
        let mut out: Vec<Vec<u8>> = Vec::new();
        let mut i: usize = from;
        while i < array.len()
            invariant
                from <= i <= array@.len(),
                out@.len() == i - from,
                forall|j: int|
                    from <= j < i ==> arg_bytes(#[trigger] deep_seq(array@)[j]) == Some(
                        out@[j - from]@,
                    ),
            decreases array@.len() - i,
        {
            let b = match Command::extract_string(&array[i]) {
                Ok(b) => b,
                Err(e) => {
                    proof {
                        lemma_args_from_none(deep_seq(array@), from as int, i as int);
                    }
                    return Err(e);
                },
            };
            out.push(b);
            i += 1;
        }
        proof {
            lemma_args_from_all(deep_seq(array@), from as int, bytes_seq(out@));
        }
        Ok(out)
    }

    /// Validates one frame against the arity table: requests are arrays of
    /// texts whose first element names the verb, case-blind.
    #[verifier::rlimit(100)]
    pub fn from_resp(resp: RespValue) -> (r: Result<Command, CommandError>)
        ensures
            match r {
                Ok(c) => spec_from_resp(resp.deep()) == Ok::<CommandData, CommandErrorData>(
                    c.deep(),
                ),
                Err(e) => spec_from_resp(resp.deep()) == Err::<CommandData, CommandErrorData>(
                    e.deep(),
                ),
            },
    {
        let ghost rd = resp.deep();
        match resp {
            RespValue::Array(Some(array)) => {
                proof {
                    lemma_deep_seq(array@);
                }
                let ghost es = deep_seq(array@);
                if array.len() == 0 {
                    return Err(CommandError::EmptyCommand);
                }
                let name0: Vec<u8> = match Command::extract_string(&array[0]) {
                    Ok(b) => b,
                    Err(_) => {
                        return Err(CommandError::InvalidCommandName);
                    },
                };
                let nm = upper_bytes(&name0);
                if nm.len() == 3 && nm[0] == 71 && nm[1] == 69 && nm[2] == 84 {
                    proof {
                        assert(nm@ =~= name_get());
                    }
                    if array.len() != 2 {
                        return Err(CommandError::WrongNumberOfArguments { command: lower_bytes(&nm) });
                    }
                    let key = match Command::extract_string(&array[1]) {
                        Ok(b) => b,
                        Err(e) => {
                            return Err(e);
                        },
                    };
                    return Ok(Command::Get { key });
                }
                if nm.len() == 3 && nm[0] == 83 && nm[1] == 69 && nm[2] == 84 {
                    proof {
                        assert(nm@ =~= name_set());
                    }
                    if array.len() != 3 {
                        return Err(CommandError::WrongNumberOfArguments { command: lower_bytes(&nm) });
                    }
                    let key = match Command::extract_string(&array[1]) {
                        Ok(b) => b,
                        Err(e) => {
                            return Err(e);
                        },
                    };
                    let value = match Command::extract_string(&array[2]) {
                        Ok(b) => b,
                        Err(e) => {
                            return Err(e);
                        },
                    };
                    return Ok(Command::SetCmd { key, value });
                }
                if nm.len() == 3 && nm[0] == 68 && nm[1] == 69 && nm[2] == 76 {
                    proof {
                        assert(nm@ =~= name_del());
                    }
                    if array.len() < 2 {
                        return Err(CommandError::WrongNumberOfArguments { command: lower_bytes(&nm) });
                    }
                    let keys = match Command::collect_args(&array, 1) {
                        Ok(vs) => vs,
                        Err(e) => {
                            return Err(e);
                        },
                    };
                    return Ok(Command::Del { keys });
                }
                if nm.len() == 5 && nm[0] == 76 && nm[1] == 80 && nm[2] == 85 && nm[3] == 83 && nm[4] == 72 {
                    proof {
                        assert(nm@ =~= name_lpush());
                    }
                    if array.len() < 3 {
                        return Err(CommandError::WrongNumberOfArguments { command: lower_bytes(&nm) });
                    }
                    let key = match Command::extract_string(&array[1]) {
                        Ok(b) => b,
                        Err(e) => {
                            return Err(e);
                        },
                    };
                    let values = match Command::collect_args(&array, 2) {
                        Ok(vs) => vs,
                        Err(e) => {
                            return Err(e);
                        },
                    };
                    return Ok(Command::LPush { key, values });
                }
                if nm.len() == 5 && nm[0] == 82 && nm[1] == 80 && nm[2] == 85 && nm[3] == 83 && nm[4] == 72 {
                    proof {
                        assert(nm@ =~= name_rpush());
                    }
                    if array.len() < 3 {
                        return Err(CommandError::WrongNumberOfArguments { command: lower_bytes(&nm) });
                    }
                    let key = match Command::extract_string(&array[1]) {
                        Ok(b) => b,
                        Err(e) => {
                            return Err(e);
                        },
                    };
                    let values = match Command::collect_args(&array, 2) {
                        Ok(vs) => vs,
                        Err(e) => {
                            return Err(e);
                        },
                    };
                    return Ok(Command::RPush { key, values });
                }
                if nm.len() == 4 && nm[0] == 76 && nm[1] == 80 && nm[2] == 79 && nm[3] == 80 {
                    proof {
                        assert(nm@ =~= name_lpop());
                    }
                    if array.len() != 2 {
                        return Err(CommandError::WrongNumberOfArguments { command: lower_bytes(&nm) });
                    }
                    let key = match Command::extract_string(&array[1]) {
                        Ok(b) => b,
                        Err(e) => {
                            return Err(e);
                        },
                    };
                    return Ok(Command::LPop { key });
                }
                if nm.len() == 4 && nm[0] == 82 && nm[1] == 80 && nm[2] == 79 && nm[3] == 80 {
                    proof {
                        assert(nm@ =~= name_rpop());
                    }
                    if array.len() != 2 {
                        return Err(CommandError::WrongNumberOfArguments { command: lower_bytes(&nm) });
                    }
                    let key = match Command::extract_string(&array[1]) {
                        Ok(b) => b,
                        Err(e) => {
                            return Err(e);
                        },
                    };
                    return Ok(Command::RPop { key });
                }
                if nm.len() == 4 && nm[0] == 83 && nm[1] == 65 && nm[2] == 68 && nm[3] == 68 {
                    proof {
                        assert(nm@ =~= name_sadd());
                    }
                    if array.len() < 3 {
                        return Err(CommandError::WrongNumberOfArguments { command: lower_bytes(&nm) });
                    }
                    let key = match Command::extract_string(&array[1]) {
                        Ok(b) => b,
                        Err(e) => {
                            return Err(e);
                        },
                    };
                    let members = match Command::collect_args(&array, 2) {
                        Ok(vs) => vs,
                        Err(e) => {
                            return Err(e);
                        },
                    };
                    return Ok(Command::SAdd { key, members });
                }
                if nm.len() == 4 && nm[0] == 83 && nm[1] == 82 && nm[2] == 69 && nm[3] == 77 {
                    proof {
                        assert(nm@ =~= name_srem());
                    }
                    if array.len() < 3 {
                        return Err(CommandError::WrongNumberOfArguments { command: lower_bytes(&nm) });
                    }
                    let key = match Command::extract_string(&array[1]) {
                        Ok(b) => b,
                        Err(e) => {
                            return Err(e);
                        },
                    };
                    let members = match Command::collect_args(&array, 2) {
                        Ok(vs) => vs,
                        Err(e) => {
                            return Err(e);
                        },
                    };
                    return Ok(Command::SRem { key, members });
                }
                if nm.len() == 4 && nm[0] == 72 && nm[1] == 83 && nm[2] == 69 && nm[3] == 84 {
                    proof {
                        assert(nm@ =~= name_hset());
                    }
                    if array.len() != 4 {
                        return Err(CommandError::WrongNumberOfArguments { command: lower_bytes(&nm) });
                    }
                    let key = match Command::extract_string(&array[1]) {
                        Ok(b) => b,
                        Err(e) => {
                            return Err(e);
                        },
                    };
                    let field = match Command::extract_string(&array[2]) {
                        Ok(b) => b,
                        Err(e) => {
                            return Err(e);
                        },
                    };
                    let value = match Command::extract_string(&array[3]) {
                        Ok(b) => b,
                        Err(e) => {
                            return Err(e);
                        },
                    };
                    return Ok(Command::HSet { key, field, value });
                }
                if nm.len() == 4 && nm[0] == 72 && nm[1] == 71 && nm[2] == 69 && nm[3] == 84 {
                    proof {
                        assert(nm@ =~= name_hget());
                    }
                    if array.len() != 3 {
                        return Err(CommandError::WrongNumberOfArguments { command: lower_bytes(&nm) });
                    }
                    let key = match Command::extract_string(&array[1]) {
                        Ok(b) => b,
                        Err(e) => {
                            return Err(e);
                        },
                    };
                    let field = match Command::extract_string(&array[2]) {
                        Ok(b) => b,
                        Err(e) => {
                            return Err(e);
                        },
                    };
                    return Ok(Command::HGet { key, field });
                }
                if nm.len() == 4 && nm[0] == 80 && nm[1] == 73 && nm[2] == 78 && nm[3] == 71 {
                    proof {
                        assert(nm@ =~= name_ping());
                    }
                    if array.len() != 1 {
                        return Err(CommandError::WrongNumberOfArguments { command: lower_bytes(&nm) });
                    }
                    return Ok(Command::Ping);
                }
                if nm.len() == 4 && nm[0] == 69 && nm[1] == 67 && nm[2] == 72 && nm[3] == 79 {
                    proof {
                        assert(nm@ =~= name_echo());
                    }
                    if array.len() != 2 {
                        return Err(CommandError::WrongNumberOfArguments { command: lower_bytes(&nm) });
                    }
                    let message = match Command::extract_string(&array[1]) {
                        Ok(b) => b,
                        Err(e) => {
                            return Err(e);
                        },
                    };
                    return Ok(Command::Echo { message });
                }
                if nm.len() == 4 && nm[0] == 73 && nm[1] == 78 && nm[2] == 70 && nm[3] == 79 {
                    proof {
                        assert(nm@ =~= name_info());
                    }
                    if array.len() != 1 {
                        return Err(CommandError::WrongNumberOfArguments { command: lower_bytes(&nm) });
                    }
                    return Ok(Command::Info);
                }
                if nm.len() == 7 && nm[0] == 67 && nm[1] == 79 && nm[2] == 77 && nm[3] == 77 && nm[4] == 65 && nm[5] == 78 && nm[6] == 68 {
                    proof {
                        assert(nm@ =~= name_command());
                    }
                    if array.len() != 1 {
                        return Err(CommandError::WrongNumberOfArguments { command: lower_bytes(&nm) });
                    }
                    return Ok(Command::Command);
                }
                Ok(Command::Unknown { command: nm })
            },
            _ => Err(CommandError::InvalidCommandName),
        }
    }
}

} // verus!

verus! {

/// What executing a command does: the reply it yields (or the error it
/// refuses with) and the store it leaves behind.
pub open spec fn spec_exec(c: CommandData, store: Map<Seq<u8>, RespData>) -> (Result<
    RespData,
    CommandErrorData,
>, Map<Seq<u8>, RespData>) {
    match c {
        CommandData::Get { key } => (
            Ok(
                if store.contains_key(key) {
                    store[key]
                } else {
                    RespData::Null
                },
            ),
            store,
        ),
        CommandData::SetCmd { key, value } => (
            Ok(RespData::SimpleString(ok_bytes())),
            store.insert(key, RespData::BulkString(Some(value))),
        ),
        CommandData::Del { keys } => (
            Ok(RespData::SimpleString(ok_bytes())),
            remove_keys(store, keys),
        ),
        CommandData::Ping => (Ok(RespData::SimpleString(pong_bytes())), store),
        CommandData::Info => (Ok(RespData::BulkString(Some(info_bytes()))), store),
        CommandData::Command => (Ok(RespData::SimpleString(ok_bytes())), store),
        CommandData::Unknown { command } => (
            Err(CommandErrorData::UnknownCommand(command)),
            store,
        ),
        _ => (Err(CommandErrorData::NotImplemented), store),
    }
}

/// The `OK` reply.
fn ok_value() -> (r: RespValue)
    ensures
        r.deep() == RespData::SimpleString(ok_bytes()),
{
    let mut v: Vec<u8> = Vec::new();
    v.push(79);
    v.push(75);
    proof {
        assert(v@ =~= ok_bytes());
    }
    RespValue::SimpleString(v)
}

/// The `PONG` reply.
fn pong_value() -> (r: RespValue)
    ensures
        r.deep() == RespData::SimpleString(pong_bytes()),
{
    let mut v: Vec<u8> = Vec::new();
    v.push(80);
    v.push(79);
    v.push(78);
    v.push(71);
    proof {
        assert(v@ =~= pong_bytes());
    }
    RespValue::SimpleString(v)
}

/// The `INFO` reply: a bulk string with the version and mode lines.
fn info_value() -> (r: RespValue)
    ensures
        r.deep() == RespData::BulkString(Some(info_bytes())),
{
    let mut v: Vec<u8> = Vec::new();
    v.push(102);
    v.push(111);
    v.push(111);
    v.push(98);
    v.push(97);
    v.push(114);
    v.push(100);
    v.push(98);
    v.push(95);
    v.push(118);
    v.push(101);
    v.push(114);
    v.push(115);
    v.push(105);
    v.push(111);
    v.push(110);
    v.push(58);
    v.push(49);
    v.push(46);
    v.push(48);
    v.push(46);
    v.push(48);
    v.push(13);
    v.push(10);
    v.push(109);
    v.push(111);
    v.push(100);
    v.push(101);
    v.push(58);
    v.push(115);
    v.push(116);
    v.push(97);
    v.push(110);
    v.push(100);
    v.push(97);
    v.push(108);
    v.push(111);
    v.push(110);
    v.push(101);
    proof {
        assert(v@ =~= info_bytes());
    }
    RespValue::BulkString(Some(v))
}

impl Command {
    /// Runs this command against the database and builds its reply.
    pub fn exec<S: Storage>(self, db: &mut DB<S>) -> (r: Result<RespValue, CommandError>)
        ensures
            ({
                let sr = spec_exec(self.deep(), old(db).contents());
                final(db).contents() == sr.1 && (match (r, sr.0) {
                    (Ok(v), Ok(d)) => v.deep() == d,
                    (Err(e), Err(d)) => e.deep() == d,
                    _ => false,
                })
            }),
    {
        match self {
            Command::Get { key } => match db.get(&key) {
                Ok(Some(v)) => Ok(v),
                Ok(None) => Ok(RespValue::Null),
                Err(e) => {
                    proof {
                        assert(false);
                    }
                    Err(CommandError::StorageError(e))
                },
            },
            Command::SetCmd { key, value } => match db.set(key, RespValue::BulkString(Some(value))) {
                Ok(_) => Ok(ok_value()),
                Err(e) => {
                    proof {
                        assert(false);
                    }
                    Err(CommandError::StorageError(e))
                },
            },
            Command::Del { keys } => match db.delete(&keys) {
                Ok(_) => Ok(ok_value()),
                Err(e) => {
                    proof {
                        assert(false);
                    }
                    Err(CommandError::StorageError(e))
                },
            },
            Command::Ping => Ok(pong_value()),
            Command::Info => Ok(info_value()),
            Command::Command => Ok(ok_value()),
            Command::Unknown { command } => Err(CommandError::UnknownCommand(command)),
            _ => Err(CommandError::NotImplemented),
        }
    }
}

/// The wire reply for a command-layer error: an error line under the `-ERR` prefix.
pub open spec fn error_bytes(e: CommandErrorData) -> Seq<u8> {
    match e {
        CommandErrorData::WrongNumberOfArguments { .. } => seq![45u8, 69u8, 82u8, 82u8, 32u8, 119u8, 114u8, 111u8, 110u8, 103u8, 32u8, 110u8, 117u8, 109u8, 98u8, 101u8, 114u8, 32u8, 111u8, 102u8, 32u8, 97u8, 114u8, 103u8, 117u8, 109u8, 101u8, 110u8, 116u8, 115u8] + crlf(),
        CommandErrorData::InvalidCommandName => seq![45u8, 69u8, 82u8, 82u8, 32u8, 105u8, 110u8, 118u8, 97u8, 108u8, 105u8, 100u8, 32u8, 99u8, 111u8, 109u8, 109u8, 97u8, 110u8, 100u8, 32u8, 110u8, 97u8, 109u8, 101u8] + crlf(),
        CommandErrorData::EmptyCommand => seq![45u8, 69u8, 82u8, 82u8, 32u8, 101u8, 109u8, 112u8, 116u8, 121u8, 32u8, 99u8, 111u8, 109u8, 109u8, 97u8, 110u8, 100u8] + crlf(),
        CommandErrorData::InvalidArgumentType => seq![45u8, 69u8, 82u8, 82u8, 32u8, 105u8, 110u8, 118u8, 97u8, 108u8, 105u8, 100u8, 32u8, 97u8, 114u8, 103u8, 117u8, 109u8, 101u8, 110u8, 116u8, 32u8, 116u8, 121u8, 112u8, 101u8] + crlf(),
        CommandErrorData::NotImplemented => seq![45u8, 69u8, 82u8, 82u8, 32u8, 99u8, 111u8, 109u8, 109u8, 97u8, 110u8, 100u8, 32u8, 110u8, 111u8, 116u8, 32u8, 105u8, 109u8, 112u8, 108u8, 101u8, 109u8, 101u8, 110u8, 116u8, 101u8, 100u8] + crlf(),
        CommandErrorData::UnknownCommand(_) => seq![45u8, 69u8, 82u8, 82u8, 32u8, 117u8, 110u8, 107u8, 110u8, 111u8, 119u8, 110u8, 32u8, 99u8, 111u8, 109u8, 109u8, 97u8, 110u8, 100u8] + crlf(),
        CommandErrorData::StorageError => seq![45u8, 69u8, 82u8, 82u8, 32u8, 115u8, 116u8, 111u8, 114u8, 97u8, 103u8, 101u8, 32u8, 101u8, 114u8, 114u8, 111u8, 114u8] + crlf(),
    }
}

/// Appends the error reply for `e`.
pub fn push_error_reply(out: &mut Vec<u8>, e: &CommandError)
    ensures
        final(out)@ == old(out)@ + error_bytes(e.deep()),
{
    match e {
        CommandError::WrongNumberOfArguments { .. } => {
            out.push(45);
            out.push(69);
            out.push(82);
            out.push(82);
            out.push(32);
            out.push(119);
            out.push(114);
            out.push(111);
            out.push(110);
            out.push(103);
            out.push(32);
            out.push(110);
            out.push(117);
            out.push(109);
            out.push(98);
            out.push(101);
            out.push(114);
            out.push(32);
            out.push(111);
            out.push(102);
            out.push(32);
            out.push(97);
            out.push(114);
            out.push(103);
            out.push(117);
            out.push(109);
            out.push(101);
            out.push(110);
            out.push(116);
            out.push(115);
            out.push(13);
            out.push(10);
            proof {
                assert(old(out)@ + error_bytes(e.deep()) =~= out@);
            }
        },
        CommandError::InvalidCommandName => {
            out.push(45);
            out.push(69);
            out.push(82);
            out.push(82);
            out.push(32);
            out.push(105);
            out.push(110);
            out.push(118);
            out.push(97);
            out.push(108);
            out.push(105);
            out.push(100);
            out.push(32);
            out.push(99);
            out.push(111);
            out.push(109);
            out.push(109);
            out.push(97);
            out.push(110);
            out.push(100);
            out.push(32);
            out.push(110);
            out.push(97);
            out.push(109);
            out.push(101);
            out.push(13);
            out.push(10);
            proof {
                assert(old(out)@ + error_bytes(e.deep()) =~= out@);
            }
        },
        CommandError::EmptyCommand => {
            out.push(45);
            out.push(69);
            out.push(82);
            out.push(82);
            out.push(32);
            out.push(101);
            out.push(109);
            out.push(112);
            out.push(116);
            out.push(121);
            out.push(32);
            out.push(99);
            out.push(111);
            out.push(109);
            out.push(109);
            out.push(97);
            out.push(110);
            out.push(100);
            out.push(13);
            out.push(10);
            proof {
                assert(old(out)@ + error_bytes(e.deep()) =~= out@);
            }
        },
        CommandError::InvalidArgumentType => {
            out.push(45);
            out.push(69);
            out.push(82);
            out.push(82);
            out.push(32);
            out.push(105);
            out.push(110);
            out.push(118);
            out.push(97);
            out.push(108);
            out.push(105);
            out.push(100);
            out.push(32);
            out.push(97);
            out.push(114);
            out.push(103);
            out.push(117);
            out.push(109);
            out.push(101);
            out.push(110);
            out.push(116);
            out.push(32);
            out.push(116);
            out.push(121);
            out.push(112);
            out.push(101);
            out.push(13);
            out.push(10);
            proof {
                assert(old(out)@ + error_bytes(e.deep()) =~= out@);
            }
        },
        CommandError::NotImplemented => {
            out.push(45);
            out.push(69);
            out.push(82);
            out.push(82);
            out.push(32);
            out.push(99);
            out.push(111);
            out.push(109);
            out.push(109);
            out.push(97);
            out.push(110);
            out.push(100);
            out.push(32);
            out.push(110);
            out.push(111);
            out.push(116);
            out.push(32);
            out.push(105);
            out.push(109);
            out.push(112);
            out.push(108);
            out.push(101);
            out.push(109);
            out.push(101);
            out.push(110);
            out.push(116);
            out.push(101);
            out.push(100);
            out.push(13);
            out.push(10);
            proof {
                assert(old(out)@ + error_bytes(e.deep()) =~= out@);
            }
        },
        CommandError::UnknownCommand(_) => {
            out.push(45);
            out.push(69);
            out.push(82);
            out.push(82);
            out.push(32);
            out.push(117);
            out.push(110);
            out.push(107);
            out.push(110);
            out.push(111);
            out.push(119);
            out.push(110);
            out.push(32);
            out.push(99);
            out.push(111);
            out.push(109);
            out.push(109);
            out.push(97);
            out.push(110);
            out.push(100);
            out.push(13);
            out.push(10);
            proof {
                assert(old(out)@ + error_bytes(e.deep()) =~= out@);
            }
        },
        CommandError::StorageError(_) => {
            out.push(45);
            out.push(69);
            out.push(82);
            out.push(82);
            out.push(32);
            out.push(115);
            out.push(116);
            out.push(111);
            out.push(114);
            out.push(97);
            out.push(103);
            out.push(101);
            out.push(32);
            out.push(101);
            out.push(114);
            out.push(114);
            out.push(111);
            out.push(114);
            out.push(13);
            out.push(10);
            proof {
                assert(old(out)@ + error_bytes(e.deep()) =~= out@);
            }
        },
    }
}

impl CommandError {
    /// The stable reply prefix for this error, as text.
    pub fn as_error_msg(&self) -> (r: &'static str)
        ensures
            match self {
                CommandError::WrongNumberOfArguments { .. } => r@ == "-ERR wrong number of arguments"@,
                CommandError::InvalidCommandName => r@ == "-ERR invalid command name"@,
                CommandError::EmptyCommand => r@ == "-ERR empty command"@,
                CommandError::InvalidArgumentType => r@ == "-ERR invalid argument type"@,
                CommandError::NotImplemented => r@ == "-ERR command not implemented"@,
                CommandError::UnknownCommand(_) => r@ == "-ERR unknown command"@,
                CommandError::StorageError(_) => r@ == "-ERR storage error"@,
            },
    {
        match self {
            CommandError::WrongNumberOfArguments { .. } => "-ERR wrong number of arguments",
            CommandError::InvalidCommandName => "-ERR invalid command name",
            CommandError::EmptyCommand => "-ERR empty command",
            CommandError::InvalidArgumentType => "-ERR invalid argument type",
            CommandError::NotImplemented => "-ERR command not implemented",
            CommandError::UnknownCommand(_) => "-ERR unknown command",
            CommandError::StorageError(_) => "-ERR storage error",
        }
    }
}

/// Command arity: a request whose verb is in the arity table but whose
/// element count violates it parses to `WrongNumberOfArguments` for that
/// verb; no command is produced, so the store is never touched.
pub proof fn theorem_command_arity(v: RespData, es: Seq<RespData>, s0: Seq<u8>)
    requires
        v == RespData::Array(Some(es)),
        es.len() >= 1,
        arg_bytes(es[0]) == Some(s0),
        wrong_arity(upper_seq(s0), es.len() as int),
    ensures
        spec_from_resp(v) == Err::<CommandData, CommandErrorData>(
            CommandErrorData::WrongNumberOfArguments { command: lower_seq(upper_seq(s0)) },
        ),
{
}

} // verus!

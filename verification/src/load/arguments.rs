//! The command line and the environment of the loader.

pub mod laws;

use vstd::prelude::*;
use vstd::string::StrSliceExecFns;

use super::LoadError;
use crate::config::{Config, Mode};

verus! {

/// Ring slots without an argument.
pub const DEFAULT_RING_SLOTS: u64 = 64;

/// Size of a ring slot without a variable.
pub const DEFAULT_SLOT_MIB: u64 = 5;

/// Buckets of the index without a variable.
pub const DEFAULT_BUCKETS: u64 = 0x10_0000;

/// Capacities of the index without variables.
pub const DEFAULT_CAPACITY_GIB: u64 = 64;

/// Pages of the index without a variable.
pub const DEFAULT_BLOCK_MIB: u64 = 1;

/// Pause after a request without a variable.
pub const DEFAULT_RPC_DELAY_MS: u64 = 15;

/// How often a failed request is sent again.
pub const RPC_RETRIES: u32 = 60;

/// Body bytes that one output may take.
pub const BODY_BYTES_PER_BLOCK: u64 = 96;

/// How the loader logs in to Bitcoin Core.
#[derive(Debug, PartialEq, Eq)]
pub enum RpcAuth {
    /// Without authentication.
    Anonymous,
    /// With a user and a password.
    UserPass(String, String),
    /// With the cookie file at this path.
    Cookie(String),
}

/// The environment variables of the loader.
pub struct Environment {
    pub slot_mib: Option<String>,
    pub block_mib: Option<String>,
    pub body_gib: Option<String>,
    pub blob_gib: Option<String>,
    pub buckets: Option<String>,
    pub rpc_delay_ms: Option<String>,
    pub checkpoint: bool,
}

/// What the loader was asked to do.
pub struct Arguments {
    pub auth: RpcAuth,
    pub rpc_url: String,
    pub tip_height: Option<u64>,
    pub fetch_threads: usize,
    pub spend_threads: usize,
    pub ring_slots: u64,
    pub slot_bytes: u64,
    pub work_dir: String,
    pub buckets: u64,
    pub body_capacity: u64,
    pub blob_capacity: u64,
    pub database_block_bytes: u64,
    pub checkpoint: bool,
    pub rpc_delay_ms: u64,
}

/// What the command line asks for.
pub enum Command {
    /// To print how the loader is used.
    Help,
    /// To load a chain.
    Load(Arguments),
}

/// What is wrong with a number.
pub const EMPTY_NUMBER: &'static str = "cannot parse integer from empty string";

/// What is wrong with a number.
pub const INVALID_DIGIT: &'static str = "invalid digit found in string";

/// What is wrong with a number.
pub const LARGE_NUMBER: &'static str = "number too large to fit in target type";

/// The number that the digits from `from` up to `to` make, or what is wrong
/// with the first character that makes none.
pub open spec fn digits(chars: Seq<char>, from: int, to: int) -> Result<u64, &'static str>
    decreases to - from,
{
    if to <= from {
        Ok(0)
    } else {
        match digits(chars, from, to - 1) {
            Err(reason) => Err(reason),
            Ok(high) => {
                let last = chars[to - 1];
                if !('0' <= last <= '9') {
                    Err(INVALID_DIGIT)
                } else if high * 10 + (last as int - '0' as int) > u64::MAX {
                    Err(LARGE_NUMBER)
                } else {
                    Ok((high * 10 + (last as int - '0' as int)) as u64)
                }
            },
        }
    }
}

/// The number that a text shows: decimal digits, perhaps after a plus sign.
pub open spec fn number(chars: Seq<char>) -> Result<u64, &'static str> {
    if chars.len() == 0 {
        Err(EMPTY_NUMBER)
    } else if chars[0] == '+' && chars.len() > 1 {
        digits(chars, 1, chars.len() as int)
    } else {
        digits(chars, 0, chars.len() as int)
    }
}

/// Whether an error says that `value` is no number for `name`, and why.
pub open spec fn is_invalid_number(
    error: LoadError,
    name: &'static str,
    value: Seq<char>,
    reason: &'static str,
) -> bool {
    &&& error is InvalidNumber
    &&& error->name == name
    &&& error->InvalidNumber_value@ == value
    &&& error->reason == reason
}

/// Reads a number.
pub fn parse_u64(value: &str, name: &'static str) -> (result: Result<u64, LoadError>)
    ensures
        match number(value@) {
            Ok(read) => result == Ok::<u64, LoadError>(read),
            Err(reason) => result is Err && is_invalid_number(
                result->Err_0,
                name,
                value@,
                reason,
            ),
        },
{
    let length: usize = value.unicode_len();
    if length == 0 {
        return Err(
            LoadError::InvalidNumber { name, value: value.to_owned(), reason: EMPTY_NUMBER },
        );
    }
    let mut next: usize = if length > 1 && value.get_char(0) == '+' {
        1
    } else {
        0
    };
    let ghost from = next as int;
    let mut read: u64 = 0;
    while next < length
        invariant
            length == value@.len(),
            0 <= from <= next <= length,
            number(value@) == digits(value@, from, length as int),
            digits(value@, from, next as int) == Ok::<u64, &'static str>(read),
        decreases length - next,
    {
        let digit: char = value.get_char(next);
        proof {
            assert(digits(value@, from, next + 1) is Err ==> digits(value@, from, length as int)
                == digits(value@, from, next + 1)) by {
                lemma_digits_fail(value@, from, next + 1, length as int);
            }
        }
        if !('0' <= digit && digit <= '9') {
            return Err(
                LoadError::InvalidNumber { name, value: value.to_owned(), reason: INVALID_DIGIT },
            );
        }
        let low: u64 = (digit as u32 - '0' as u32) as u64;
        let grown: Option<u64> = match read.checked_mul(10) {
            Some(high) => high.checked_add(low),
            None => None,
        };
        match grown {
            Some(sum) => {
                read = sum;
            },
            None => {
                return Err(
                    LoadError::InvalidNumber {
                        name,
                        value: value.to_owned(),
                        reason: LARGE_NUMBER,
                    },
                );
            },
        }
        next = next + 1;
    }
    Ok(read)
}

/// What is wrong with a beginning is wrong with the whole.
proof fn lemma_digits_fail(chars: Seq<char>, from: int, part: int, to: int)
    requires
        part <= to,
    ensures
        digits(chars, from, part) is Err ==> digits(chars, from, to) == digits(chars, from, part),
    decreases to - part,
{
    if part < to {
        lemma_digits_fail(chars, from, part, to - 1);
    }
}

/// The number that an optional text shows, or a default.
pub open spec fn number_or(value: Option<Seq<char>>, default: u64) -> Result<u64, &'static str> {
    match value {
        Some(chars) => number(chars),
        None => Ok(default),
    }
}

/// The characters of an optional text.
pub open spec fn text(value: Option<String>) -> Option<Seq<char>> {
    match value {
        Some(chars) => Some(chars@),
        None => None,
    }
}

/// The argument at a position, if there is one.
pub open spec fn argument(arguments: Seq<String>, index: int) -> Option<Seq<char>> {
    if index < arguments.len() {
        Some(arguments[index]@)
    } else {
        None
    }
}

/// Reads an environment variable, or takes its default.
pub fn environment_u64(name: &'static str, value: &Option<String>, default: u64) -> (result: Result<
    u64,
    LoadError,
>)
    ensures
        match number_or(text(*value), default) {
            Ok(read) => result == Ok::<u64, LoadError>(read),
            Err(reason) => result is Err && is_invalid_number(
                result->Err_0,
                name,
                text(*value)->0,
                reason,
            ),
        },
{
    match value {
        Some(chars) => parse_u64(chars.as_str(), name),
        None => Ok(default),
    }
}

/// Reads the argument at a position, or takes its default.
pub fn optional_u64(
    arguments: &Vec<String>,
    index: usize,
    default: u64,
    name: &'static str,
) -> (result: Result<u64, LoadError>)
    ensures
        match number_or(argument(arguments@, index as int), default) {
            Ok(read) => result == Ok::<u64, LoadError>(read),
            Err(reason) => result is Err && is_invalid_number(
                result->Err_0,
                name,
                argument(arguments@, index as int)->0,
                reason,
            ),
        },
{
    if index < arguments.len() {
        parse_u64(arguments[index].as_str(), name)
    } else {
        Ok(default)
    }
}

/// Reads a thread count at a position, or takes its default.
pub fn optional_usize(
    arguments: &Vec<String>,
    index: usize,
    default: usize,
    name: &'static str,
) -> (result: Result<usize, LoadError>)
    ensures
        match number_or(argument(arguments@, index as int), default as u64) {
            Ok(read) => result == (if read <= usize::MAX {
                Ok::<usize, LoadError>(read as usize)
            } else {
                Err(LoadError::InvalidInput("thread count does not fit memory"))
            }),
            Err(reason) => result is Err && is_invalid_number(
                result->Err_0,
                name,
                argument(arguments@, index as int)->0,
                reason,
            ),
        },
{
    let value: u64 = match optional_u64(arguments, index, default as u64, name) {
        Ok(value) => value,
        Err(error) => {
            return Err(error);
        },
    };
    if value > usize::MAX as u64 {
        return Err(LoadError::InvalidInput("thread count does not fit memory"));
    }
    Ok(value as usize)
}

/// Turns mebibytes into bytes.
pub fn mebibytes(value: u64) -> (result: Result<u64, LoadError>)
    ensures
        result == (if value * 0x10_0000 <= u64::MAX {
            Ok::<u64, LoadError>((value * 0x10_0000) as u64)
        } else {
            Err(LoadError::InvalidInput("MiB value overflow"))
        }),
{
    match value.checked_mul(0x10_0000) {
        Some(bytes) => Ok(bytes),
        None => Err(LoadError::InvalidInput("MiB value overflow")),
    }
}

/// Turns gibibytes into bytes.
pub fn gibibytes(value: u64) -> (result: Result<u64, LoadError>)
    ensures
        result == (if value * 0x4000_0000 <= u64::MAX {
            Ok::<u64, LoadError>((value * 0x4000_0000) as u64)
        } else {
            Err(LoadError::InvalidInput("GiB value overflow"))
        }),
{
    match value.checked_mul(0x4000_0000) {
        Some(bytes) => Ok(bytes),
        None => Err(LoadError::InvalidInput("GiB value overflow")),
    }
}

/// Whether `index` is where the first colon is.
pub open spec fn first_colon(chars: Seq<char>, index: int) -> bool {
    &&& 0 <= index < chars.len()
    &&& chars[index] == ':'
    &&& forall|i: int| 0 <= i < index ==> #[trigger] chars[i] != ':'
}

/// Whether an authentication is the one that an argument asks for.
pub open spec fn asks_for(argument: Seq<char>, result: Result<RpcAuth, LoadError>) -> bool {
    if argument == "none"@ {
        result matches Ok(RpcAuth::Anonymous)
    } else if exists|index: int| first_colon(argument, index) {
        let index = choose|index: int| first_colon(argument, index);
        if index == 0 || index == argument.len() - 1 {
            result == Err::<RpcAuth, LoadError>(
                LoadError::InvalidInput("RPC user and password must be nonempty"),
            )
        } else {
            &&& result is Ok && result->Ok_0 is UserPass
            &&& (result->Ok_0)->UserPass_0@ == argument.take(index)
            &&& (result->Ok_0)->UserPass_1@ == argument.skip(index + 1)
        }
    } else {
        result is Ok && result->Ok_0 is Cookie && (result->Ok_0)->Cookie_0@ == argument
    }
}

/// Reads how to log in: `none`, a user and a password with a colon between
/// them, or the path of a cookie file.
pub fn parse_rpc_auth(argument: String) -> (result: Result<RpcAuth, LoadError>)
    ensures
        asks_for(argument@, result),
{
    let none = "none".to_owned();
    if argument == none {
        return Ok(RpcAuth::Anonymous);
    }
    let chars = argument.as_str();
    let length: usize = chars.unicode_len();
    let mut index: usize = 0;
    while index < length
        invariant
            length == argument@.len(),
            chars@ == argument@,
            argument@ != "none"@,
            index <= length,
            forall|i: int| 0 <= i < index ==> #[trigger] argument@[i] != ':',
        decreases length - index,
    {
        if chars.get_char(index) == ':' {
            proof {
                assert(first_colon(argument@, index as int));
                let found = choose|i: int| first_colon(argument@, i);
                assert(first_colon(argument@, found));
                assert(found == index) by {
                    if found < index {
                        assert(argument@[found] != ':');
                    } else if found > index {
                        assert(argument@[index as int] != ':');
                    }
                }
            }
            if index == 0 || index == length - 1 {
                return Err(LoadError::InvalidInput("RPC user and password must be nonempty"));
            }
            let user = chars.substring_char(0, index).to_owned();
            let password = chars.substring_char(index + 1, length).to_owned();
            proof {
                assert(user@ =~= argument@.take(index as int));
                assert(password@ =~= argument@.skip(index + 1));
            }
            return Ok(RpcAuth::UserPass(user, password));
        }
        index = index + 1;
    }
    proof {
        assert forall|i: int| !first_colon(argument@, i) by {}
    }
    Ok(RpcAuth::Cookie(argument))
}

/// A flaw in the arguments or the environment.
pub enum Flaw {
    /// One that a fixed text describes.
    Described(&'static str),
    /// A text that should be a number.
    Number(&'static str, Seq<char>, &'static str),
}

/// Whether an error reports a flaw.
pub open spec fn reports(error: LoadError, flaw: Flaw) -> bool {
    match flaw {
        Flaw::Described(description) => error == LoadError::InvalidInput(description),
        Flaw::Number(name, value, reason) => is_invalid_number(error, name, value, reason),
    }
}

/// The flaw of a number that may be left out, if it has one.
pub open spec fn number_flaw(name: &'static str, value: Option<Seq<char>>, default: u64) -> Option<
    Flaw,
> {
    match number_or(value, default) {
        Ok(_) => None,
        Err(reason) => Some(Flaw::Number(name, value->0, reason)),
    }
}

/// The flaw of a thread count that may be left out, if it has one.
pub open spec fn threads_flaw(name: &'static str, value: Option<Seq<char>>, default: u64) -> Option<
    Flaw,
> {
    match number_or(value, default) {
        Ok(read) => if read <= usize::MAX {
            None
        } else {
            Some(Flaw::Described("thread count does not fit memory"))
        },
        Err(reason) => Some(Flaw::Number(name, value->0, reason)),
    }
}

/// The flaw of a size, if it has one.
pub open spec fn size_flaw(
    value: Option<Seq<char>>,
    default: u64,
    unit: int,
    description: &'static str,
) -> Option<Flaw> {
    if number_or(value, default) is Ok && number_or(value, default)->Ok_0 * unit > u64::MAX {
        Some(Flaw::Described(description))
    } else {
        None
    }
}

/// A flaw, or the one that is looked for next.
pub open spec fn either(flaw: Option<Flaw>, next: Option<Flaw>) -> Option<Flaw> {
    if flaw is Some {
        flaw
    } else {
        next
    }
}

/// Workers that fetch, where no argument says so.
pub open spec fn default_fetchers(parallelism: usize) -> u64 {
    if parallelism < 4 {
        parallelism as u64
    } else {
        4
    }
}

/// Workers that spend, where no argument says so.
pub open spec fn default_spenders(parallelism: usize) -> u64 {
    if parallelism < 2 {
        1
    } else {
        (parallelism - 1) as u64
    }
}

/// The tip that an argument asks for; none for the tip of the node.
pub open spec fn tip_argument(arguments: Seq<String>) -> Option<Seq<char>> {
    match argument(arguments, 3) {
        Some(tip) => if tip == "tip"@ {
            None
        } else {
            Some(tip)
        },
        None => None,
    }
}

/// The flaw of the first argument, if it has one.
pub open spec fn auth_flaw(arguments: Seq<String>) -> Option<Flaw> {
    match argument(arguments, 1) {
        None => Some(Flaw::Described("missing Bitcoin Core authentication argument")),
        Some(auth) => if auth != "none"@ && (exists|index: int| first_colon(auth, index)) && {
            let index = choose|index: int| first_colon(auth, index);
            index == 0 || index == auth.len() - 1
        } {
            Some(Flaw::Described("RPC user and password must be nonempty"))
        } else {
            None
        },
    }
}

/// The flaw of the arguments, if they have one.
pub open spec fn arguments_flaw(arguments: Seq<String>, parallelism: usize) -> Option<Flaw> {
    let fetch = argument(arguments, 4);
    let spend = argument(arguments, 5);
    let idle = number_or(fetch, default_fetchers(parallelism)) == Ok::<u64, &'static str>(0)
        || number_or(spend, default_spenders(parallelism)) == Ok::<u64, &'static str>(0);
    either(
        auth_flaw(arguments),
        either(
            number_flaw("tip height", tip_argument(arguments), 0),
            either(
                threads_flaw("fetch threads", fetch, default_fetchers(parallelism)),
                either(
                    threads_flaw("spend threads", spend, default_spenders(parallelism)),
                    if idle {
                        Some(Flaw::Described("thread pool sizes must be nonzero"))
                    } else {
                        number_flaw("ring slots", argument(arguments, 6), DEFAULT_RING_SLOTS)
                    },
                ),
            ),
        ),
    )
}

/// The flaw of the environment, if it has one.
pub open spec fn environment_flaw(environment: Environment) -> Option<Flaw> {
    let slot = text(environment.slot_mib);
    let page = text(environment.block_mib);
    let body = text(environment.body_gib);
    let blob = text(environment.blob_gib);
    either(
        either(
            number_flaw("DB_LOAD_SLOT_MIB", slot, DEFAULT_SLOT_MIB),
            either(
                number_flaw("DB_LOAD_BLOCK_MIB", page, DEFAULT_BLOCK_MIB),
                either(
                    number_flaw("DB_LOAD_BODY_GIB", body, DEFAULT_CAPACITY_GIB),
                    number_flaw("DB_LOAD_BLOB_GIB", blob, DEFAULT_CAPACITY_GIB),
                ),
            ),
        ),
        either(
            size_flaw(slot, DEFAULT_SLOT_MIB, 0x10_0000, "MiB value overflow"),
            either(
                number_flaw("DB_LOAD_BUCKETS", text(environment.buckets), DEFAULT_BUCKETS),
                either(
                    size_flaw(body, DEFAULT_CAPACITY_GIB, 0x4000_0000, "GiB value overflow"),
                    either(
                        size_flaw(blob, DEFAULT_CAPACITY_GIB, 0x4000_0000, "GiB value overflow"),
                        either(
                            size_flaw(page, DEFAULT_BLOCK_MIB, 0x10_0000, "MiB value overflow"),
                            number_flaw(
                                "DB_LOAD_RPC_DELAY_MS",
                                text(environment.rpc_delay_ms),
                                DEFAULT_RPC_DELAY_MS,
                            ),
                        ),
                    ),
                ),
            ),
        ),
    )
}

/// The number that a valid optional text shows, or a default.
pub open spec fn read_or(value: Option<Seq<char>>, default: u64) -> int {
    number_or(value, default)->Ok_0 as int
}

/// Whether `parsed` is what valid arguments and variables ask for.
pub open spec fn asked(
    arguments: Seq<String>,
    environment: Environment,
    parallelism: usize,
    parsed: Arguments,
) -> bool {
    &&& asks_for(arguments[1]@, Ok(parsed.auth))
    &&& parsed.rpc_url@ == (match argument(arguments, 2) {
        Some(url) => url,
        None => "http://127.0.0.1:8332"@,
    })
    &&& parsed.tip_height == (match tip_argument(arguments) {
        Some(tip) => Some(number(tip)->Ok_0),
        None => None,
    })
    &&& parsed.fetch_threads == read_or(argument(arguments, 4), default_fetchers(parallelism))
    &&& parsed.spend_threads == read_or(argument(arguments, 5), default_spenders(parallelism))
    &&& parsed.ring_slots == read_or(argument(arguments, 6), DEFAULT_RING_SLOTS)
    &&& parsed.slot_bytes == read_or(text(environment.slot_mib), DEFAULT_SLOT_MIB) * 0x10_0000
    &&& parsed.work_dir@ == (match argument(arguments, 7) {
        Some(path) => path,
        None => "bitcoin-load-run"@,
    })
    &&& parsed.buckets == read_or(text(environment.buckets), DEFAULT_BUCKETS)
    &&& parsed.body_capacity == read_or(text(environment.body_gib), DEFAULT_CAPACITY_GIB)
        * 0x4000_0000
    &&& parsed.blob_capacity == read_or(text(environment.blob_gib), DEFAULT_CAPACITY_GIB)
        * 0x4000_0000
    &&& parsed.database_block_bytes == read_or(text(environment.block_mib), DEFAULT_BLOCK_MIB)
        * 0x10_0000
    &&& parsed.checkpoint == environment.checkpoint
    &&& parsed.rpc_delay_ms == read_or(text(environment.rpc_delay_ms), DEFAULT_RPC_DELAY_MS)
}

/// The argument at a position, or a default.
fn optional_text(arguments: &Vec<String>, index: usize, default: &str) -> (value: String)
    ensures
        value@ == (match argument(arguments@, index as int) {
            Some(chars) => chars,
            None => default@,
        }),
{
    if index < arguments.len() {
        arguments[index].clone()
    } else {
        default.to_owned()
    }
}

impl Arguments {
    /// Reads the arguments, the program name first, and the environment.
    /// `parallelism` is the number of workers that the machine can run at once.
    pub fn parse(
        arguments: &Vec<String>,
        environment: &Environment,
        parallelism: usize,
    ) -> (result: Result<Command, LoadError>)
        ensures
            if argument(arguments@, 1) == Some("-h"@) || argument(arguments@, 1) == Some(
                "--help"@,
            ) {
                result matches Ok(Command::Help)
            } else {
                match either(
                    arguments_flaw(arguments@, parallelism),
                    environment_flaw(*environment),
                ) {
                    Some(flaw) => result is Err && reports(result->Err_0, flaw),
                    None => result matches Ok(Command::Load(parsed)) && asked(
                        arguments@,
                        *environment,
                        parallelism,
                        parsed,
                    ),
                }
            },
    {
        if arguments.len() < 2 {
            return Err(LoadError::InvalidInput("missing Bitcoin Core authentication argument"));
        }
        let short = "-h".to_owned();
        let long = "--help".to_owned();
        if arguments[1] == short || arguments[1] == long {
            return Ok(Command::Help);
        }
        let auth = parse_rpc_auth(arguments[1].clone())?;
        let rpc_url = optional_text(arguments, 2, "http://127.0.0.1:8332");
        let tip = "tip".to_owned();
        let tip_height: Option<u64> = if arguments.len() <= 3 || arguments[3] == tip {
            None
        } else {
            Some(parse_u64(arguments[3].as_str(), "tip height")?)
        };
        let fetchers: usize = if parallelism < 4 {
            parallelism
        } else {
            4
        };
        let spenders: usize = if parallelism < 2 {
            1
        } else {
            parallelism - 1
        };
        let fetch_threads: usize = optional_usize(arguments, 4, fetchers, "fetch threads")?;
        let spend_threads: usize = optional_usize(arguments, 5, spenders, "spend threads")?;
        if fetch_threads == 0 || spend_threads == 0 {
            return Err(LoadError::InvalidInput("thread pool sizes must be nonzero"));
        }
        let ring_slots: u64 = optional_u64(arguments, 6, DEFAULT_RING_SLOTS, "ring slots")?;
        let work_dir = optional_text(arguments, 7, "bitcoin-load-run");
        let slot_mib: u64 = environment_u64(
            "DB_LOAD_SLOT_MIB",
            &environment.slot_mib,
            DEFAULT_SLOT_MIB,
        )?;
        let block_mib: u64 = environment_u64(
            "DB_LOAD_BLOCK_MIB",
            &environment.block_mib,
            DEFAULT_BLOCK_MIB,
        )?;
        let body_gib: u64 = environment_u64(
            "DB_LOAD_BODY_GIB",
            &environment.body_gib,
            DEFAULT_CAPACITY_GIB,
        )?;
        let blob_gib: u64 = environment_u64(
            "DB_LOAD_BLOB_GIB",
            &environment.blob_gib,
            DEFAULT_CAPACITY_GIB,
        )?;
        let slot_bytes: u64 = mebibytes(slot_mib)?;
        let buckets: u64 = environment_u64(
            "DB_LOAD_BUCKETS",
            &environment.buckets,
            DEFAULT_BUCKETS,
        )?;
        let body_capacity: u64 = gibibytes(body_gib)?;
        let blob_capacity: u64 = gibibytes(blob_gib)?;
        let database_block_bytes: u64 = mebibytes(block_mib)?;
        let rpc_delay_ms: u64 = environment_u64(
            "DB_LOAD_RPC_DELAY_MS",
            &environment.rpc_delay_ms,
            DEFAULT_RPC_DELAY_MS,
        )?;
        Ok(
            Command::Load(
                Arguments {
                    auth,
                    rpc_url,
                    tip_height,
                    fetch_threads,
                    spend_threads,
                    ring_slots,
                    slot_bytes,
                    work_dir,
                    buckets,
                    body_capacity,
                    blob_capacity,
                    database_block_bytes,
                    checkpoint: environment.checkpoint,
                    rpc_delay_ms,
                },
            ),
        )
    }
}

/// What stands in the way of an index for a chain, if anything.
pub open spec fn config_defect(arguments: Arguments, tip_height: u64) -> Option<LoadError> {
    let workers = arguments.fetch_threads + arguments.spend_threads + 1;
    let minimum = (tip_height + 1) * BODY_BYTES_PER_BLOCK;
    if workers > usize::MAX {
        Some(LoadError::InvalidInput("worker count overflow"))
    } else if workers > u16::MAX {
        Some(LoadError::InvalidInput("worker count exceeds database limit"))
    } else if minimum > u64::MAX {
        Some(LoadError::InvalidInput("minimum body capacity overflow"))
    } else if arguments.body_capacity < minimum {
        Some(LoadError::InvalidInput("body capacity is too small for one output per block"))
    } else {
        None
    }
}

/// Lays out the index for a chain up to `tip_height`.
pub fn database_config(arguments: &Arguments, tip_height: u64) -> (result: Result<
    Config,
    LoadError,
>)
    ensures
        match config_defect(*arguments, tip_height) {
            Some(error) => result == Err::<Config, LoadError>(error),
            None => result == Ok::<Config, LoadError>(
                Config {
                    mode: Mode::KeyMap,
                    bucket_count: arguments.buckets,
                    body_capacity: arguments.body_capacity,
                    blob_capacity: arguments.blob_capacity,
                    block_size: arguments.database_block_bytes,
                    hash_seed: crate::config::DEFAULT_HASH_SEED,
                },
            ),
        },
{
    let mut config = Config::new(Mode::KeyMap, arguments.buckets);
    config.block_size = arguments.database_block_bytes;
    config.body_capacity = arguments.body_capacity;
    config.blob_capacity = arguments.blob_capacity;
    let pool: Option<usize> = arguments.fetch_threads.checked_add(arguments.spend_threads);
    let workers: Option<usize> = match pool {
        Some(count) => count.checked_add(1),
        None => None,
    };
    match workers {
        Some(count) => {
            if count > u16::MAX as usize {
                return Err(LoadError::InvalidInput("worker count exceeds database limit"));
            }
        },
        None => {
            return Err(LoadError::InvalidInput("worker count overflow"));
        },
    }
    let blocks: Option<u64> = tip_height.checked_add(1);
    let minimum: Option<u64> = match blocks {
        Some(count) => count.checked_mul(BODY_BYTES_PER_BLOCK),
        None => None,
    };
    match minimum {
        Some(bytes) => {
            if config.body_capacity < bytes {
                return Err(
                    LoadError::InvalidInput("body capacity is too small for one output per block"),
                );
            }
        },
        None => {
            return Err(LoadError::InvalidInput("minimum body capacity overflow"));
        },
    }
    Ok(config)
}

/// Chooses the last height to load: the requested one, or the tip of the node.
pub fn select_tip(requested: Option<u64>, node_tip: u64) -> (result: Result<u64, LoadError>)
    ensures
        ({
            let tip = match requested {
                Some(height) => height,
                None => node_tip,
            };
            result == (if tip > node_tip {
                Err::<u64, LoadError>(
                    LoadError::InvalidInput("requested tip is above the Bitcoin Core tip"),
                )
            } else if tip == u64::MAX {
                Err(LoadError::InvalidInput("tip height overflow"))
            } else if tip > u32::MAX {
                Err(LoadError::InvalidInput("tip height does not fit the index value format"))
            } else {
                Ok(tip)
            })
        }),
{
    let tip: u64 = match requested {
        Some(height) => height,
        None => node_tip,
    };
    if tip > node_tip {
        return Err(LoadError::InvalidInput("requested tip is above the Bitcoin Core tip"));
    }
    if tip == u64::MAX {
        return Err(LoadError::InvalidInput("tip height overflow"));
    }
    if tip > u32::MAX as u64 {
        return Err(LoadError::InvalidInput("tip height does not fit the index value format"));
    }
    Ok(tip)
}

/// Whether a request may be sent again after its attempt number `attempt`,
/// counted from zero, failed.
pub fn may_retry(attempt: u32) -> (retry: bool)
    ensures
        retry == (attempt < RPC_RETRIES),
        retry == (attempt < 60),
{
    attempt < RPC_RETRIES
}

} // verus!

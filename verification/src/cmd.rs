//! Typed commands and the parser that builds them from a decoded frame.
//!
//! The parser consumes a buffer of decoded values front to back: the
//! verb, an optional subcommand, then the arguments and option flags
//! the verb admits. Clock-dependent options (`EXAT`/`PXAT`) are
//! resolved against a wall-clock instant the caller passes in.

use vstd::prelude::*;

use crate::db::{
    sat_add, sat_mul_1000, spec_del, spec_expire_applies, spec_expire_state, spec_live, spec_pttl,
    spec_set_applies, spec_set_state, spec_ttl, updates_model, Db, EntryModel, UpdateModel,
};
use crate::proto::{
    ascii_upper, bytes_eq, spec_try_as_string, spec_upper, ParseError, RedisError, Value,
    ValueModel,
};

verus! {

/// Whether a `SET` write proceeds against the current state of the key.
#[derive(Clone, Copy, Debug, PartialEq, Eq, Structural)]
pub enum SetBehaviour {
    Force,
    OnlyIfNotExists,
    OnlyIfExists,
}

/// How an `EXPIRE` gates the installation of a new deadline against the
/// current one.
#[derive(Clone, Copy, Debug, PartialEq, Eq, Structural)]
pub enum ExpireBehaviour {
    Force,
    OnlyIfNoExpiry,
    OnlyIfExpiry,
    OnlyIfGreater,
    OnlyIfLess,
}


/// A parsed request: one of the supported verbs with its arguments.
#[derive(Debug)]
pub enum RedisCommand {
    /// `COMMAND`: answered with an empty array.
    Command,
    /// `COMMAND DOCS name...`: answered with an empty array.
    CommandDocs(Vec<Vec<u8>>),
    /// `CONFIG GET glob...`: answered with an empty array.
    ConfigGet(Vec<Vec<u8>>),
    /// `GET key`.
    Get(Vec<u8>),
    /// `SET key value` with its option flags; `expiry` is relative
    /// milliseconds from the instant the command was parsed.
    SetValue {
        key: Vec<u8>,
        value: Value,
        expiry: Option<u64>,
        behaviour: SetBehaviour,
        return_old: bool,
        keep_ttl: bool,
    },
    /// `DEL key...`.
    Del(Vec<Vec<u8>>),
    /// `TTL key`.
    Ttl(Vec<u8>),
    /// `PTTL key`.
    Pttl(Vec<u8>),
    /// `EXPIRE key seconds` with its option flag.
    Expire { key: Vec<u8>, seconds: u64, behaviour: ExpireBehaviour },
    /// `KEYS glob`.
    Keys(Vec<u8>),
}

/// Model of a parsed request.
pub ghost enum CommandModel {
    Command,
    CommandDocs(Seq<Seq<u8>>),
    ConfigGet(Seq<Seq<u8>>),
    Get(Seq<u8>),
    SetValue {
        key: Seq<u8>,
        value: ValueModel,
        expiry: Option<u64>,
        behaviour: SetBehaviour,
        return_old: bool,
        keep_ttl: bool,
    },
    Del(Seq<Seq<u8>>),
    Ttl(Seq<u8>),
    Pttl(Seq<u8>),
    Expire { key: Seq<u8>, seconds: u64, behaviour: ExpireBehaviour },
    Keys(Seq<u8>),
}

pub open spec fn names_model(s: Seq<Vec<u8>>) -> Seq<Seq<u8>> {
    s.map_values(|k: Vec<u8>| k@)
}

impl View for RedisCommand {
    type V = CommandModel;

    open spec fn view(&self) -> CommandModel {
        match self {
            RedisCommand::Command => CommandModel::Command,
            RedisCommand::CommandDocs(names) => CommandModel::CommandDocs(names_model(names@)),
            RedisCommand::ConfigGet(globs) => CommandModel::ConfigGet(names_model(globs@)),
            RedisCommand::Get(key) => CommandModel::Get(key@),
            RedisCommand::SetValue { key, value, expiry, behaviour, return_old, keep_ttl } => (
            CommandModel::SetValue {
                key: key@,
                value: value@,
                expiry: *expiry,
                behaviour: *behaviour,
                return_old: *return_old,
                keep_ttl: *keep_ttl,
            }),
            RedisCommand::Del(keys) => CommandModel::Del(names_model(keys@)),
            RedisCommand::Ttl(key) => CommandModel::Ttl(key@),
            RedisCommand::Pttl(key) => CommandModel::Pttl(key@),
            RedisCommand::Expire { key, seconds, behaviour } => (CommandModel::Expire {
                key: key@,
                seconds: *seconds,
                behaviour: *behaviour,
            }),
            RedisCommand::Keys(glob) => CommandModel::Keys(glob@),
        }
    }
}

/// Consumes a decoded array frame value by value and yields the typed
/// command it spells.
pub struct CommandParser {
    pub buffer: Vec<Value>,
    pub pos: usize,
}

/// What a pop of the front yields when a string is required: the
/// payload of a string-typed value; anything else is an error. The
/// front value is consumed either way.
pub open spec fn spec_expect_string(rem: Seq<ValueModel>) -> Result<Seq<u8>, ParseError> {
    if rem.len() == 0 {
        Err(ParseError::ExpectedString)
    } else {
        match rem[0] {
            ValueModel::SimpleString(s) => Ok(s),
            ValueModel::BulkString(s) => Ok(s),
            _ => Err(ParseError::ExpectedString),
        }
    }
}

/// As `spec_expect_string`, for an integer.
pub open spec fn spec_expect_integer(rem: Seq<ValueModel>) -> Result<int, ParseError> {
    if rem.len() == 0 {
        Err(ParseError::ExpectedInteger)
    } else {
        match rem[0] {
            ValueModel::Integer(i) => Ok(i),
            _ => Err(ParseError::ExpectedInteger),
        }
    }
}

/// The buffer after one value was consumed, if one was there.
pub open spec fn spec_tail(rem: Seq<ValueModel>) -> Seq<ValueModel> {
    if rem.len() == 0 {
        rem
    } else {
        rem.drop_first()
    }
}

impl CommandParser {
    pub open spec fn wf(self) -> bool {
        self.pos <= self.buffer@.len()
    }

    /// The values not yet consumed.
    pub open spec fn remaining(self) -> Seq<ValueModel> {
        crate::proto::value_models(self.buffer@).skip(self.pos as int)
    }

    /// A parser over the elements of a decoded array frame.
    pub fn new(buffer: Vec<Value>) -> (r: CommandParser)
        ensures
            r.wf(),
            r.remaining() == crate::proto::value_models(buffer@),
    {
        let r = CommandParser { buffer, pos: 0 };
        proof {
            assert(r.remaining() =~= crate::proto::value_models(r.buffer@));
        }
        r
    }

    /// The front value, if any, without consuming it.
    pub fn peek(&self) -> (r: Option<&Value>)
        requires
            self.wf(),
        ensures
            match r {
                Some(v) => self.remaining().len() > 0 && v@ == self.remaining()[0],
                None => self.remaining().len() == 0,
            },
    {
        proof {
            crate::proto::lemma_value_models_index(self.buffer@);
        }
        if self.pos < self.buffer.len() {
            Some(&self.buffer[self.pos])
        } else {
            None
        }
    }

    /// Consume the front value, if any.
    pub fn skip(&mut self)
        requires
            old(self).wf(),
        ensures
            final(self).wf(),
            final(self).remaining() == spec_tail(old(self).remaining()),
    {
        if self.pos < self.buffer.len() {
            self.pos = self.pos + 1;
        }
        proof {
            crate::proto::lemma_value_models_index(self.buffer@);
            assert(self.remaining() =~= spec_tail(old(self).remaining()));
        }
    }

    /// Pop the front value, requiring a string-typed one.
    pub fn expect_string(&mut self) -> (r: Result<Vec<u8>, ParseError>)
        requires
            old(self).wf(),
        ensures
            final(self).wf(),
            final(self).remaining() == spec_tail(old(self).remaining()),
            match r {
                Ok(s) => spec_expect_string(old(self).remaining()) == Ok::<Seq<u8>, ParseError>(
                    s@,
                ),
                Err(e) => spec_expect_string(old(self).remaining()) == Err::<
                    Seq<u8>,
                    ParseError,
                >(e),
            },
    {
        proof {
            crate::proto::lemma_value_models_index(self.buffer@);
        }
        if self.pos >= self.buffer.len() {
            proof {
                assert(self.remaining() =~= spec_tail(old(self).remaining()));
            }
            return Err(ParseError::ExpectedString);
        }
        let out = match &self.buffer[self.pos] {
            Value::SimpleString(s) => Ok(crate::proto::clone_bytes(s)),
            Value::BulkString(s) => Ok(crate::proto::clone_bytes(s)),
            _ => Err(ParseError::ExpectedString),
        };
        self.pos = self.pos + 1;
        proof {
            assert(self.remaining() =~= spec_tail(old(self).remaining()));
        }
        out
    }

    /// Pop the front value, requiring an integer.
    pub fn expect_integer(&mut self) -> (r: Result<i64, ParseError>)
        requires
            old(self).wf(),
        ensures
            final(self).wf(),
            final(self).remaining() == spec_tail(old(self).remaining()),
            match r {
                Ok(i) => spec_expect_integer(old(self).remaining()) == Ok::<int, ParseError>(
                    i as int,
                ),
                Err(e) => spec_expect_integer(old(self).remaining()) == Err::<int, ParseError>(e),
            },
    {
        proof {
            crate::proto::lemma_value_models_index(self.buffer@);
        }
        if self.pos >= self.buffer.len() {
            proof {
                assert(self.remaining() =~= spec_tail(old(self).remaining()));
            }
            return Err(ParseError::ExpectedInteger);
        }
        let out = match &self.buffer[self.pos] {
            Value::Integer(i) => Ok(*i),
            _ => Err(ParseError::ExpectedInteger),
        };
        self.pos = self.pos + 1;
        proof {
            assert(self.remaining() =~= spec_tail(old(self).remaining()));
        }
        out
    }

    /// Pop the front value, whatever it is.
    pub fn expect_any(&mut self) -> (r: Result<Value, ParseError>)
        requires
            old(self).wf(),
        ensures
            final(self).wf(),
            final(self).remaining() == spec_tail(old(self).remaining()),
            match r {
                Ok(v) => old(self).remaining().len() > 0 && v@ == old(self).remaining()[0],
                Err(e) => old(self).remaining().len() == 0 && e == ParseError::ExpectedAny,
            },
    {
        proof {
            crate::proto::lemma_value_models_index(self.buffer@);
        }
        if self.pos >= self.buffer.len() {
            proof {
                assert(self.remaining() =~= spec_tail(old(self).remaining()));
            }
            return Err(ParseError::ExpectedAny);
        }
        let out = self.buffer[self.pos].deep_clone();
        self.pos = self.pos + 1;
        proof {
            assert(self.remaining() =~= spec_tail(old(self).remaining()));
        }
        Ok(out)
    }
}



// The keywords of the request grammar, as byte strings.

pub open spec fn kw_command() -> Seq<u8> {
    seq![67u8, 79u8, 77u8, 77u8, 65u8, 78u8, 68u8]  // "COMMAND"
}

fn kw_command_vec() -> (r: Vec<u8>)
    ensures
        r@ == kw_command(),
{
    let mut v: Vec<u8> = Vec::new();
    v.push(67);
    v.push(79);
    v.push(77);
    v.push(77);
    v.push(65);
    v.push(78);
    v.push(68);
    proof {
        assert(v@ =~= kw_command());
    }
    v
}

pub open spec fn kw_docs() -> Seq<u8> {
    seq![68u8, 79u8, 67u8, 83u8]  // "DOCS"
}

fn kw_docs_vec() -> (r: Vec<u8>)
    ensures
        r@ == kw_docs(),
{
    let mut v: Vec<u8> = Vec::new();
    v.push(68);
    v.push(79);
    v.push(67);
    v.push(83);
    proof {
        assert(v@ =~= kw_docs());
    }
    v
}

pub open spec fn kw_config() -> Seq<u8> {
    seq![67u8, 79u8, 78u8, 70u8, 73u8, 71u8]  // "CONFIG"
}

fn kw_config_vec() -> (r: Vec<u8>)
    ensures
        r@ == kw_config(),
{
    let mut v: Vec<u8> = Vec::new();
    v.push(67);
    v.push(79);
    v.push(78);
    v.push(70);
    v.push(73);
    v.push(71);
    proof {
        assert(v@ =~= kw_config());
    }
    v
}

pub open spec fn kw_get() -> Seq<u8> {
    seq![71u8, 69u8, 84u8]  // "GET"
}

fn kw_get_vec() -> (r: Vec<u8>)
    ensures
        r@ == kw_get(),
{
    let mut v: Vec<u8> = Vec::new();
    v.push(71);
    v.push(69);
    v.push(84);
    proof {
        assert(v@ =~= kw_get());
    }
    v
}

pub open spec fn kw_set() -> Seq<u8> {
    seq![83u8, 69u8, 84u8]  // "SET"
}

fn kw_set_vec() -> (r: Vec<u8>)
    ensures
        r@ == kw_set(),
{
    let mut v: Vec<u8> = Vec::new();
    v.push(83);
    v.push(69);
    v.push(84);
    proof {
        assert(v@ =~= kw_set());
    }
    v
}

pub open spec fn kw_del() -> Seq<u8> {
    seq![68u8, 69u8, 76u8]  // "DEL"
}

fn kw_del_vec() -> (r: Vec<u8>)
    ensures
        r@ == kw_del(),
{
    let mut v: Vec<u8> = Vec::new();
    v.push(68);
    v.push(69);
    v.push(76);
    proof {
        assert(v@ =~= kw_del());
    }
    v
}

pub open spec fn kw_ttl() -> Seq<u8> {
    seq![84u8, 84u8, 76u8]  // "TTL"
}

fn kw_ttl_vec() -> (r: Vec<u8>)
    ensures
        r@ == kw_ttl(),
{
    let mut v: Vec<u8> = Vec::new();
    v.push(84);
    v.push(84);
    v.push(76);
    proof {
        assert(v@ =~= kw_ttl());
    }
    v
}

pub open spec fn kw_pttl() -> Seq<u8> {
    seq![80u8, 84u8, 84u8, 76u8]  // "PTTL"
}

fn kw_pttl_vec() -> (r: Vec<u8>)
    ensures
        r@ == kw_pttl(),
{
    let mut v: Vec<u8> = Vec::new();
    v.push(80);
    v.push(84);
    v.push(84);
    v.push(76);
    proof {
        assert(v@ =~= kw_pttl());
    }
    v
}

pub open spec fn kw_expire() -> Seq<u8> {
    seq![69u8, 88u8, 80u8, 73u8, 82u8, 69u8]  // "EXPIRE"
}

fn kw_expire_vec() -> (r: Vec<u8>)
    ensures
        r@ == kw_expire(),
{
    let mut v: Vec<u8> = Vec::new();
    v.push(69);
    v.push(88);
    v.push(80);
    v.push(73);
    v.push(82);
    v.push(69);
    proof {
        assert(v@ =~= kw_expire());
    }
    v
}

pub open spec fn kw_keys() -> Seq<u8> {
    seq![75u8, 69u8, 89u8, 83u8]  // "KEYS"
}

fn kw_keys_vec() -> (r: Vec<u8>)
    ensures
        r@ == kw_keys(),
{
    let mut v: Vec<u8> = Vec::new();
    v.push(75);
    v.push(69);
    v.push(89);
    v.push(83);
    proof {
        assert(v@ =~= kw_keys());
    }
    v
}

pub open spec fn kw_nx() -> Seq<u8> {
    seq![78u8, 88u8]  // "NX"
}

fn kw_nx_vec() -> (r: Vec<u8>)
    ensures
        r@ == kw_nx(),
{
    let mut v: Vec<u8> = Vec::new();
    v.push(78);
    v.push(88);
    proof {
        assert(v@ =~= kw_nx());
    }
    v
}

pub open spec fn kw_xx() -> Seq<u8> {
    seq![88u8, 88u8]  // "XX"
}

fn kw_xx_vec() -> (r: Vec<u8>)
    ensures
        r@ == kw_xx(),
{
    let mut v: Vec<u8> = Vec::new();
    v.push(88);
    v.push(88);
    proof {
        assert(v@ =~= kw_xx());
    }
    v
}

pub open spec fn kw_gt() -> Seq<u8> {
    seq![71u8, 84u8]  // "GT"
}

fn kw_gt_vec() -> (r: Vec<u8>)
    ensures
        r@ == kw_gt(),
{
    let mut v: Vec<u8> = Vec::new();
    v.push(71);
    v.push(84);
    proof {
        assert(v@ =~= kw_gt());
    }
    v
}

pub open spec fn kw_lt() -> Seq<u8> {
    seq![76u8, 84u8]  // "LT"
}

fn kw_lt_vec() -> (r: Vec<u8>)
    ensures
        r@ == kw_lt(),
{
    let mut v: Vec<u8> = Vec::new();
    v.push(76);
    v.push(84);
    proof {
        assert(v@ =~= kw_lt());
    }
    v
}

pub open spec fn kw_ex() -> Seq<u8> {
    seq![69u8, 88u8]  // "EX"
}

fn kw_ex_vec() -> (r: Vec<u8>)
    ensures
        r@ == kw_ex(),
{
    let mut v: Vec<u8> = Vec::new();
    v.push(69);
    v.push(88);
    proof {
        assert(v@ =~= kw_ex());
    }
    v
}

pub open spec fn kw_px() -> Seq<u8> {
    seq![80u8, 88u8]  // "PX"
}

fn kw_px_vec() -> (r: Vec<u8>)
    ensures
        r@ == kw_px(),
{
    let mut v: Vec<u8> = Vec::new();
    v.push(80);
    v.push(88);
    proof {
        assert(v@ =~= kw_px());
    }
    v
}

pub open spec fn kw_exat() -> Seq<u8> {
    seq![69u8, 88u8, 65u8, 84u8]  // "EXAT"
}

fn kw_exat_vec() -> (r: Vec<u8>)
    ensures
        r@ == kw_exat(),
{
    let mut v: Vec<u8> = Vec::new();
    v.push(69);
    v.push(88);
    v.push(65);
    v.push(84);
    proof {
        assert(v@ =~= kw_exat());
    }
    v
}

pub open spec fn kw_pxat() -> Seq<u8> {
    seq![80u8, 88u8, 65u8, 84u8]  // "PXAT"
}

fn kw_pxat_vec() -> (r: Vec<u8>)
    ensures
        r@ == kw_pxat(),
{
    let mut v: Vec<u8> = Vec::new();
    v.push(80);
    v.push(88);
    v.push(65);
    v.push(84);
    proof {
        assert(v@ =~= kw_pxat());
    }
    v
}

pub open spec fn kw_keepttl() -> Seq<u8> {
    seq![75u8, 69u8, 69u8, 80u8, 84u8, 84u8, 76u8]  // "KEEPTTL"
}

fn kw_keepttl_vec() -> (r: Vec<u8>)
    ensures
        r@ == kw_keepttl(),
{
    let mut v: Vec<u8> = Vec::new();
    v.push(75);
    v.push(69);
    v.push(69);
    v.push(80);
    v.push(84);
    v.push(84);
    v.push(76);
    proof {
        assert(v@ =~= kw_keepttl());
    }
    v
}

/// The keyword the front value spells, if it is a string-typed value:
/// its payload upper-cased.
pub open spec fn spec_peek_kw(rem: Seq<ValueModel>) -> Option<Seq<u8>> {
    if rem.len() == 0 {
        None
    } else {
        spec_try_as_string(rem[0])
    }
}

/// The longest run of string payloads at the front of the buffer.
pub open spec fn spec_string_prefix(rem: Seq<ValueModel>) -> Seq<Seq<u8>>
    decreases rem.len(),
{
    if rem.len() == 0 {
        Seq::empty()
    } else {
        match rem[0] {
            ValueModel::SimpleString(s) => seq![s] + spec_string_prefix(rem.drop_first()),
            ValueModel::BulkString(s) => seq![s] + spec_string_prefix(rem.drop_first()),
            _ => Seq::empty(),
        }
    }
}

/// What parsing a buffered frame yields: the typed command the values
/// spell, per the verb table, or the parse error the first ill-formed
/// token raises. `now` is the wall-clock instant in milliseconds used
/// to turn the absolute deadlines of `EXAT`/`PXAT` into relative ones;
/// an absolute deadline already in the past yields no expiry.
pub open spec fn spec_parse_command(rem: Seq<ValueModel>, now: u64) -> Result<
    CommandModel,
    ParseError,
> {
    match spec_expect_string(rem) {
        Err(e) => Err(e),
        Ok(raw) => {
            let verb = spec_upper(raw);
            let rem1 = spec_tail(rem);
            if verb == kw_command() {
                match spec_expect_string(rem1) {
                    Ok(sub) => if spec_upper(sub) == kw_docs() {
                        Ok(CommandModel::CommandDocs(spec_string_prefix(spec_tail(rem1))))
                    } else {
                        Err(ParseError::UnknownCommand)
                    },
                    Err(_) => Ok(CommandModel::Command),
                }
            } else if verb == kw_config() {
                match spec_expect_string(rem1) {
                    Err(e) => Err(e),
                    Ok(sub) => if spec_upper(sub) == kw_get() {
                        Ok(CommandModel::ConfigGet(spec_string_prefix(spec_tail(rem1))))
                    } else {
                        Err(ParseError::UnknownCommand)
                    },
                }
            } else if verb == kw_get() {
                match spec_expect_string(rem1) {
                    Ok(k) => Ok(CommandModel::Get(k)),
                    Err(e) => Err(e),
                }
            } else if verb == kw_set() {
                spec_parse_set(rem1, now)
            } else if verb == kw_del() {
                Ok(CommandModel::Del(spec_string_prefix(rem1)))
            } else if verb == kw_ttl() {
                match spec_expect_string(rem1) {
                    Ok(k) => Ok(CommandModel::Ttl(k)),
                    Err(e) => Err(e),
                }
            } else if verb == kw_pttl() {
                match spec_expect_string(rem1) {
                    Ok(k) => Ok(CommandModel::Pttl(k)),
                    Err(e) => Err(e),
                }
            } else if verb == kw_expire() {
                spec_parse_expire(rem1)
            } else if verb == kw_keys() {
                match spec_expect_string(rem1) {
                    Ok(g) => Ok(CommandModel::Keys(g)),
                    Err(e) => Err(e),
                }
            } else {
                Err(ParseError::UnknownCommand)
            }
        },
    }
}

/// The argument tail of a `SET`: key, value, then the option flags in
/// any order.
pub open spec fn spec_parse_set(rem: Seq<ValueModel>, now: u64) -> Result<
    CommandModel,
    ParseError,
> {
    match spec_expect_string(rem) {
        Err(e) => Err(e),
        Ok(key) => {
            let rem1 = spec_tail(rem);
            if rem1.len() == 0 {
                Err(ParseError::ExpectedAny)
            } else {
                spec_parse_set_flags(key, rem1[0], None, false, None, rem1.drop_first(), now)
            }
        },
    }
}

/// The option flags of a `SET`, read in any order after key and value:
/// at most one of `NX`/`XX`, at most one `GET`, and at most one of
/// `EX`/`PX`/`EXAT`/`PXAT`/`KEEPTTL`. A token that is not string-typed
/// is an error; an unknown flag word, or a second flag from a group
/// already given, is an error too. The accumulators hold what the
/// flags read so far decided: `behaviour` and `expiry` are `None`
/// while their group has not appeared, and `expiry` resolves to the
/// relative deadline and the keep-TTL mark together.
pub open spec fn spec_parse_set_flags(
    key: Seq<u8>,
    value: ValueModel,
    behaviour: Option<SetBehaviour>,
    return_old: bool,
    expiry: Option<(Option<u64>, bool)>,
    rem: Seq<ValueModel>,
    now: u64,
) -> Result<CommandModel, ParseError>
    decreases rem.len(),
{
    if rem.len() == 0 {
        Ok(
            (CommandModel::SetValue {
                key,
                value,
                expiry: match expiry {
                    Some(e) => e.0,
                    None => None,
                },
                behaviour: match behaviour {
                    Some(b) => b,
                    None => SetBehaviour::Force,
                },
                return_old,
                keep_ttl: match expiry {
                    Some(e) => e.1,
                    None => false,
                },
            }),
        )
    } else {
        match spec_try_as_string(rem[0]) {
            None => Err(ParseError::ExpectedString),
            Some(kw) => {
                if kw == kw_nx() || kw == kw_xx() {
                    if behaviour is Some {
                        Err(ParseError::UnknownCommand)
                    } else {
                        let b = if kw == kw_nx() {
                            SetBehaviour::OnlyIfNotExists
                        } else {
                            SetBehaviour::OnlyIfExists
                        };
                        spec_parse_set_flags(
                            key,
                            value,
                            Some(b),
                            return_old,
                            expiry,
                            rem.drop_first(),
                            now,
                        )
                    }
                } else if kw == kw_get() {
                    if return_old {
                        Err(ParseError::UnknownCommand)
                    } else {
                        spec_parse_set_flags(
                            key,
                            value,
                            behaviour,
                            true,
                            expiry,
                            rem.drop_first(),
                            now,
                        )
                    }
                } else if kw == kw_ex() || kw == kw_px() || kw == kw_exat() || kw == kw_pxat() {
                    if expiry is Some {
                        Err(ParseError::UnknownCommand)
                    } else {
                        match spec_expect_integer(rem.drop_first()) {
                            Err(e) => Err(e),
                            Ok(n) => spec_parse_set_flags(
                                key,
                                value,
                                behaviour,
                                return_old,
                                Some((spec_resolve_expiry(kw, n, now), false)),
                                spec_tail(rem.drop_first()),
                                now,
                            ),
                        }
                    }
                } else if kw == kw_keepttl() {
                    if expiry is Some {
                        Err(ParseError::UnknownCommand)
                    } else {
                        spec_parse_set_flags(
                            key,
                            value,
                            behaviour,
                            return_old,
                            Some((None, true)),
                            rem.drop_first(),
                            now,
                        )
                    }
                } else {
                    Err(ParseError::UnknownCommand)
                }
            },
        }
    }
}

/// The relative expiry a timed flag resolves to: `EX` and `PX` read a
/// span in seconds or milliseconds; `EXAT` and `PXAT` read an absolute
/// wall-clock instant and take what remains of it at `now`, or no
/// expiry at all when it has already passed.
pub open spec fn spec_resolve_expiry(kw: Seq<u8>, n: int, now: u64) -> Option<u64> {
    if kw == kw_ex() {
        Some(sat_mul_1000(n as u64))
    } else if kw == kw_px() {
        Some(n as u64)
    } else {
        let abs = if kw == kw_exat() {
            sat_mul_1000(n as u64)
        } else {
            n as u64
        };
        if abs >= now {
            Some((abs - now) as u64)
        } else {
            None
        }
    }
}


/// The argument tail of an `EXPIRE`: key, seconds, optional flag.
pub open spec fn spec_parse_expire(rem: Seq<ValueModel>) -> Result<CommandModel, ParseError> {
    match spec_expect_string(rem) {
        Err(e) => Err(e),
        Ok(key) => match spec_expect_integer(spec_tail(rem)) {
            Err(e) => Err(e),
            Ok(secs) => {
                let rem2 = spec_tail(spec_tail(rem));
                let kwo = spec_peek_kw(rem2);
                let behaviour = if kwo == Some(kw_nx()) {
                    ExpireBehaviour::OnlyIfNoExpiry
                } else if kwo == Some(kw_xx()) {
                    ExpireBehaviour::OnlyIfExpiry
                } else if kwo == Some(kw_gt()) {
                    ExpireBehaviour::OnlyIfGreater
                } else if kwo == Some(kw_lt()) {
                    ExpireBehaviour::OnlyIfLess
                } else {
                    ExpireBehaviour::Force
                };
                Ok((CommandModel::Expire { key, seconds: secs as u64, behaviour }))
            },
        },
    }
}

impl CommandParser {
    /// The front value's keyword reading, if it has one.
    fn peek_kw(&self) -> (r: Option<Vec<u8>>)
        requires
            self.wf(),
        ensures
            match r {
                Some(s) => spec_peek_kw(self.remaining()) == Some(s@),
                None => spec_peek_kw(self.remaining()) is None,
            },
    {
        match self.peek() {
            Some(v) => v.try_as_string(),
            None => None,
        }
    }

    /// Whether the front value is string-typed.
    fn front_is_string(&self) -> (r: bool)
        requires
            self.wf(),
        ensures
            r == (self.remaining().len() > 0 && (self.remaining()[0] is SimpleString
                || self.remaining()[0] is BulkString)),
    {
        match self.peek() {
            Some(v) => match v {
                Value::SimpleString(_) => true,
                Value::BulkString(_) => true,
                _ => false,
            },
            None => false,
        }
    }

    /// Pop the longest run of string-typed values at the front.
    fn collect_strings(&mut self) -> (r: Vec<Vec<u8>>)
        requires
            old(self).wf(),
        ensures
            final(self).wf(),
            names_model(r@) == spec_string_prefix(old(self).remaining()),
    {
        let mut out: Vec<Vec<u8>> = Vec::new();
        proof {
            assert(names_model(out@) =~= Seq::<Seq<u8>>::empty());
        }
        while self.front_is_string()
            invariant
                self.wf(),
                spec_string_prefix(old(self).remaining()) =~= names_model(out@)
                    + spec_string_prefix(self.remaining()),
            decreases self.remaining().len(),
        {
            let ghost pre = self.remaining();
            let ghost pre_out = out@;
            let s = match self.expect_string() {
                Ok(s) => s,
                Err(_) => {
                    proof {
                        assert(false);
                    }
                    Vec::new()
                },
            };
            out.push(s);
            proof {
                assert(names_model(out@) =~= names_model(pre_out).push(s@));
                assert(spec_string_prefix(pre) =~= seq![s@] + spec_string_prefix(
                    self.remaining(),
                ));
                assert(names_model(pre_out) + (seq![s@] + spec_string_prefix(self.remaining()))
                    =~= names_model(pre_out).push(s@) + spec_string_prefix(self.remaining()));
            }
        }
        proof {
            assert(spec_string_prefix(self.remaining()) =~= Seq::<Seq<u8>>::empty());
            assert(names_model(out@) + Seq::<Seq<u8>>::empty() =~= names_model(out@));
        }
        out
    }

    /// Parse the buffered frame into a typed command.
    ///
    /// `now_unix_ms` is the wall-clock instant in milliseconds since
    /// the epoch, used to turn `EXAT`/`PXAT` deadlines into relative
    /// expiries.
    pub fn parse(self, now_unix_ms: u64) -> (r: Result<RedisCommand, ParseError>)
        requires
            self.wf(),
        ensures
            match r {
                Ok(c) => spec_parse_command(self.remaining(), now_unix_ms) == Ok::<
                    CommandModel,
                    ParseError,
                >(c@),
                Err(e) => spec_parse_command(self.remaining(), now_unix_ms) == Err::<
                    CommandModel,
                    ParseError,
                >(e),
            },
    {
        let mut p = self;
        let name = match p.expect_string() {
            Ok(s) => s,
            Err(e) => {
                return Err(e);
            },
        };
        let verb = ascii_upper(name.as_slice());
        if bytes_eq(verb.as_slice(), kw_command_vec().as_slice()) {
            match p.expect_string() {
                Ok(sub_raw) => {
                    let sub = ascii_upper(sub_raw.as_slice());
                    if bytes_eq(sub.as_slice(), kw_docs_vec().as_slice()) {
                        let names = p.collect_strings();
                        Ok(RedisCommand::CommandDocs(names))
                    } else {
                        Err(ParseError::UnknownCommand)
                    }
                },
                Err(_) => Ok(RedisCommand::Command),
            }
        } else if bytes_eq(verb.as_slice(), kw_config_vec().as_slice()) {
            match p.expect_string() {
                Err(e) => Err(e),
                Ok(sub_raw) => {
                    let sub = ascii_upper(sub_raw.as_slice());
                    if bytes_eq(sub.as_slice(), kw_get_vec().as_slice()) {
                        let globs = p.collect_strings();
                        Ok(RedisCommand::ConfigGet(globs))
                    } else {
                        Err(ParseError::UnknownCommand)
                    }
                },
            }
        } else if bytes_eq(verb.as_slice(), kw_get_vec().as_slice()) {
            match p.expect_string() {
                Ok(k) => Ok(RedisCommand::Get(k)),
                Err(e) => Err(e),
            }
        } else if bytes_eq(verb.as_slice(), kw_set_vec().as_slice()) {
            p.parse_set(now_unix_ms)
        } else if bytes_eq(verb.as_slice(), kw_del_vec().as_slice()) {
            let keys = p.collect_strings();
            Ok(RedisCommand::Del(keys))
        } else if bytes_eq(verb.as_slice(), kw_ttl_vec().as_slice()) {
            match p.expect_string() {
                Ok(k) => Ok(RedisCommand::Ttl(k)),
                Err(e) => Err(e),
            }
        } else if bytes_eq(verb.as_slice(), kw_pttl_vec().as_slice()) {
            match p.expect_string() {
                Ok(k) => Ok(RedisCommand::Pttl(k)),
                Err(e) => Err(e),
            }
        } else if bytes_eq(verb.as_slice(), kw_expire_vec().as_slice()) {
            p.parse_expire()
        } else if bytes_eq(verb.as_slice(), kw_keys_vec().as_slice()) {
            match p.expect_string() {
                Ok(g) => Ok(RedisCommand::Keys(g)),
                Err(e) => Err(e),
            }
        } else {
            Err(ParseError::UnknownCommand)
        }
    }

    /// The argument tail of a `SET`: key, value, then the option
    /// flags in any order.
    fn parse_set(&mut self, now_unix_ms: u64) -> (r: Result<RedisCommand, ParseError>)
        requires
            old(self).wf(),
        ensures
            match r {
                Ok(c) => spec_parse_set(old(self).remaining(), now_unix_ms) == Ok::<
                    CommandModel,
                    ParseError,
                >(c@),
                Err(e) => spec_parse_set(old(self).remaining(), now_unix_ms) == Err::<
                    CommandModel,
                    ParseError,
                >(e),
            },
    {
        let key = match self.expect_string() {
            Ok(s) => s,
            Err(e) => {
                return Err(e);
            },
        };
        let value = match self.expect_any() {
            Ok(v) => v,
            Err(e) => {
                return Err(e);
            },
        };
        let mut behaviour: Option<SetBehaviour> = None;
        let mut return_old: bool = false;
        let mut expiry: Option<(Option<u64>, bool)> = None;
        loop
            invariant
                self.wf(),
                spec_parse_set_flags(
                    key@,
                    value@,
                    behaviour,
                    return_old,
                    expiry,
                    self.remaining(),
                    now_unix_ms,
                ) == spec_parse_set(old(self).remaining(), now_unix_ms),
            decreases self.remaining().len(),
        {
            let at_end = match self.peek() {
                Some(_) => false,
                None => true,
            };
            if at_end {
                return Ok(
                    RedisCommand::SetValue {
                        key,
                        value,
                        expiry: match expiry {
                            Some(e) => e.0,
                            None => None,
                        },
                        behaviour: match behaviour {
                            Some(b) => b,
                            None => SetBehaviour::Force,
                        },
                        return_old,
                        keep_ttl: match expiry {
                            Some(e) => e.1,
                            None => false,
                        },
                    },
                );
            }
            let f = match self.peek_kw() {
                Some(f) => f,
                None => {
                    return Err(ParseError::ExpectedString);
                },
            };
            if bytes_eq(f.as_slice(), kw_nx_vec().as_slice()) {
                if behaviour.is_some() {
                    return Err(ParseError::UnknownCommand);
                }
                self.skip();
                behaviour = Some(SetBehaviour::OnlyIfNotExists);
            } else if bytes_eq(f.as_slice(), kw_xx_vec().as_slice()) {
                if behaviour.is_some() {
                    return Err(ParseError::UnknownCommand);
                }
                self.skip();
                behaviour = Some(SetBehaviour::OnlyIfExists);
            } else if bytes_eq(f.as_slice(), kw_get_vec().as_slice()) {
                if return_old {
                    return Err(ParseError::UnknownCommand);
                }
                self.skip();
                return_old = true;
            } else if bytes_eq(f.as_slice(), kw_ex_vec().as_slice()) {
                if expiry.is_some() {
                    return Err(ParseError::UnknownCommand);
                }
                self.skip();
                let secs = match self.expect_integer() {
                    Ok(i) => i,
                    Err(e) => {
                        return Err(e);
                    },
                };
                let su = #[verifier::truncate] (secs as u64);
                let ms = if su <= u64::MAX / 1000 {
                    su * 1000
                } else {
                    u64::MAX
                };
                proof {
                    assert(su <= u64::MAX / 1000 <==> su * 1000 <= u64::MAX) by (nonlinear_arith);
                }
                expiry = Some((Some(ms), false));
            } else if bytes_eq(f.as_slice(), kw_px_vec().as_slice()) {
                if expiry.is_some() {
                    return Err(ParseError::UnknownCommand);
                }
                self.skip();
                let millis = match self.expect_integer() {
                    Ok(i) => i,
                    Err(e) => {
                        return Err(e);
                    },
                };
                expiry = Some((Some(#[verifier::truncate] (millis as u64)), false));
            } else if bytes_eq(f.as_slice(), kw_exat_vec().as_slice()) {
                if expiry.is_some() {
                    return Err(ParseError::UnknownCommand);
                }
                self.skip();
                let secs = match self.expect_integer() {
                    Ok(i) => i,
                    Err(e) => {
                        return Err(e);
                    },
                };
                let su = #[verifier::truncate] (secs as u64);
                let abs = if su <= u64::MAX / 1000 {
                    su * 1000
                } else {
                    u64::MAX
                };
                proof {
                    assert(su <= u64::MAX / 1000 <==> su * 1000 <= u64::MAX) by (nonlinear_arith);
                }
                expiry = Some(
                    (
                        if abs >= now_unix_ms {
                            Some(abs - now_unix_ms)
                        } else {
                            None
                        },
                        false,
                    ),
                );
            } else if bytes_eq(f.as_slice(), kw_pxat_vec().as_slice()) {
                if expiry.is_some() {
                    return Err(ParseError::UnknownCommand);
                }
                self.skip();
                let millis = match self.expect_integer() {
                    Ok(i) => i,
                    Err(e) => {
                        return Err(e);
                    },
                };
                let abs = #[verifier::truncate] (millis as u64);
                expiry = Some(
                    (
                        if abs >= now_unix_ms {
                            Some(abs - now_unix_ms)
                        } else {
                            None
                        },
                        false,
                    ),
                );
            } else if bytes_eq(f.as_slice(), kw_keepttl_vec().as_slice()) {
                if expiry.is_some() {
                    return Err(ParseError::UnknownCommand);
                }
                self.skip();
                expiry = Some((None, true));
            } else {
                return Err(ParseError::UnknownCommand);
            }
        }
    }


    /// The argument tail of an `EXPIRE`.
    fn parse_expire(&mut self) -> (r: Result<RedisCommand, ParseError>)
        requires
            old(self).wf(),
        ensures
            match r {
                Ok(c) => spec_parse_expire(old(self).remaining()) == Ok::<
                    CommandModel,
                    ParseError,
                >(c@),
                Err(e) => spec_parse_expire(old(self).remaining()) == Err::<
                    CommandModel,
                    ParseError,
                >(e),
            },
    {
        let key = match self.expect_string() {
            Ok(s) => s,
            Err(e) => {
                return Err(e);
            },
        };
        let secs = match self.expect_integer() {
            Ok(i) => i,
            Err(e) => {
                return Err(e);
            },
        };
        let seconds = #[verifier::truncate] (secs as u64);
        let behaviour: ExpireBehaviour;
        match self.peek_kw() {
            Some(f) => {
                if bytes_eq(f.as_slice(), kw_nx_vec().as_slice()) {
                    self.skip();
                    behaviour = ExpireBehaviour::OnlyIfNoExpiry;
                } else if bytes_eq(f.as_slice(), kw_xx_vec().as_slice()) {
                    self.skip();
                    behaviour = ExpireBehaviour::OnlyIfExpiry;
                } else if bytes_eq(f.as_slice(), kw_gt_vec().as_slice()) {
                    self.skip();
                    behaviour = ExpireBehaviour::OnlyIfGreater;
                } else if bytes_eq(f.as_slice(), kw_lt_vec().as_slice()) {
                    self.skip();
                    behaviour = ExpireBehaviour::OnlyIfLess;
                } else {
                    behaviour = ExpireBehaviour::Force;
                }
            },
            None => {
                behaviour = ExpireBehaviour::Force;
            },
        }
        Ok(RedisCommand::Expire { key, seconds, behaviour })
    }
}



/// The canonical success reply text.
pub open spec fn ok_reply() -> Seq<u8> {
    seq![79u8, 75u8]  // "OK"
}

/// The reply text for a verb the executor does not support.
pub open spec fn msg_unsupported() -> Seq<u8> {
    seq![69u8, 82u8, 82u8, 32u8, 117u8, 110u8, 115u8, 117u8, 112u8, 112u8, 111u8, 114u8, 116u8, 101u8, 100u8, 32u8, 99u8, 111u8, 109u8, 109u8, 97u8, 110u8, 100u8]  // "ERR unsupported command"
}

fn msg_unsupported_vec() -> (r: Vec<u8>)
    ensures
        r@ == msg_unsupported(),
{
    let mut v: Vec<u8> = Vec::new();
    v.push(69);
    v.push(82);
    v.push(82);
    v.push(32);
    v.push(117);
    v.push(110);
    v.push(115);
    v.push(117);
    v.push(112);
    v.push(112);
    v.push(111);
    v.push(114);
    v.push(116);
    v.push(101);
    v.push(100);
    v.push(32);
    v.push(99);
    v.push(111);
    v.push(109);
    v.push(109);
    v.push(97);
    v.push(110);
    v.push(100);
    proof {
        assert(v@ =~= msg_unsupported());
    }
    v
}

/// A count clipped to the largest reply integer.
pub open spec fn clip_i64(n: int) -> int {
    if n > i64::MAX {
        i64::MAX as int
    } else {
        n
    }
}

/// The reply a command is owed against keyspace state `m0` at instant
/// `now`, per the reply table: stubs answer an empty array, `GET` the
/// live value or the null string, `SET` the prior value under its
/// `GET` flag and otherwise `OK` or the null string, `DEL` and the TTL
/// verbs an integer, and an unsupported verb an error.
pub open spec fn spec_reply(
    c: CommandModel,
    m0: Map<Seq<u8>, EntryModel>,
    now: u64,
) -> ValueModel {
    match c {
        CommandModel::Command => ValueModel::Array(Seq::empty()),
        CommandModel::CommandDocs(_) => ValueModel::Array(Seq::empty()),
        CommandModel::ConfigGet(_) => ValueModel::Array(Seq::empty()),
        CommandModel::Get(k) => if spec_live(m0, k, now) {
            m0[k].value
        } else {
            ValueModel::NullString
        },
        CommandModel::SetValue { key, value, expiry, behaviour, return_old, keep_ttl } => {
            if return_old {
                if m0.contains_key(key) {
                    m0[key].value
                } else {
                    ValueModel::NullString
                }
            } else {
                if spec_set_applies(m0, key, behaviour) {
                    ValueModel::SimpleString(ok_reply())
                } else {
                    ValueModel::NullString
                }
            }
        },
        CommandModel::Del(keys) => ValueModel::Integer(clip_i64(spec_del(m0, keys).1)),
        CommandModel::Ttl(k) => ValueModel::Integer(spec_ttl(m0, k, now)),
        CommandModel::Pttl(k) => ValueModel::Integer(spec_pttl(m0, k, now)),
        CommandModel::Expire { key, seconds, behaviour } => ValueModel::Integer(
            if m0.contains_key(key) && spec_expire_applies(
                m0[key],
                sat_add(now, sat_mul_1000(seconds)),
                behaviour,
            ) {
                1
            } else {
                0
            },
        ),
        CommandModel::Keys(_) => ValueModel::Error(msg_unsupported()),
    }
}

/// What a command does to the keyspace state: only the writers touch
/// it; everything else leaves map, counter and message queue alone.
pub open spec fn spec_apply_state(
    c: CommandModel,
    m0: Map<Seq<u8>, EntryModel>,
    n0: u64,
    p0: Seq<UpdateModel>,
    now: u64,
) -> (Map<Seq<u8>, EntryModel>, u64, Seq<UpdateModel>) {
    match c {
        CommandModel::SetValue { key, value, expiry, behaviour, return_old, keep_ttl } => (
        spec_set_state(m0, n0, p0, key, value, expiry, behaviour, keep_ttl, now)),
        CommandModel::Del(keys) => {
            let d = spec_del(m0, keys);
            (d.0, n0, p0 + d.2)
        },
        CommandModel::Expire { key, seconds, behaviour } => {
            let st = spec_expire_state(m0, n0, p0, key, seconds, behaviour, now);
            (st.0, st.1, st.2)
        },
        _ => (m0, n0, p0),
    }
}

impl RedisCommand {
    /// Execute the command against the keyspace, effectful only through
    /// it, and answer the reply value the client is owed.
    pub fn apply(self, db: &mut Db, now: u64) -> (r: Value)
        requires
            old(db).wf(),
            old(db).next_handle < u64::MAX,
        ensures
            final(db).wf(),
            r@ == spec_reply(self@, old(db)@, now),
            ({
                let st = spec_apply_state(
                    self@,
                    old(db)@,
                    old(db).next_handle,
                    updates_model(old(db).pending@),
                    now,
                );
                final(db)@ == st.0 && final(db).next_handle == st.1 && updates_model(
                    final(db).pending@,
                ) == st.2
            }),
    {
        match self {
            RedisCommand::Command => {
                let items: Vec<Value> = Vec::new();
                proof {
                    assert(crate::proto::value_models(items@) =~= Seq::<ValueModel>::empty());
                }
                Value::Array(items)
            },
            RedisCommand::CommandDocs(_) => {
                let items: Vec<Value> = Vec::new();
                proof {
                    assert(crate::proto::value_models(items@) =~= Seq::<ValueModel>::empty());
                }
                Value::Array(items)
            },
            RedisCommand::ConfigGet(_) => {
                let items: Vec<Value> = Vec::new();
                proof {
                    assert(crate::proto::value_models(items@) =~= Seq::<ValueModel>::empty());
                }
                Value::Array(items)
            },
            RedisCommand::Get(key) => {
                match db.get(key.as_slice(), now) {
                    Some(v) => v,
                    None => Value::NullString,
                }
            },
            RedisCommand::SetValue { key, value, expiry, behaviour, return_old, keep_ttl } => {
                let out = db.set(key, value, expiry, behaviour, keep_ttl, now);
                if return_old {
                    match out.1 {
                        Some(v) => v,
                        None => Value::NullString,
                    }
                } else {
                    if out.0 {
                        let mut ok: Vec<u8> = Vec::new();
                        ok.push(79);
                        ok.push(75);
                        proof {
                            assert(ok@ =~= ok_reply());
                        }
                        Value::SimpleString(ok)
                    } else {
                        Value::NullString
                    }
                }
            },
            RedisCommand::Del(keys) => {
                let count = db.remove(keys);
                let c: i64 = if (count as u64) <= (i64::MAX as u64) {
                    count as i64
                } else {
                    i64::MAX
                };
                Value::Integer(c)
            },
            RedisCommand::Ttl(key) => Value::Integer(db.ttl(key.as_slice(), now)),
            RedisCommand::Pttl(key) => Value::Integer(db.pttl(key.as_slice(), now)),
            RedisCommand::Expire { key, seconds, behaviour } => {
                let installed = db.set_expire(key.as_slice(), seconds, behaviour, now);
                Value::Integer(
                    if installed {
                        1
                    } else {
                        0
                    },
                )
            },
            RedisCommand::Keys(_) => {
                // The parser recognises KEYS, but no key-listing
                // operation is defined for the keyspace, so the verb
                // is answered with a recoverable error reply.
                Value::Error(RedisError { message: msg_unsupported_vec() })
            },
        }
    }
}


} // verus!

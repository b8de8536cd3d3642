//! The command layer: turns a decoded entry sequence into one of a fixed
//! set of commands, and executes each against a storage engine, producing
//! reply bytes for the wire.
//!
//! A command is parsed once and executed once; nothing survives across
//! commands.  Execution never panics: every malformed argument surfaces as
//! a [`CommandError`].

use vstd::prelude::*;
use crate::rdb::snapshot_of;
use crate::resp::{
    copy_range, crlf, dec_val, encode_array, encode_entry, entries_view, is_u64_digits,
    parse_u64_digits, push_bytes, push_crlf, Array, Entry, EntryModel,
};
use crate::storage::{
    bytes_eq, get_model, keys_result_for, representable_map, views_of, RdbConfigModel, Storage,
    Value, ValueModel, SLASH,
};

verus! {

/// An unknown command, a missing or mistyped argument, or a storage failure
/// during execution; recoverable, the connection stays open.
#[derive(Clone, Copy, Debug, PartialEq, Eq, Structural)]
pub struct CommandError;

// Command keywords and fixed reply texts, as byte sequences.
pub open spec fn kw_ping() -> Seq<u8> {
    seq![80u8, 73u8, 78u8, 71u8]
}

pub open spec fn kw_echo() -> Seq<u8> {
    seq![69u8, 67u8, 72u8, 79u8]
}

pub open spec fn kw_get() -> Seq<u8> {
    seq![71u8, 69u8, 84u8]
}

pub open spec fn kw_set() -> Seq<u8> {
    seq![83u8, 69u8, 84u8]
}

pub open spec fn kw_config() -> Seq<u8> {
    seq![67u8, 79u8, 78u8, 70u8, 73u8, 71u8]
}

pub open spec fn kw_save() -> Seq<u8> {
    seq![83u8, 65u8, 86u8, 69u8]
}

pub open spec fn kw_keys() -> Seq<u8> {
    seq![75u8, 69u8, 89u8, 83u8]
}

pub open spec fn kw_pong() -> Seq<u8> {
    seq![80u8, 79u8, 78u8, 71u8]
}

pub open spec fn kw_ok() -> Seq<u8> {
    seq![79u8, 75u8]
}

pub open spec fn kw_dir() -> Seq<u8> {
    seq![100u8, 105u8, 114u8]
}

pub open spec fn kw_dbfilename() -> Seq<u8> {
    seq![100u8, 98u8, 102u8, 105u8, 108u8, 101u8, 110u8, 97u8, 109u8, 101u8]
}

/// The model of a parsed command, each variant owning its validated
/// arguments.
pub enum CommandModel {
    Ping,
    Echo { texts: Seq<Seq<u8>> },
    Get { key: Seq<u8> },
    SetValue { key: Seq<u8>, value: Seq<u8>, expiry: Option<u64> },
    ConfigGet { key: Seq<u8> },
    Save,
    Keys { pattern: Seq<u8> },
}

/// The text of entry `at`, if the position exists and holds a bulk string.
pub open spec fn spec_parse_arg(args: Seq<EntryModel>, at: int) -> Option<Seq<u8>> {
    if 0 <= at < args.len() {
        match args[at] {
            EntryModel::Text(t) => Some(t),
            _ => None,
        }
    } else {
        None
    }
}

/// The texts of the bulk-string entries, in order; other entries are
/// silently dropped.
pub open spec fn texts_of(es: Seq<EntryModel>) -> Seq<Seq<u8>>
    decreases es.len(),
{
    if es.len() == 0 {
        Seq::empty()
    } else {
        let rest = texts_of(es.drop_last());
        match es.last() {
            EntryModel::Text(t) => rest.push(t),
            _ => rest,
        }
    }
}

/// The texts joined with the wire line terminator.
pub open spec fn join_crlf(ts: Seq<Seq<u8>>) -> Seq<u8>
    decreases ts.len(),
{
    if ts.len() == 0 {
        Seq::empty()
    } else if ts.len() == 1 {
        ts[0]
    } else {
        join_crlf(ts.drop_last()) + crlf() + ts.last()
    }
}

/// The absolute deadline `now + ms`, saturating at the largest
/// representable time.
pub open spec fn deadline_of(now: u64, ms: nat) -> u64 {
    if now + ms > u64::MAX {
        u64::MAX
    } else {
        (now + ms) as u64
    }
}

/// What an entry sequence parses to: the command, or nothing when the
/// keyword is unknown, an argument is missing or mistyped, or the expiry
/// count is not a number.  An expiry is given positionally: a frame of five
/// entries whose last is a number of milliseconds from `now`.
pub open spec fn spec_parse_command(args: Seq<EntryModel>, now: u64) -> Option<CommandModel> {
    if args.len() == 0 {
        None
    } else {
        match args[0] {
            EntryModel::Text(cmd) => {
                if cmd == kw_ping() {
                    Some(CommandModel::Ping)
                } else if cmd == kw_echo() {
                    Some(CommandModel::Echo { texts: texts_of(args.drop_first()) })
                } else if cmd == kw_get() {
                    match spec_parse_arg(args, 1) {
                        Some(k) => Some(CommandModel::Get { key: k }),
                        None => None,
                    }
                } else if cmd == kw_set() {
                    match spec_parse_arg(args, 1) {
                        Some(k) => match spec_parse_arg(args, 2) {
                            Some(v) => {
                                if args.len() == 5 {
                                    match args[4] {
                                        EntryModel::Text(n) => if is_u64_digits(n) {
                                            Some(
                                                CommandModel::SetValue {
                                                    key: k,
                                                    value: v,
                                                    expiry: Some(deadline_of(now, dec_val(n))),
                                                },
                                            )
                                        } else {
                                            None
                                        },
                                        _ => Some(
                                            CommandModel::SetValue {
                                                key: k,
                                                value: v,
                                                expiry: None,
                                            },
                                        ),
                                    }
                                } else {
                                    Some(CommandModel::SetValue { key: k, value: v, expiry: None })
                                }
                            },
                            None => None,
                        },
                        None => None,
                    }
                } else if cmd == kw_config() {
                    match spec_parse_arg(args, 2) {
                        Some(k) => Some(CommandModel::ConfigGet { key: k }),
                        None => None,
                    }
                } else if cmd == kw_save() {
                    Some(CommandModel::Save)
                } else if cmd == kw_keys() {
                    match spec_parse_arg(args, 1) {
                        Some(k) => Some(CommandModel::Keys { pattern: k }),
                        None => None,
                    }
                } else {
                    None
                }
            },
            _ => None,
        }
    }
}

/// Extracts the text of argument `at`, failing when it is missing or not a
/// bulk string.
pub fn parse_arg(args: &[Entry], at: usize) -> (r: Result<Vec<u8>, CommandError>)
    ensures
        match spec_parse_arg(entries_view(args@), at as int) {
            Some(t) => (r matches Ok(v) && v@ == t),
            None => r is Err,
        },
{
    if at >= args.len() {
        return Err(CommandError);
    }
    match &args[at] {
        Entry::Text(t) => Ok(copy_range(t.as_slice(), 0, t.len())),
        _ => Err(CommandError),
    }
}

/// A request that the caller persist `data` at the snapshot path `path`;
/// produced by SAVE on a durable store.
pub struct SaveRequest {
    pub path: Vec<u8>,
    pub data: Vec<u8>,
}

/// What executing one command yields: the reply bytes for the wire, and
/// possibly a snapshot to persist.
pub struct CommandOutput {
    pub reply: Vec<u8>,
    pub save: Option<SaveRequest>,
}

/// The keys as bulk-string entries, in order.
pub open spec fn text_entries(ks: Seq<Seq<u8>>) -> Seq<EntryModel> {
    ks.map_values(|k: Seq<u8>| EntryModel::Text(k))
}

/// What executing command `c` against key space `m0` (configured at `cfg`,
/// durable or not) at time `now` must yield: the result `r` and the key
/// space `m1` left behind.
pub open spec fn execute_post(
    c: CommandModel,
    m0: Map<Seq<u8>, ValueModel>,
    cfg: RdbConfigModel,
    durable: bool,
    now: u64,
    r: Result<CommandOutput, CommandError>,
    m1: Map<Seq<u8>, ValueModel>,
) -> bool {
    match c {
        CommandModel::Ping => {
            &&& m1 == m0
            &&& r matches Ok(out)
            &&& out.save is None
            &&& out.reply@ == encode_entry(EntryModel::SimpleText(kw_pong()))
        },
        CommandModel::Echo { texts } => {
            &&& m1 == m0
            &&& r matches Ok(out)
            &&& out.save is None
            &&& out.reply@ == encode_entry(EntryModel::SimpleText(join_crlf(texts)))
        },
        CommandModel::Get { key } => {
            &&& m1 == m0
            &&& r matches Ok(out)
            &&& out.save is None
            &&& out.reply@ == (match get_model(m0, key, now) {
                Some(v) => encode_entry(EntryModel::Text(v.value)),
                None => encode_entry(EntryModel::Nil),
            })
        },
        CommandModel::SetValue { key, value, expiry } => {
            &&& m1 == m0.insert(key, ValueModel { value, expiry })
            &&& r matches Ok(out)
            &&& out.save is None
            &&& out.reply@ == encode_entry(EntryModel::SimpleText(kw_ok()))
        },
        CommandModel::ConfigGet { key } => {
            &&& m1 == m0
            &&& r matches Ok(out)
            &&& out.save is None
            &&& out.reply@ == (if key == kw_dir() {
                encode_array(seq![EntryModel::Text(key), EntryModel::Text(cfg.dir)])
            } else if key == kw_dbfilename() {
                encode_array(seq![EntryModel::Text(key), EntryModel::Text(cfg.path)])
            } else {
                encode_entry(EntryModel::Nil)
            })
        },
        CommandModel::Save => {
            &&& m1 == m0
            &&& if !durable {
                r matches Ok(out) && out.save is None && out.reply@ == encode_entry(
                    EntryModel::SimpleText(kw_ok()),
                )
            } else if representable_map(m0) {
                r matches Ok(out) && (out.save matches Some(sr) && snapshot_of(sr.data@, m0)
                    && sr.path@ == cfg.dir + seq![SLASH] + cfg.path) && out.reply@
                    == encode_entry(EntryModel::SimpleText(kw_ok()))
            } else {
                r is Err
            }
        },
        CommandModel::Keys { pattern } => {
            &&& m1 == m0
            &&& keys_output_ok(m0, pattern, r)
        },
    }
}

/// A successful key enumeration reply: the array encoding of some key list
/// that [`keys_result_for`] allows, with nothing to persist.
pub open spec fn keys_output_ok(
    m0: Map<Seq<u8>, ValueModel>,
    pattern: Seq<u8>,
    r: Result<CommandOutput, CommandError>,
) -> bool {
    &&& r matches Ok(out)
    &&& out.save is None
    &&& exists|ks: Seq<Seq<u8>>|
        #[trigger] keys_result_for(m0, pattern, ks) && out.reply@ == encode_array(
            text_entries(ks),
        )
}

/// One step of the command layer's state machine: a command executes once
/// against a storage engine, leaving the key space the contract describes
/// and producing the reply bytes.
pub trait Command {
    /// The model of this command.
    spec fn model(&self) -> CommandModel;

    /// Executes the command at time `now`.
    fn execute<S: Storage>(&self, storage: &mut S, now: u64) -> (r: Result<
        CommandOutput,
        CommandError,
    >)
        ensures
            execute_post(
                self.model(),
                old(storage).key_space(),
                old(storage).config_model(),
                old(storage).durable(),
                now,
                r,
                final(storage).key_space(),
            ),
            final(storage).config_model() == old(storage).config_model(),
            final(storage).durable() == old(storage).durable(),
    ;
}

/// Joins the texts with the wire line terminator.
fn join_args(args: &Vec<Vec<u8>>) -> (r: Vec<u8>)
    ensures
        r@ == join_crlf(views_of(args@)),
{
    let mut r: Vec<u8> = Vec::new();
    let mut i: usize = 0;
    proof {
        assert(r@ =~= join_crlf(views_of(args@).subrange(0, 0)));
    }
    while i < args.len()
        invariant
            i <= args@.len(),
            r@ == join_crlf(views_of(args@).subrange(0, i as int)),
        decreases args@.len() - i,
    {
        if i > 0 {
            push_crlf(&mut r);
        }
        push_bytes(&mut r, args[i].as_slice());
        proof {
            let ts = views_of(args@);
            assert(ts.subrange(0, i + 1).drop_last() =~= ts.subrange(0, i as int));
            assert(ts.subrange(0, i + 1).last() == ts[i as int]);
            assert(r@ =~= join_crlf(ts.subrange(0, i + 1)));
        }
        i = i + 1;
    }
    proof {
        assert(views_of(args@).subrange(0, args@.len() as int) =~= views_of(args@));
    }
    r
}

/// The reply `+PONG`, encoded.
fn pong_reply() -> (r: Vec<u8>)
    ensures
        r@ == encode_entry(EntryModel::SimpleText(kw_pong())),
{
    let text = [80u8, 79u8, 78u8, 71u8];
    proof {
        assert(text@ =~= kw_pong());
    }
    Entry::SimpleText(copy_range(text.as_slice(), 0, 4)).encode()
}

/// The reply `+OK`, encoded.
fn ok_reply() -> (r: Vec<u8>)
    ensures
        r@ == encode_entry(EntryModel::SimpleText(kw_ok())),
{
    let text = [79u8, 75u8];
    proof {
        assert(text@ =~= kw_ok());
    }
    Entry::SimpleText(copy_range(text.as_slice(), 0, 2)).encode()
}

impl Command for PingCommand {
    closed spec fn model(&self) -> CommandModel {
        CommandModel::Ping
    }

    fn execute<S: Storage>(&self, storage: &mut S, now: u64) -> (r: Result<
        CommandOutput,
        CommandError,
    >) {
        Ok(CommandOutput { reply: pong_reply(), save: None })
    }
}

impl Command for EchoCommand {
    closed spec fn model(&self) -> CommandModel {
        CommandModel::Echo { texts: views_of(self.args@) }
    }

    fn execute<S: Storage>(&self, storage: &mut S, now: u64) -> (r: Result<
        CommandOutput,
        CommandError,
    >) {
        let joined = join_args(&self.args);
        Ok(CommandOutput { reply: Entry::SimpleText(joined).encode(), save: None })
    }
}

impl Command for GetCommand {
    closed spec fn model(&self) -> CommandModel {
        CommandModel::Get { key: self.key@ }
    }

    fn execute<S: Storage>(&self, storage: &mut S, now: u64) -> (r: Result<
        CommandOutput,
        CommandError,
    >) {
        let reply = match storage.get(self.key.as_slice(), now) {
            Some(stored) => Entry::Text(stored.value).encode(),
            None => Entry::Nil.encode(),
        };
        Ok(CommandOutput { reply, save: None })
    }
}

impl Command for SetCommand {
    closed spec fn model(&self) -> CommandModel {
        CommandModel::SetValue { key: self.key@, value: self.value@, expiry: self.expiry }
    }

    fn execute<S: Storage>(&self, storage: &mut S, now: u64) -> (r: Result<
        CommandOutput,
        CommandError,
    >) {
        let key = copy_range(self.key.as_slice(), 0, self.key.len());
        let value = copy_range(self.value.as_slice(), 0, self.value.len());
        proof {
            assert(key@ =~= self.key@);
            assert(value@ =~= self.value@);
        }
        storage.set(key, Value { value, expiry: self.expiry });
        Ok(CommandOutput { reply: ok_reply(), save: None })
    }
}

impl Command for ConfigGetCommand {
    closed spec fn model(&self) -> CommandModel {
        CommandModel::ConfigGet { key: self.key@ }
    }

    fn execute<S: Storage>(&self, storage: &mut S, now: u64) -> (r: Result<
        CommandOutput,
        CommandError,
    >) {
        let config = storage.config();
        let dir_b = [100u8, 105u8, 114u8];
        let dbfilename_b = [100u8, 98u8, 102u8, 105u8, 108u8, 101u8, 110u8, 97u8, 109u8, 101u8];
        proof {
            assert(dir_b@ =~= kw_dir());
            assert(dbfilename_b@ =~= kw_dbfilename());
        }
        let reply = if bytes_eq(self.key.as_slice(), dir_b.as_slice()) {
            let key = copy_range(self.key.as_slice(), 0, self.key.len());
            proof {
                assert(key@ =~= self.key@);
            }
            let group = Array(vec![Entry::Text(key), Entry::Text(config.dir)]);
            proof {
                assert(group@ =~= seq![
                    EntryModel::Text(self.key@),
                    EntryModel::Text(config.dir@),
                ]);
            }
            group.encode()
        } else if bytes_eq(self.key.as_slice(), dbfilename_b.as_slice()) {
            let key = copy_range(self.key.as_slice(), 0, self.key.len());
            proof {
                assert(key@ =~= self.key@);
            }
            let group = Array(vec![Entry::Text(key), Entry::Text(config.path)]);
            proof {
                assert(group@ =~= seq![
                    EntryModel::Text(self.key@),
                    EntryModel::Text(config.path@),
                ]);
            }
            group.encode()
        } else {
            Entry::Nil.encode()
        };
        Ok(CommandOutput { reply, save: None })
    }
}

impl Command for SaveCommand {
    closed spec fn model(&self) -> CommandModel {
        CommandModel::Save
    }

    fn execute<S: Storage>(&self, storage: &mut S, now: u64) -> (r: Result<
        CommandOutput,
        CommandError,
    >) {
        let config = storage.config();
        match storage.save() {
            Ok(None) => Ok(CommandOutput { reply: ok_reply(), save: None }),
            Ok(Some(data)) => {
                let request = SaveRequest { path: config.config_file(), data };
                Ok(CommandOutput { reply: ok_reply(), save: Some(request) })
            },
            Err(_) => Err(CommandError),
        }
    }
}

impl Command for KeysCommand {
    closed spec fn model(&self) -> CommandModel {
        CommandModel::Keys { pattern: self.key@ }
    }

    #[verifier::spinoff_prover]
    #[verifier::rlimit(60)]
    fn execute<S: Storage>(&self, storage: &mut S, now: u64) -> (r: Result<
        CommandOutput,
        CommandError,
    >) {
        match storage.keys(self.key.as_slice()) {
            Some(mut ks) => {
                let ghost found = views_of(ks@);
                let mut items: Vec<Entry> = Vec::new();
                proof {
                    assert(entries_view(items@) =~= text_entries(
                        found.subrange(0, found.len() - ks@.len()),
                    ));
                    assert(views_of(ks@) =~= found.subrange(found.len() - ks@.len(),
                        found.len() as int));
                }
                while ks.len() > 0
                    invariant
                        keys_result_for(old(storage).key_space(), self.key@, found),
                        ks@.len() <= found.len(),
                        views_of(ks@) == found.subrange(
                            found.len() - ks@.len(),
                            found.len() as int,
                        ),
                        entries_view(items@) == text_entries(
                            found.subrange(0, found.len() - ks@.len()),
                        ),
                    decreases ks@.len(),
                {
                    let ghost j = found.len() - ks@.len();
                    let ghost pre = ks@;
                    let ghost items_pre = entries_view(items@);
                    let k = ks.remove(0);
                    proof {
                        assert(views_of(pre)[0] == found.subrange(j, found.len() as int)[0]);
                        assert(k@ == found[j]);
                        assert forall|m: int| 0 <= m < ks@.len() implies views_of(ks@)[m]
                            == found.subrange(j + 1, found.len() as int)[m] by {
                            assert(ks@[m] == pre[m + 1]);
                            assert(views_of(pre)[m + 1] == found.subrange(j,
                                found.len() as int)[m + 1]);
                        }
                        assert(views_of(ks@) =~= found.subrange(j + 1, found.len() as int));
                    }
                    items.push(Entry::Text(k));
                    proof {
                        assert(entries_view(items@) =~= items_pre.push(EntryModel::Text(
                            found[j],
                        )));
                        assert(text_entries(found.subrange(0, j + 1)).drop_last()
                            =~= text_entries(found.subrange(0, j)));
                        assert(text_entries(found.subrange(0, j + 1)) =~= text_entries(
                            found.subrange(0, j),
                        ).push(EntryModel::Text(found[j])));
                    }
                }
                proof {
                    assert(found.subrange(0, found.len() as int) =~= found);
                    assert(entries_view(items@) =~= text_entries(found));
                }
                let group = Array(items);
                let reply = group.encode();
                let out = CommandOutput { reply, save: None };
                let r: Result<CommandOutput, CommandError> = Ok(out);
                proof {
                    let m0 = old(storage).key_space();
                    assert(r matches Ok(o) && o.reply@ == encode_array(text_entries(found)));
                    assert(keys_result_for(m0, self.key@, found));
                    assert(self.model() == (CommandModel::Keys { pattern: self.key@ }));
                    assert(keys_output_ok(m0, self.key@, r));
                    assert(execute_post(
                        self.model(),
                        m0,
                        old(storage).config_model(),
                        old(storage).durable(),
                        now,
                        r,
                        storage.key_space(),
                    ));
                }
                r
            },
            None => {
                // The storage contract always hands a key list back; this
                // arm only satisfies the type.
                proof {
                    assert(false);
                }
                Err(CommandError)
            },
        }
    }
}

impl ParsedCommand {
    /// Executes this command once against `storage` at time `now`.
    pub fn execute<S: Storage>(&self, storage: &mut S, now: u64) -> (r: Result<
        CommandOutput,
        CommandError,
    >)
        ensures
            execute_post(
                self@,
                old(storage).key_space(),
                old(storage).config_model(),
                old(storage).durable(),
                now,
                r,
                final(storage).key_space(),
            ),
            final(storage).config_model() == old(storage).config_model(),
            final(storage).durable() == old(storage).durable(),
    {
        match self {
            ParsedCommand::Ping(c) => c.execute(storage, now),
            ParsedCommand::Echo(c) => c.execute(storage, now),
            ParsedCommand::Get(c) => c.execute(storage, now),
            ParsedCommand::SetValue(c) => c.execute(storage, now),
            ParsedCommand::ConfigGet(c) => c.execute(storage, now),
            ParsedCommand::Save(c) => c.execute(storage, now),
            ParsedCommand::Keys(c) => c.execute(storage, now),
        }
    }
}

/// A replying command: PING.
pub struct PingCommand;

/// A replying command: ECHO with its text arguments.
pub struct EchoCommand {
    args: Vec<Vec<u8>>,
}

/// A reading command: GET of one key.
pub struct GetCommand {
    key: Vec<u8>,
}

/// A writing command: SET of one key to a value, with an optional absolute
/// deadline.
pub struct SetCommand {
    key: Vec<u8>,
    value: Vec<u8>,
    expiry: Option<u64>,
}

/// A configuration read: CONFIG GET of one setting name.
pub struct ConfigGetCommand {
    key: Vec<u8>,
}

/// A persistence command: SAVE.
pub struct SaveCommand;

/// An enumeration command: KEYS with its glob pattern.
pub struct KeysCommand {
    key: Vec<u8>,
}

/// One parsed command, ready to execute exactly once.
pub enum ParsedCommand {
    Ping(PingCommand),
    Echo(EchoCommand),
    Get(GetCommand),
    SetValue(SetCommand),
    ConfigGet(ConfigGetCommand),
    Save(SaveCommand),
    Keys(KeysCommand),
}

impl View for ParsedCommand {
    type V = CommandModel;

    closed spec fn view(&self) -> CommandModel {
        match self {
            ParsedCommand::Ping(_) => CommandModel::Ping,
            ParsedCommand::Echo(c) => CommandModel::Echo { texts: views_of(c.args@) },
            ParsedCommand::Get(c) => CommandModel::Get { key: c.key@ },
            ParsedCommand::SetValue(c) => CommandModel::SetValue {
                key: c.key@,
                value: c.value@,
                expiry: c.expiry,
            },
            ParsedCommand::ConfigGet(c) => CommandModel::ConfigGet { key: c.key@ },
            ParsedCommand::Save(_) => CommandModel::Save,
            ParsedCommand::Keys(c) => CommandModel::Keys { pattern: c.key@ },
        }
    }
}

/// Turns one decoded entry sequence into a command.
pub struct CommandParser;

impl CommandParser {
    /// Parses the entries of one frame into a command, at time `now` (used
    /// to turn a relative expiry into an absolute deadline).  Fails exactly
    /// when the model parse does.
    pub fn new(args: &[Entry], now: u64) -> (r: Result<ParsedCommand, CommandError>)
        ensures
            match spec_parse_command(entries_view(args@), now) {
                Some(c) => (r matches Ok(pc) && pc@ == c),
                None => r is Err,
            },
    {
        let ghost model_args = entries_view(args@);
        if args.len() == 0 {
            return Err(CommandError);
        }
        let cmd = match &args[0] {
            Entry::Text(cmd) => cmd,
            _ => {
                return Err(CommandError);
            },
        };
        let kw_ping_b = [80u8, 73u8, 78u8, 71u8];
        let kw_echo_b = [69u8, 67u8, 72u8, 79u8];
        let kw_get_b = [71u8, 69u8, 84u8];
        let kw_set_b = [83u8, 69u8, 84u8];
        let kw_config_b = [67u8, 79u8, 78u8, 70u8, 73u8, 71u8];
        let kw_save_b = [83u8, 65u8, 86u8, 69u8];
        let kw_keys_b = [75u8, 69u8, 89u8, 83u8];
        proof {
            assert(kw_ping_b@ =~= kw_ping());
            assert(kw_echo_b@ =~= kw_echo());
            assert(kw_get_b@ =~= kw_get());
            assert(kw_set_b@ =~= kw_set());
            assert(kw_config_b@ =~= kw_config());
            assert(kw_save_b@ =~= kw_save());
            assert(kw_keys_b@ =~= kw_keys());
        }
        if bytes_eq(cmd.as_slice(), kw_ping_b.as_slice()) {
            Ok(ParsedCommand::Ping(PingCommand))
        } else if bytes_eq(cmd.as_slice(), kw_echo_b.as_slice()) {
            let mut texts: Vec<Vec<u8>> = Vec::new();
            let mut i: usize = 1;
            proof {
                assert(views_of(texts@) =~= texts_of(model_args.subrange(1, 1)));
            }
            while i < args.len()
                invariant
                    1 <= i <= args@.len(),
                    model_args == entries_view(args@),
                    views_of(texts@) == texts_of(model_args.subrange(1, i as int)),
                decreases args@.len() - i,
            {
                let ghost before = views_of(texts@);
                match &args[i] {
                    Entry::Text(t) => {
                        let item = copy_range(t.as_slice(), 0, t.len());
                        proof {
                            assert(item@ =~= t@);
                        }
                        texts.push(item);
                        proof {
                            assert(views_of(texts@) =~= before.push(t@));
                        }
                    },
                    _ => {},
                }
                proof {
                    let sub = model_args.subrange(1, i + 1);
                    assert(sub.drop_last() =~= model_args.subrange(1, i as int));
                    assert(sub.last() == model_args[i as int]);
                }
                i = i + 1;
            }
            proof {
                assert(model_args.subrange(1, model_args.len() as int)
                    =~= model_args.drop_first());
            }
            Ok(ParsedCommand::Echo(EchoCommand { args: texts }))
        } else if bytes_eq(cmd.as_slice(), kw_get_b.as_slice()) {
            let key = parse_arg(args, 1)?;
            Ok(ParsedCommand::Get(GetCommand { key }))
        } else if bytes_eq(cmd.as_slice(), kw_set_b.as_slice()) {
            let key = parse_arg(args, 1)?;
            let value = parse_arg(args, 2)?;
            let expiry: Option<u64> = if args.len() == 5 {
                match &args[4] {
                    Entry::Text(n) => {
                        match parse_u64_digits(n.as_slice()) {
                            Some(ms) => {
                                let deadline = if now > u64::MAX - ms {
                                    u64::MAX
                                } else {
                                    now + ms
                                };
                                Some(deadline)
                            },
                            None => {
                                return Err(CommandError);
                            },
                        }
                    },
                    _ => None,
                }
            } else {
                None
            };
            Ok(ParsedCommand::SetValue(SetCommand { key, value, expiry }))
        } else if bytes_eq(cmd.as_slice(), kw_config_b.as_slice()) {
            let key = parse_arg(args, 2)?;
            Ok(ParsedCommand::ConfigGet(ConfigGetCommand { key }))
        } else if bytes_eq(cmd.as_slice(), kw_save_b.as_slice()) {
            Ok(ParsedCommand::Save(SaveCommand))
        } else if bytes_eq(cmd.as_slice(), kw_keys_b.as_slice()) {
            let key = parse_arg(args, 1)?;
            Ok(ParsedCommand::Keys(KeysCommand { key }))
        } else {
            Err(CommandError)
        }
    }
}

} // verus!

//! Commands lifted from RESP arrays.

use crate::error::MemoraError;
use crate::resp::parser::{parse_value_at, Parsed};
use crate::resp::value::{frames_of, lemma_frames_of_len, Frame, Value};
use vstd::string::StringSliceAdditionalSpecFns;
use crate::text::{decimal_u64, eq_ignore_case, matches_keyword, parse_u64};
use vstd::prelude::*;

verus! {

/// A duration or a unix timestamp, in seconds or milliseconds.
#[derive(Debug, Clone, Copy, PartialEq, Eq, Structural)]
pub enum Time {
    Seconds(u64),
    Millis(u64),
}

/// When a key expires: after a duration, or at a unix time.
#[derive(Debug, Clone, Copy, PartialEq, Eq, Structural)]
pub enum Expiry {
    Time(Time),
    Unix(Time),
}

/// A typed command.
#[derive(Debug, Clone, PartialEq, Eq)]
pub enum Command {
    Ping(Option<String>),
    Echo(String),
    /// Set `key` to hold `value`, replacing any value and expiry it had.
    SetKey { key: String, value: String, expiry: Option<Expiry> },
    /// Get the value of `key`.
    Get { key: String },
    /// Information about the server, optionally restricted to a section.
    Info { section: Option<String> },
}

/// The model of a [`Command`]: its text as characters.
pub enum CommandModel {
    Ping(Option<Seq<char>>),
    Echo(Seq<char>),
    SetKey(Seq<char>, Seq<char>, Option<Expiry>),
    Get(Seq<char>),
    Info(Option<Seq<char>>),
}

pub open spec fn opt_text(s: Option<String>) -> Option<Seq<char>> {
    match s {
        Some(t) => Some(t@),
        None => None,
    }
}

impl View for Command {
    type V = CommandModel;

    open spec fn view(&self) -> CommandModel {
        match self {
            Command::Ping(m) => CommandModel::Ping(opt_text(*m)),
            Command::Echo(m) => CommandModel::Echo(m@),
            Command::SetKey { key, value, expiry } => CommandModel::SetKey(key@, value@, *expiry),
            Command::Get { key } => CommandModel::Get(key@),
            Command::Info { section } => CommandModel::Info(opt_text(*section)),
        }
    }
}

#[derive(Debug, Clone, Copy, PartialEq, Eq, Structural)]
pub enum SetError {
    MissingKey,
    MissingValue,
    MissingExpiry,
    /// The expiry falls at an instant outside the clock's range.
    InvalidExpiry,
}

#[derive(Debug, Clone, Copy, PartialEq, Eq, Structural)]
pub enum GetError {
    MissingKey,
}

#[derive(Debug, Clone, PartialEq, Eq)]
pub enum InfoError {
    UnknownSection(String),
}

/// Why a value could not be turned into a command, or a command not run.
#[derive(Debug, PartialEq, Eq)]
pub enum CommandError {
    SetCommand(SetError),
    Get(GetError),
    Info(InfoError),
    /// An argument of the wrong shape, carried verbatim.
    InvalidArgument(Value),
    /// Not an array, an empty array, or a command name that is not text.
    InvalidCommand,
    UnknownCommand(String),
}

/// The model of a [`CommandError`].
pub enum CommandErrorModel {
    SetCommand(SetError),
    Get(GetError),
    UnknownSection(Seq<char>),
    InvalidArgument(Frame),
    InvalidCommand,
    UnknownCommand(Seq<char>),
}

impl View for CommandError {
    type V = CommandErrorModel;

    open spec fn view(&self) -> CommandErrorModel {
        match self {
            CommandError::SetCommand(e) => CommandErrorModel::SetCommand(*e),
            CommandError::Get(e) => CommandErrorModel::Get(*e),
            CommandError::Info(InfoError::UnknownSection(s)) => CommandErrorModel::UnknownSection(s@),
            CommandError::InvalidArgument(v) => CommandErrorModel::InvalidArgument(v@),
            CommandError::InvalidCommand => CommandErrorModel::InvalidCommand,
            CommandError::UnknownCommand(s) => CommandErrorModel::UnknownCommand(s@),
        }
    }
}

pub open spec fn result_view(r: Result<Command, CommandError>) -> Result<CommandModel, CommandErrorModel> {
    match r {
        Ok(c) => Ok(c@),
        Err(e) => Err(e@),
    }
}

/// The text of a simple or non-null bulk string.
pub open spec fn text_of(f: Frame) -> Option<Seq<char>> {
    match f {
        Frame::Simple(t) => Some(t),
        Frame::Bulk(Some(t)) => Some(t),
        _ => None,
    }
}

pub open spec fn is_string(f: Frame) -> bool {
    f is Simple || f is Bulk || f is Error
}

/// The text of a string argument, empty when it has none.
pub open spec fn message_of(f: Frame) -> Seq<char> {
    match text_of(f) {
        Some(t) => t,
        None => seq![],
    }
}

/// The command that a value stands for: an array whose first element names
/// the command, case-insensitively, and whose other elements are its
/// arguments.
pub open spec fn command_of(f: Frame) -> Result<CommandModel, CommandErrorModel> {
    match f {
        Frame::Array(args) => if args.len() == 0 || text_of(args[0]) is None {
            Err(CommandErrorModel::InvalidCommand)
        } else {
            named_command(text_of(args[0])->0, args)
        },
        _ => Err(CommandErrorModel::InvalidCommand),
    }
}

pub open spec fn named_command(name: Seq<char>, args: Seq<Frame>) -> Result<CommandModel, CommandErrorModel> {
    if eq_ignore_case(name, "ping"@) {
        if args.len() < 2 {
            Ok(CommandModel::Ping(None))
        } else if is_string(args[1]) {
            Ok(CommandModel::Ping(Some(message_of(args[1]))))
        } else {
            Err(CommandErrorModel::InvalidArgument(args[1]))
        }
    } else if eq_ignore_case(name, "echo"@) {
        if args.len() < 2 {
            Err(CommandErrorModel::InvalidCommand)
        } else if is_string(args[1]) {
            Ok(CommandModel::Echo(message_of(args[1])))
        } else {
            Err(CommandErrorModel::InvalidArgument(args[1]))
        }
    } else if eq_ignore_case(name, "set"@) {
        set_command(args)
    } else if eq_ignore_case(name, "get"@) {
        if args.len() < 2 {
            Err(CommandErrorModel::Get(GetError::MissingKey))
        } else if text_of(args[1]) is None {
            Err(CommandErrorModel::InvalidArgument(args[1]))
        } else {
            Ok(CommandModel::Get(text_of(args[1])->0))
        }
    } else if eq_ignore_case(name, "info"@) {
        if args.len() < 2 {
            Ok(CommandModel::Info(None))
        } else if text_of(args[1]) is None {
            Err(CommandErrorModel::InvalidArgument(args[1]))
        } else {
            Ok(CommandModel::Info(Some(text_of(args[1])->0)))
        }
    } else {
        Err(CommandErrorModel::UnknownCommand(name))
    }
}

/// `SET key value [EX n | PX n | EXAT n | PXAT n]`.
pub open spec fn set_command(args: Seq<Frame>) -> Result<CommandModel, CommandErrorModel> {
    if args.len() < 2 {
        Err(CommandErrorModel::SetCommand(SetError::MissingKey))
    } else if text_of(args[1]) is None {
        Err(CommandErrorModel::InvalidArgument(args[1]))
    } else if args.len() < 3 {
        Err(CommandErrorModel::SetCommand(SetError::MissingValue))
    } else if text_of(args[2]) is None {
        Err(CommandErrorModel::InvalidArgument(args[2]))
    } else if args.len() < 4 {
        Ok(CommandModel::SetKey(text_of(args[1])->0, text_of(args[2])->0, None))
    } else {
        match expiry_of(args) {
            Ok(e) => Ok(CommandModel::SetKey(text_of(args[1])->0, text_of(args[2])->0, Some(e))),
            Err(x) => Err(x),
        }
    }
}

/// The expiry option of a `SET` with at least four elements.
pub open spec fn expiry_of(args: Seq<Frame>) -> Result<Expiry, CommandErrorModel> {
    if text_of(args[3]) is None {
        Err(CommandErrorModel::InvalidArgument(args[3]))
    } else if args.len() < 5 {
        Err(CommandErrorModel::SetCommand(SetError::MissingExpiry))
    } else if text_of(args[4]) is None {
        Err(CommandErrorModel::InvalidArgument(args[4]))
    } else {
        match decimal_u64(text_of(args[4])->0) {
            None => Err(CommandErrorModel::InvalidArgument(args[4])),
            Some(n) => expiry_kind(text_of(args[3])->0, n, args[3]),
        }
    }
}

pub open spec fn expiry_kind(kw: Seq<char>, n: u64, arg: Frame) -> Result<Expiry, CommandErrorModel> {
    if eq_ignore_case(kw, "ex"@) {
        Ok(Expiry::Time(Time::Seconds(n)))
    } else if eq_ignore_case(kw, "px"@) {
        Ok(Expiry::Time(Time::Millis(n)))
    } else if eq_ignore_case(kw, "exat"@) {
        Ok(Expiry::Unix(Time::Seconds(n)))
    } else if eq_ignore_case(kw, "pxat"@) {
        Ok(Expiry::Unix(Time::Millis(n)))
    } else {
        Err(CommandErrorModel::InvalidArgument(arg))
    }
}

/// The owned text of `args[k]`, when it is a simple or non-null bulk string.
fn text_arg(args: &Vec<Value>, k: usize) -> (r: Option<String>)
    requires
        k < args@.len(),
    ensures
        opt_text(r) == text_of(args@[k as int]@),
{
    match args[k].as_str() {
        Some(t) => Some(t.to_owned()),
        None => None,
    }
}

/// The message argument of `PING` and `ECHO`: the text of a string, empty
/// for a null bulk string or an error.
fn message_arg(args: &Vec<Value>, k: usize) -> (r: Option<String>)
    requires
        k < args@.len(),
    ensures
        is_string(args@[k as int]@) <==> r is Some,
        r matches Some(m) ==> m@ == message_of(args@[k as int]@),
{
    match &args[k] {
        Value::Str(s) => match s.as_str() {
            Some(t) => Some(t.to_owned()),
            None => Some(String::new()),
        },
        _ => None,
    }
}

impl Command {
    /// Lifts a value into a command: an array whose first element names the
    /// command, without regard to ASCII case, followed by its arguments.
    pub fn try_from(value: Value) -> (r: Result<Command, CommandError>)
        ensures
            result_view(r) == command_of(value@),
    {
        let mut args = match value {
            Value::Array(a) => a,
            _ => return Err(CommandError::InvalidCommand),
        };
        let ghost fs = frames_of(args@);
        proof {
            lemma_frames_of_len(args@);
            assert(value@ == Frame::Array(fs));
        }
        if args.len() == 0 {
            return Err(CommandError::InvalidCommand);
        }
        let name = match text_arg(&args, 0) {
            Some(t) => t,
            None => return Err(CommandError::InvalidCommand),
        };
        proof {
            reveal_strlit("ping");
            reveal_strlit("echo");
            reveal_strlit("set");
            reveal_strlit("get");
            reveal_strlit("info");
        }
        if matches_keyword(name.as_str(), "ping") {
            if args.len() < 2 {
                return Ok(Command::Ping(None));
            }
            match message_arg(&args, 1) {
                Some(m) => Ok(Command::Ping(Some(m))),
                None => Err(CommandError::InvalidArgument(args.remove(1))),
            }
        } else if matches_keyword(name.as_str(), "echo") {
            if args.len() < 2 {
                return Err(CommandError::InvalidCommand);
            }
            match message_arg(&args, 1) {
                Some(m) => Ok(Command::Echo(m)),
                None => Err(CommandError::InvalidArgument(args.remove(1))),
            }
        } else if matches_keyword(name.as_str(), "set") {
            Command::set_from(args)
        } else if matches_keyword(name.as_str(), "get") {
            if args.len() < 2 {
                return Err(CommandError::Get(GetError::MissingKey));
            }
            match text_arg(&args, 1) {
                Some(key) => Ok(Command::Get { key }),
                None => Err(CommandError::InvalidArgument(args.remove(1))),
            }
        } else if matches_keyword(name.as_str(), "info") {
            if args.len() < 2 {
                return Ok(Command::Info { section: None });
            }
            match text_arg(&args, 1) {
                Some(section) => Ok(Command::Info { section: Some(section) }),
                None => Err(CommandError::InvalidArgument(args.remove(1))),
            }
        } else {
            Err(CommandError::UnknownCommand(name))
        }
    }

    /// The arguments of `SET`, after its name.
    fn set_from(mut args: Vec<Value>) -> (r: Result<Command, CommandError>)
        requires
            args@.len() >= 1,
        ensures
            result_view(r) == set_command(frames_of(args@)),
    {
        proof {
            lemma_frames_of_len(args@);
        }
        if args.len() < 2 {
            return Err(CommandError::SetCommand(SetError::MissingKey));
        }
        let key = match text_arg(&args, 1) {
            Some(t) => t,
            None => return Err(CommandError::InvalidArgument(args.remove(1))),
        };
        if args.len() < 3 {
            return Err(CommandError::SetCommand(SetError::MissingValue));
        }
        let value = match text_arg(&args, 2) {
            Some(t) => t,
            None => return Err(CommandError::InvalidArgument(args.remove(2))),
        };
        if args.len() < 4 {
            return Ok(Command::SetKey { key, value, expiry: None });
        }
        let keyword = match text_arg(&args, 3) {
            Some(t) => t,
            None => return Err(CommandError::InvalidArgument(args.remove(3))),
        };
        if args.len() < 5 {
            return Err(CommandError::SetCommand(SetError::MissingExpiry));
        }
        let amount = match text_arg(&args, 4) {
            Some(t) => t,
            None => return Err(CommandError::InvalidArgument(args.remove(4))),
        };
        let n = match parse_u64(amount.as_str()) {
            Some(n) => n,
            None => return Err(CommandError::InvalidArgument(args.remove(4))),
        };
        proof {
            reveal_strlit("ex");
            reveal_strlit("px");
            reveal_strlit("exat");
            reveal_strlit("pxat");
        }
        let expiry = if matches_keyword(keyword.as_str(), "ex") {
            Expiry::Time(Time::Seconds(n))
        } else if matches_keyword(keyword.as_str(), "px") {
            Expiry::Time(Time::Millis(n))
        } else if matches_keyword(keyword.as_str(), "exat") {
            Expiry::Unix(Time::Seconds(n))
        } else if matches_keyword(keyword.as_str(), "pxat") {
            Expiry::Unix(Time::Millis(n))
        } else {
            return Err(CommandError::InvalidArgument(args.remove(3)));
        };
        Ok(Command::SetKey { key, value, expiry: Some(expiry) })
    }
}

/// Two argument lists that spell the command name, and the expiry keyword,
/// with different ASCII case but are otherwise the same.
pub open spec fn same_but_case(a: Seq<Frame>, b: Seq<Frame>) -> bool {
    &&& a.len() == b.len()
    &&& forall|k: int| 0 <= k < a.len() && k != 0 && k != 3 ==> a[k] == b[k]
    &&& forall|k: int| #![trigger a[k], b[k]] 0 <= k < a.len() && (k == 0 || k == 3) ==> {
        ||| a[k] == b[k]
        ||| text_of(a[k]) is Some && text_of(b[k]) is Some && eq_ignore_case(text_of(a[k])->0, text_of(b[k])->0)
    }
}

proof fn lemma_eq_ignore_case_trans(a: Seq<char>, b: Seq<char>, c: Seq<char>)
    requires
        eq_ignore_case(a, b),
    ensures
        eq_ignore_case(a, c) == eq_ignore_case(b, c),
{
    if eq_ignore_case(a, c) {
        assert forall|k: int| 0 <= k < b.len() implies crate::text::ascii_lower(#[trigger] b[k]) == crate::text::ascii_lower(c[k]) by {
            assert(crate::text::ascii_lower(a[k]) == crate::text::ascii_lower(b[k]));
        }
    }
    if eq_ignore_case(b, c) {
        assert forall|k: int| 0 <= k < a.len() implies crate::text::ascii_lower(#[trigger] a[k]) == crate::text::ascii_lower(c[k]) by {
            assert(crate::text::ascii_lower(a[k]) == crate::text::ascii_lower(b[k]));
        }
    }
}

/// Command names and expiry keywords are matched without regard to ASCII
/// case: changing the case of either letter by letter parses to the same
/// command.
pub proof fn lemma_command_case_insensitive(a: Seq<Frame>, b: Seq<Frame>)
    requires
        same_but_case(a, b),
    ensures
        command_of(Frame::Array(a)) is Ok ==> command_of(Frame::Array(b)) == command_of(Frame::Array(a)),
{
    if command_of(Frame::Array(a)) is Ok {
        let na = text_of(a[0])->0;
        assert(text_of(b[0]) is Some);
        let nb = text_of(b[0])->0;
        if a[0] != b[0] {
            lemma_eq_ignore_case_trans(na, nb, "ping"@);
            lemma_eq_ignore_case_trans(na, nb, "echo"@);
            lemma_eq_ignore_case_trans(na, nb, "set"@);
            lemma_eq_ignore_case_trans(na, nb, "get"@);
            lemma_eq_ignore_case_trans(na, nb, "info"@);
        }
        if a.len() > 1 {
            assert(a[1] == b[1]);
        }
        if a.len() > 2 {
            assert(a[2] == b[2]);
        }
        if a.len() > 4 {
            assert(a[4] == b[4]);
        }
        if a.len() > 3 && a[3] != b[3] && text_of(a[3]) is Some {
            let ka = text_of(a[3])->0;
            let kb = text_of(b[3])->0;
            lemma_eq_ignore_case_trans(ka, kb, "ex"@);
            lemma_eq_ignore_case_trans(ka, kb, "px"@);
            lemma_eq_ignore_case_trans(ka, kb, "exat"@);
            lemma_eq_ignore_case_trans(ka, kb, "pxat"@);
        }
    }
}

/// The text an error reply carries for a command error.
pub open spec fn error_message(e: CommandErrorModel) -> Seq<char> {
    match e {
        CommandErrorModel::SetCommand(SetError::MissingKey) => "missing key for `SET` command"@,
        CommandErrorModel::SetCommand(SetError::MissingValue) => "missing value for `SET` command"@,
        CommandErrorModel::SetCommand(SetError::MissingExpiry) => "missing expiry timestamp for `SET` command"@,
        CommandErrorModel::SetCommand(SetError::InvalidExpiry) => "invalid expiry time for `SET` command"@,
        CommandErrorModel::Get(GetError::MissingKey) => "missing key for `GET` command"@,
        CommandErrorModel::UnknownSection(s) => "unknown section "@ + s + " for `INFO` command"@,
        CommandErrorModel::InvalidArgument(_) => "invalid argument for command"@,
        CommandErrorModel::InvalidCommand => "invalid command"@,
        CommandErrorModel::UnknownCommand(s) => "unknown command "@ + s,
    }
}

impl CommandError {
    /// The text of the error reply for this error.
    pub fn message(&self) -> (r: String)
        ensures
            r@ == error_message(self@),
    {
        match self {
            CommandError::SetCommand(SetError::MissingKey) => "missing key for `SET` command".to_owned(),
            CommandError::SetCommand(SetError::MissingValue) => "missing value for `SET` command".to_owned(),
            CommandError::SetCommand(SetError::MissingExpiry) => "missing expiry timestamp for `SET` command".to_owned(),
            CommandError::SetCommand(SetError::InvalidExpiry) => "invalid expiry time for `SET` command".to_owned(),
            CommandError::Get(GetError::MissingKey) => "missing key for `GET` command".to_owned(),
            CommandError::Info(InfoError::UnknownSection(s)) => {
                let mut m = "unknown section ".to_owned();
                m.append(s.as_str());
                m.append(" for `INFO` command");
                m
            },
            CommandError::InvalidArgument(_) => "invalid argument for command".to_owned(),
            CommandError::InvalidCommand => "invalid command".to_owned(),
            CommandError::UnknownCommand(s) => {
                let mut m = "unknown command ".to_owned();
                m.append(s.as_str());
                m
            },
        }
    }
}

impl Command {
    /// Reads the command that the first value of `text` stands for.
    pub fn parse_text(text: &str) -> (r: Result<Command, MemoraError>)
        ensures
            match parse_value_at(text.spec_bytes(), 0) {
                Parsed::Done(f, _) => match command_of(f) {
                    Ok(c) => r matches Ok(x) && x@ == c,
                    Err(e) => r matches Err(MemoraError::Command(x)) && x@ == e,
                },
                Parsed::More => r matches Err(MemoraError::Command(CommandError::InvalidCommand)),
                Parsed::Fail(e) => r matches Err(MemoraError::Resp(x)) && x == e,
            },
    {
        match Value::parse(text.as_bytes()) {
            Err(e) => Err(MemoraError::Resp(e)),
            Ok(None) => Err(MemoraError::Command(CommandError::InvalidCommand)),
            Ok(Some((v, _))) => match Command::try_from(v) {
                Ok(c) => Ok(c),
                Err(e) => Err(MemoraError::Command(e)),
            },
        }
    }
}

impl std::str::FromStr for Command {
    type Err = MemoraError;

    fn from_str(s: &str) -> Result<Command, MemoraError> {
        Command::parse_text(s)
    }
}

} // verus!

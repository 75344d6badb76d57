//! Commands: what a request frame asks the store to do.
use vstd::prelude::*;
use vstd::utf8::{decode_utf8, encode_utf8, valid_utf8};
use crate::decimal::{parse_u64, u64_of};
use crate::resp::{decode, decode_frame, same_bytes, DecodeError, Frame, RedisObject};

verus! {

/// What `str::to_uppercase` makes of a text.
pub uninterp spec fn upper_of(s: Seq<char>) -> Seq<char>;

/// Relies on `std::str::from_utf8`: it succeeds exactly on valid UTF-8, and
/// the text it returns has the bytes it was given.
#[verifier::external_body]
fn text_of(v: &[u8]) -> (r: Option<&str>)
    ensures
        r is Some <==> valid_utf8(v@),
        r matches Some(s) ==> s@ == decode_utf8(v@),
{
    std::str::from_utf8(v).ok()
}

/// Relies on `str::to_uppercase`: the result depends on the text alone.
#[verifier::external_body]
fn uppercase(s: &str) -> (r: String)
    ensures
        r@ == upper_of(s@),
{
    s.to_uppercase()
}

/// Why a request is not a command.
#[derive(PartialEq, Eq, Structural, Clone, Copy, Debug)]
pub enum ParseError {
    /// The bytes do not decode.
    Malformed(DecodeError),
    /// The value is not an array of bulk strings.
    NotCommandFrame,
    /// The first word names no command.
    UnknownCommand,
    /// A known command with the wrong number of words.
    WrongArity,
    /// A `SET` with five words whose options are not `PX <milliseconds>`.
    Syntax,
}

/// A request, resolved.
#[derive(Debug)]
pub enum Command {
    Ping,
    Echo(Vec<u8>),
    /// Key, value, and the time to live in milliseconds.
    SetKey(Vec<u8>, Vec<u8>, Option<u64>),
    Get(Vec<u8>),
    Keys(Vec<u8>),
    ConfigGet(Vec<u8>),
}

pub enum CommandView {
    Ping,
    Echo(Seq<u8>),
    SetKey(Seq<u8>, Seq<u8>, Option<u64>),
    Get(Seq<u8>),
    Keys(Seq<u8>),
    ConfigGet(Seq<u8>),
}

impl View for Command {
    type V = CommandView;

    open spec fn view(&self) -> CommandView {
        match self {
            Command::Ping => CommandView::Ping,
            Command::Echo(s) => CommandView::Echo(s@),
            Command::SetKey(k, v, px) => CommandView::SetKey(k@, v@, *px),
            Command::Get(k) => CommandView::Get(k@),
            Command::Keys(p) => CommandView::Keys(p@),
            Command::ConfigGet(p) => CommandView::ConfigGet(p@),
        }
    }
}

pub open spec fn result_view(r: Result<Command, ParseError>) -> Result<CommandView, ParseError> {
    match r {
        Ok(c) => Ok(c@),
        Err(e) => Err(e),
    }
}

/// `PING`
pub open spec fn kw_ping() -> Seq<u8> {
    seq![80u8, 73u8, 78u8, 71u8]
}

/// `ECHO`
pub open spec fn kw_echo() -> Seq<u8> {
    seq![69u8, 67u8, 72u8, 79u8]
}

/// `KEYS`
pub open spec fn kw_keys() -> Seq<u8> {
    seq![75u8, 69u8, 89u8, 83u8]
}

/// `GET`
pub open spec fn kw_get() -> Seq<u8> {
    seq![71u8, 69u8, 84u8]
}

/// `SET`
pub open spec fn kw_set() -> Seq<u8> {
    seq![83u8, 69u8, 84u8]
}

/// `PX`
pub open spec fn kw_px() -> Seq<u8> {
    seq![80u8, 88u8]
}

/// `CONFIG`
pub open spec fn kw_config() -> Seq<u8> {
    seq![67u8, 79u8, 78u8, 70u8, 73u8, 71u8]
}

/// The upper-cased form of a word, where the word is text.
pub open spec fn upper_word(w: Seq<u8>) -> Option<Seq<char>> {
    if valid_utf8(w) {
        Some(upper_of(decode_utf8(w)))
    } else {
        None
    }
}

/// Word `i`, upper-cased, is the keyword `kw`.
pub open spec fn is_keyword(upper: Seq<Option<Seq<char>>>, i: int, kw: Seq<u8>) -> bool {
    &&& 0 <= i < upper.len()
    &&& upper[i] matches Some(t) && encode_utf8(t) == kw
}

/// The command that a request's words ask for. `upper` holds each word
/// upper-cased, or `None` where the word is not text; keywords are matched
/// on it, so they match whatever their case. `CONFIG GET` needs both words.
pub open spec fn resolve(words: Seq<Seq<u8>>, upper: Seq<Option<Seq<char>>>) -> Result<
    CommandView,
    ParseError,
> {
    let n = words.len();
    if is_keyword(upper, 0, kw_ping()) {
        if n == 1 {
            Ok(CommandView::Ping)
        } else {
            Err(ParseError::WrongArity)
        }
    } else if is_keyword(upper, 0, kw_echo()) {
        if n == 2 {
            Ok(CommandView::Echo(words[1]))
        } else {
            Err(ParseError::WrongArity)
        }
    } else if is_keyword(upper, 0, kw_keys()) {
        if n == 2 {
            Ok(CommandView::Keys(words[1]))
        } else {
            Err(ParseError::WrongArity)
        }
    } else if is_keyword(upper, 0, kw_get()) {
        if n == 2 {
            Ok(CommandView::Get(words[1]))
        } else {
            Err(ParseError::WrongArity)
        }
    } else if is_keyword(upper, 0, kw_set()) {
        if n == 3 {
            Ok(CommandView::SetKey(words[1], words[2], None))
        } else if n == 5 {
            if is_keyword(upper, 3, kw_px()) && u64_of(words[4]) is Some {
                Ok(CommandView::SetKey(words[1], words[2], u64_of(words[4])))
            } else {
                Err(ParseError::Syntax)
            }
        } else {
            Err(ParseError::WrongArity)
        }
    } else if is_keyword(upper, 0, kw_config()) {
        if n == 3 {
            if is_keyword(upper, 1, kw_get()) {
                Ok(CommandView::ConfigGet(words[2]))
            } else {
                Err(ParseError::UnknownCommand)
            }
        } else {
            Err(ParseError::WrongArity)
        }
    } else {
        Err(ParseError::UnknownCommand)
    }
}

/// The words of a request: the payloads of an array of bulk strings.
pub open spec fn command_words(f: Frame) -> Option<Seq<Seq<u8>>> {
    match f {
        Frame::Arr(fs) => if forall|i: int| 0 <= i < fs.len() ==> (#[trigger] fs[i]) is Bulk {
            Some(Seq::new(fs.len(), |i: int| fs[i]->Bulk_1))
        } else {
            None
        },
        _ => None,
    }
}

/// The command a decoded frame asks for.
pub open spec fn frame_command(f: Frame) -> Result<CommandView, ParseError> {
    match command_words(f) {
        Some(ws) => resolve(ws, Seq::new(ws.len(), |i: int| upper_word(ws[i]))),
        None => Err(ParseError::NotCommandFrame),
    }
}

/// The command at the start of a buffer.
pub open spec fn buffer_command(b: Seq<u8>) -> Result<CommandView, ParseError> {
    match decode(b) {
        Ok((f, _)) => frame_command(f),
        Err(e) => Err(ParseError::Malformed(e)),
    }
}

pub open spec fn word_views(v: Seq<Vec<u8>>) -> Seq<Seq<u8>> {
    Seq::new(v.len(), |i: int| v[i]@)
}

pub open spec fn upper_views(v: Seq<Option<String>>) -> Seq<Option<Seq<char>>> {
    Seq::new(
        v.len(),
        |i: int|
            match v[i] {
                Some(s) => Some(s@),
                None => None,
            },
    )
}

fn keyword_at(upper: &Vec<Option<String>>, i: usize, kw: &[u8]) -> (r: bool)
    ensures
        r == is_keyword(upper_views(upper@), i as int, kw@),
{
    if i >= upper.len() {
        return false;
    }
    match &upper[i] {
        Some(t) => same_bytes(t.as_str().as_bytes(), kw),
        None => false,
    }
}

impl Command {
    /// Resolves a request from its words and their upper-cased forms
    /// (`None` where a word is not text).
    pub fn from_parts(words: &Vec<Vec<u8>>, upper: &Vec<Option<String>>) -> (r: Result<
        Command,
        ParseError,
    >)
        requires
            words@.len() == upper@.len(),
        ensures
            result_view(r) == resolve(word_views(words@), upper_views(upper@)),
    {
        let ghost ws = word_views(words@);
        let n = words.len();
        let ping: [u8; 4] = [80, 73, 78, 71];
        let echo: [u8; 4] = [69, 67, 72, 79];
        let keys: [u8; 4] = [75, 69, 89, 83];
        let get: [u8; 3] = [71, 69, 84];
        let set: [u8; 3] = [83, 69, 84];
        let px: [u8; 2] = [80, 88];
        let config: [u8; 6] = [67, 79, 78, 70, 73, 71];
        proof {
            assert(ping@ =~= kw_ping());
            assert(echo@ =~= kw_echo());
            assert(keys@ =~= kw_keys());
            assert(get@ =~= kw_get());
            assert(set@ =~= kw_set());
            assert(px@ =~= kw_px());
            assert(config@ =~= kw_config());
        }
        if keyword_at(upper, 0, &ping) {
            if n == 1 {
                Ok(Command::Ping)
            } else {
                Err(ParseError::WrongArity)
            }
        } else if keyword_at(upper, 0, &echo) {
            if n == 2 {
                Ok(Command::Echo(words[1].clone()))
            } else {
                Err(ParseError::WrongArity)
            }
        } else if keyword_at(upper, 0, &keys) {
            if n == 2 {
                Ok(Command::Keys(words[1].clone()))
            } else {
                Err(ParseError::WrongArity)
            }
        } else if keyword_at(upper, 0, &get) {
            if n == 2 {
                Ok(Command::Get(words[1].clone()))
            } else {
                Err(ParseError::WrongArity)
            }
        } else if keyword_at(upper, 0, &set) {
            if n == 3 {
                Ok(Command::SetKey(words[1].clone(), words[2].clone(), None))
            } else if n == 5 {
                if keyword_at(upper, 3, &px) {
                    match parse_u64(words[4].as_slice()) {
                        Some(ms) => Ok(Command::SetKey(words[1].clone(), words[2].clone(), Some(ms))),
                        None => Err(ParseError::Syntax),
                    }
                } else {
                    Err(ParseError::Syntax)
                }
            } else {
                Err(ParseError::WrongArity)
            }
        } else if keyword_at(upper, 0, &config) {
            if n == 3 {
                if keyword_at(upper, 1, &get) {
                    Ok(Command::ConfigGet(words[2].clone()))
                } else {
                    Err(ParseError::UnknownCommand)
                }
            } else {
                Err(ParseError::WrongArity)
            }
        } else {
            Err(ParseError::UnknownCommand)
        }
    }
}

impl Command {
    /// Resolves a decoded value: it must be an array of bulk strings.
    pub fn from_frame(obj: &RedisObject) -> (r: Result<Command, ParseError>)
        ensures
            result_view(r) == frame_command(obj@),
    {
        match obj {
            RedisObject::Array(items) => {
                let ghost fs = obj@->Arr_0;
                assert(fs.len() == items@.len());
                let mut words: Vec<Vec<u8>> = Vec::new();
                let mut upper: Vec<Option<String>> = Vec::new();
                let mut i: usize = 0;
                while i < items.len()
                    invariant
                        i <= items@.len(),
                        fs == obj@->Arr_0,
                        fs.len() == items@.len(),
                        forall|j: int| 0 <= j < items@.len() ==> fs[j] == (#[trigger] items@[j])@,
                        forall|j: int| 0 <= j < i ==> (#[trigger] fs[j]) is Bulk,
                        words@.len() == i,
                        upper@.len() == i,
                        word_views(words@) =~= Seq::new(i as nat, |j: int| fs[j]->Bulk_1),
                        upper_views(upper@) =~= Seq::new(
                            i as nat,
                            |j: int| upper_word(fs[j]->Bulk_1),
                        ),
                    decreases items@.len() - i,
                {
                    match &items[i] {
                        RedisObject::BulkString(_, p) => {
                            assert(fs[i as int]->Bulk_1 == p@);
                            let u = match text_of(p.as_slice()) {
                                Some(t) => Some(uppercase(t)),
                                None => None,
                            };
                            let w = p.clone();
                            assert(w@ == p@);
                            let ghost old_words = word_views(words@);
                            let ghost old_upper = upper_views(upper@);
                            words.push(w);
                            upper.push(u);
                            assert(word_views(words@) =~= old_words.push(p@));
                            assert(upper_views(upper@) =~= old_upper.push(upper_word(p@)));
                        },
                        _ => {
                            assert(!(fs[i as int] is Bulk));
                            return Err(ParseError::NotCommandFrame);
                        },
                    }
                    i = i + 1;
                }
                assert(command_words(obj@) == Some(word_views(words@)));
                Self::from_parts(&words, &upper)
            },
            _ => Err(ParseError::NotCommandFrame),
        }
    }

    /// Decodes the first value of `buf` and resolves it.
    pub fn from_buffer(buf: &[u8]) -> (r: Result<Command, ParseError>)
        ensures
            result_view(r) == buffer_command(buf@),
    {
        match decode_frame(buf) {
            Ok((o, _)) => Self::from_frame(&o),
            Err(e) => Err(ParseError::Malformed(e)),
        }
    }
}

} // verus!

//! What the server answers to one request, and what the request does to the
//! store.
use vstd::prelude::*;
use vstd::utf8::encode_utf8;
use crate::command::{buffer_command, result_view, Command, CommandView, ParseError};
use crate::config::Config;
use crate::resp::{
    array_bytes, bulk_bytes, error_bytes, error_reply, null_bulk_bytes, null_bulk_string,
    serialize_to_array, serialize_to_bulk_string, serialize_to_simple_string, simple_bytes,
    slice_views, decode, decode_frame, same_bytes,
};
use crate::store::{expiry_after, is_expired, key_views, Store, Stored};

verus! {

/// `PONG`
pub open spec fn pong() -> Seq<u8> {
    seq![80u8, 79u8, 78u8, 71u8]
}

/// `OK`
pub open spec fn ok() -> Seq<u8> {
    seq![79u8, 75u8]
}

/// `dir`
pub open spec fn param_dir() -> Seq<u8> {
    seq![100u8, 105u8, 114u8]
}

/// `dbfilename`
pub open spec fn param_dbfilename() -> Seq<u8> {
    seq![100u8, 98u8, 102u8, 105u8, 108u8, 101u8, 110u8, 97u8, 109u8, 101u8]
}

pub open spec fn text_view(s: Option<String>) -> Option<Seq<char>> {
    match s {
        Some(t) => Some(t@),
        None => None,
    }
}

/// The reply to `CONFIG GET p`: the pair `[p, value]` for a parameter that
/// is known and set, else the error reply.
pub open spec fn config_reply_spec(p: Seq<u8>, dir: Option<Seq<char>>, db_filename: Option<Seq<char>>) -> Seq<u8> {
    if p == param_dir() {
        match dir {
            Some(d) => array_bytes(seq![param_dir(), encode_utf8(d)]),
            None => error_bytes(),
        }
    } else if p == param_dbfilename() {
        match db_filename {
            Some(f) => array_bytes(seq![param_dbfilename(), encode_utf8(f)]),
            None => error_bytes(),
        }
    } else {
        error_bytes()
    }
}

/// The reply to a command and the store after it, at instant `now`.
/// `keys` is the store's key list.
pub open spec fn apply(
    c: CommandView,
    m: Map<Seq<u8>, Stored>,
    keys: Seq<Seq<u8>>,
    dir: Option<Seq<char>>,
    db_filename: Option<Seq<char>>,
    now: u64,
) -> (Seq<u8>, Map<Seq<u8>, Stored>) {
    match c {
        CommandView::Ping => (simple_bytes(pong()), m),
        CommandView::Echo(s) => (bulk_bytes(s), m),
        CommandView::SetKey(k, v, px) => (simple_bytes(ok()), m.insert(k, (expiry_after(now, px), v))),
        CommandView::Get(k) => if !m.contains_key(k) {
            (null_bulk_bytes(), m)
        } else if is_expired(m[k], now) {
            (null_bulk_bytes(), m.remove(k))
        } else {
            (bulk_bytes(m[k].1), m)
        },
        CommandView::Keys(p) => (
            array_bytes(
                if p == seq![42u8] {
                    keys
                } else {
                    seq![]
                },
            ),
            m,
        ),
        CommandView::ConfigGet(p) => (config_reply_spec(p, dir, db_filename), m),
    }
}

/// The reply to the request at the start of `request`, and the store after
/// it: the error reply, store unchanged, when it is no command.
pub open spec fn respond_spec(
    request: Seq<u8>,
    m: Map<Seq<u8>, Stored>,
    keys: Seq<Seq<u8>>,
    dir: Option<Seq<char>>,
    db_filename: Option<Seq<char>>,
    now: u64,
) -> (Seq<u8>, Map<Seq<u8>, Stored>) {
    match buffer_command(request) {
        Ok(c) => apply(c, m, keys, dir, db_filename, now),
        Err(_) => (error_bytes(), m),
    }
}

/// The reply to `CONFIG GET param`.
pub fn config_reply(config: &Config, param: &[u8]) -> (r: Vec<u8>)
    ensures
        r@ == config_reply_spec(param@, text_view(config.dir), text_view(config.db_filename)),
{
    let dir: [u8; 3] = [100, 105, 114];
    let dbfilename: [u8; 10] = [100, 98, 102, 105, 108, 101, 110, 97, 109, 101];
    assert(dir@ =~= param_dir());
    assert(dbfilename@ =~= param_dbfilename());
    if same_bytes(param, &dir) {
        match &config.dir {
            Some(d) => {
                let parts: [&[u8]; 2] = [&dir, d.as_str().as_bytes()];
                assert(slice_views(parts@) =~= seq![param_dir(), encode_utf8(d@)]);
                serialize_to_array(&parts)
            },
            None => error_reply(),
        }
    } else if same_bytes(param, &dbfilename) {
        match &config.db_filename {
            Some(f) => {
                let parts: [&[u8]; 2] = [&dbfilename, f.as_str().as_bytes()];
                assert(slice_views(parts@) =~= seq![param_dbfilename(), encode_utf8(f@)]);
                serialize_to_array(&parts)
            },
            None => error_reply(),
        }
    } else {
        error_reply()
    }
}

/// Writes a list of byte strings as an array of bulk strings.
fn serialize_list(items: &Vec<Vec<u8>>) -> (r: Vec<u8>)
    ensures
        r@ == array_bytes(key_views(items@)),
{
    let mut refs: Vec<&[u8]> = Vec::new();
    let mut i: usize = 0;
    while i < items.len()
        invariant
            i <= items@.len(),
            slice_views(refs@) =~= key_views(items@).take(i as int),
        decreases items@.len() - i,
    {
        let ghost before = slice_views(refs@);
        refs.push(items[i].as_slice());
        assert(slice_views(refs@) =~= before.push(items@[i as int]@));
        assert(key_views(items@).take(i as int).push(items@[i as int]@) =~= key_views(items@).take(
            i + 1,
        ));
        i = i + 1;
    }
    assert(key_views(items@).take(i as int) =~= key_views(items@));
    serialize_to_array(refs.as_slice())
}

/// Carries out a resolved request at instant `now`.
fn execute(store: &mut Store, config: &Config, cmd: Result<Command, ParseError>, now: u64) -> (r: Vec<u8>)
    requires
        old(store).wf(),
    ensures
        final(store).wf(),
        (r@, final(store).view()) == match result_view(cmd) {
            Ok(c) => apply(
                c,
                old(store).view(),
                old(store).key_list(),
                text_view(config.dir),
                text_view(config.db_filename),
                now,
            ),
            Err(_) => (error_bytes(), old(store).view()),
        },
{
    let pong_text: [u8; 4] = [80, 79, 78, 71];
    let ok_text: [u8; 2] = [79, 75];
    assert(pong_text@ =~= pong());
    assert(ok_text@ =~= ok());
    match cmd {
        Err(_) => error_reply(),
        Ok(Command::Ping) => serialize_to_simple_string(&pong_text),
        Ok(Command::Echo(s)) => serialize_to_bulk_string(s.as_slice()),
        Ok(Command::SetKey(k, v, px)) => {
            store.set(k, v, px, now);
            serialize_to_simple_string(&ok_text)
        },
        Ok(Command::Get(k)) => match store.get(k.as_slice(), now) {
            Some(v) => serialize_to_bulk_string(v.as_slice()),
            None => null_bulk_string(),
        },
        Ok(Command::Keys(p)) => {
            let ks = store.keys(p.as_slice());
            let out = serialize_list(&ks);
            proof {
                if p@ != seq![42u8] {
                    assert(key_views(ks@) =~= Seq::<Seq<u8>>::empty());
                }
            }
            out
        },
        Ok(Command::ConfigGet(p)) => config_reply(config, p.as_slice()),
    }
}

/// Answers the request at the start of `request` at instant `now` (on the
/// store's clock), updating the store; also returns how many bytes the
/// request took, so that the next one can be answered. Bytes that do not
/// decode are all taken: there is no telling where a next request starts.
pub fn respond_next(store: &mut Store, config: &Config, request: &[u8], now: u64) -> (r: (Vec<u8>, usize))
    requires
        old(store).wf(),
    ensures
        final(store).wf(),
        (r.0@, final(store).view()) == respond_spec(
            request@,
            old(store).view(),
            old(store).key_list(),
            text_view(config.dir),
            text_view(config.db_filename),
            now,
        ),
        r.1 == match decode(request@) {
            Ok((_, c)) => c,
            Err(_) => request@.len() as int,
        },
        0 < r.1 <= request@.len() || request@.len() == 0,
{
    match decode_frame(request) {
        Ok((o, c)) => {
            let cmd = Command::from_frame(&o);
            (execute(store, config, cmd, now), c)
        },
        Err(_) => (error_reply(), request.len()),
    }
}

/// Answers the request at the start of `request` at instant `now` (on the
/// store's clock), updating the store.
pub fn respond(store: &mut Store, config: &Config, request: &[u8], now: u64) -> (r: Vec<u8>)
    requires
        old(store).wf(),
    ensures
        final(store).wf(),
        (r@, final(store).view()) == respond_spec(
            request@,
            old(store).view(),
            old(store).key_list(),
            text_view(config.dir),
            text_view(config.db_filename),
            now,
        ),
{
    respond_next(store, config, request, now).0
}

/// A key set with a time to live of zero is gone from that instant on: a
/// read at once, or later, finds it absent and removes it, and a second
/// read finds nothing either.
pub proof fn lemma_zero_ttl_is_gone(
    m: Map<Seq<u8>, Stored>,
    keys: Seq<Seq<u8>>,
    dir: Option<Seq<char>>,
    db_filename: Option<Seq<char>>,
    k: Seq<u8>,
    v: Seq<u8>,
    now: u64,
    later: u64,
    again: u64,
)
    requires
        now <= later,
    ensures
        ({
            let m1 = apply(CommandView::SetKey(k, v, Some(0u64)), m, keys, dir, db_filename, now).1;
            let second = apply(CommandView::Get(k), m1, keys, dir, db_filename, later);
            let third = apply(CommandView::Get(k), second.1, keys, dir, db_filename, again);
            &&& second.0 == null_bulk_bytes()
            &&& !second.1.contains_key(k)
            &&& third.0 == null_bulk_bytes()
            &&& third.1 == second.1
        }),
{
}

} // verus!

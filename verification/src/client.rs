//! Client setup: reading the authentication token and port out of the
//! target process's command line, building the Authorization header, and
//! assembling the connection configuration. Finding the process itself is
//! an operating-system call and lives with the caller; this module gets
//! the command-line text as a plain string.

use vstd::prelude::*;
use vstd::assert_by_contradiction;

use crate::Error;
use crate::LCResult;
use crate::connector::Connector;
use crate::json::copy_range;
use crate::message::str_to_chars;
use crate::message::chars_to_string;

verus! {

// ---------------------------------------------------------------------------
// Command-line scanning
// ---------------------------------------------------------------------------

/// Characters that separate command-line arguments in the process
/// listing: a quote (quoted listings) or a space (plain listings).
pub open spec fn is_arg_sep(c: char) -> bool {
    c == '"' || c == ' '
}

/// First position at or after `pos` holding an argument separator.
pub open spec fn first_sep(s: Seq<char>, pos: int) -> int
    decreases s.len() - pos,
    when 0 <= pos <= s.len()
{
    if pos < s.len() && !is_arg_sep(s[pos]) {
        first_sep(s, pos + 1)
    } else {
        pos
    }
}

pub proof fn lemma_first_sep(s: Seq<char>, pos: int)
    requires
        0 <= pos <= s.len(),
    ensures
        pos <= first_sep(s, pos) <= s.len(),
    decreases s.len() - pos,
{
    if pos < s.len() && !is_arg_sep(s[pos]) {
        lemma_first_sep(s, pos + 1);
    }
}

/// First position at or after `pos` holding `=`.
pub open spec fn first_eq(s: Seq<char>, pos: int) -> int
    decreases s.len() - pos,
    when 0 <= pos <= s.len()
{
    if pos < s.len() && s[pos] != '=' {
        first_eq(s, pos + 1)
    } else {
        pos
    }
}

pub proof fn lemma_first_eq(s: Seq<char>, pos: int)
    requires
        0 <= pos <= s.len(),
    ensures
        pos <= first_eq(s, pos) <= s.len(),
    decreases s.len() - pos,
{
    if pos < s.len() && s[pos] != '=' {
        lemma_first_eq(s, pos + 1);
    }
}

/// If the argument is `<key>=<value>[=...]`, the value: the text between
/// the `=` that follows the key and the next `=` or the end.
pub open spec fn arg_value(tok: Seq<char>, key: Seq<char>) -> Option<Seq<char>> {
    if tok.len() > key.len() && tok.take(key.len() as int) == key && tok[key.len() as int]
        == '=' {
        let rest = tok.subrange(key.len() as int + 1, tok.len() as int);
        Some(rest.take(first_eq(rest, 0)))
    } else {
        None
    }
}

/// Scans the arguments of `s` from `pos` on; the value of the last
/// argument keyed by `key` wins, `cur` being the best value so far.
pub open spec fn find_from(s: Seq<char>, pos: int, key: Seq<char>, cur: Option<Seq<char>>) ->
    Option<Seq<char>>
    decreases s.len() - pos,
    when 0 <= pos <= s.len()
    via find_from_dec
{
    let e = first_sep(s, pos);
    let v = match arg_value(s.subrange(pos, e), key) {
        Option::Some(x) => Some(x),
        Option::None => cur,
    };
    if e >= s.len() {
        v
    } else {
        find_from(s, e + 1, key, v)
    }
}

#[via_fn]
proof fn find_from_dec(s: Seq<char>, pos: int, key: Seq<char>, cur: Option<Seq<char>>) {
    lemma_first_sep(s, pos);
}

/// The value of the last `<key>=<value>` argument of the command line, if
/// any.
pub open spec fn spec_token_value(s: Seq<char>, key: Seq<char>) -> Option<Seq<char>> {
    find_from(s, 0, key, None)
}

/// Executable counterpart of `arg_value`.
fn arg_value_exec(tok: &Vec<char>, key: &Vec<char>) -> (r: Option<Vec<char>>)
    ensures
        match r {
            Option::Some(v) => arg_value(tok@, key@) == Some(v@),
            Option::None => arg_value(tok@, key@) is None,
        },
{
    if tok.len() <= key.len() {
        return None;
    }
    let mut i: usize = 0;
    while i < key.len()
        invariant
            i <= key@.len() < tok@.len(),
            forall|j: int| 0 <= j < i ==> tok@[j] == key@[j],
        decreases key@.len() - i,
    {
        if tok[i] != key[i] {
            proof {
                assert(tok@.take(key@.len() as int)[i as int] != key@[i as int]);
            }
            return None;
        }
        i = i + 1;
    }
    proof {
        assert(tok@.take(key@.len() as int) =~= key@);
    }
    if tok[key.len()] != '=' {
        return None;
    }
    // find the end of the value
    let start = key.len() + 1;
    let mut e: usize = start;
    while e < tok.len() && tok[e] != '='
        invariant
            start <= e <= tok@.len(),
            first_eq(tok@.subrange(start as int, tok@.len() as int), 0) == first_eq(
                tok@.subrange(start as int, tok@.len() as int),
                e - start,
            ),
        decreases tok@.len() - e,
    {
        e = e + 1;
    }
    let v = copy_range(tok, start, e);
    proof {
        let rest = tok@.subrange(start as int, tok@.len() as int);
        lemma_first_eq(rest, e - start);
        assert(first_eq(rest, 0) == e - start);
        assert(v@ =~= rest.take(e - start));
    }
    Some(v)
}

/// Executable counterpart of `spec_token_value`: the last `<key>=<value>`
/// argument wins.
fn token_value(s: &Vec<char>, key: &Vec<char>) -> (r: Option<Vec<char>>)
    ensures
        match r {
            Option::Some(v) => spec_token_value(s@, key@) == Some(v@),
            Option::None => spec_token_value(s@, key@) is None,
        },
{
    let mut pos: usize = 0;
    let mut cur: Option<Vec<char>> = None;
    loop
        invariant
            0 <= pos <= s@.len(),
            spec_token_value(s@, key@) == find_from(
                s@,
                pos as int,
                key@,
                match cur {
                    Option::Some(v) => Some(v@),
                    Option::None => None::<Seq<char>>,
                },
            ),
        decreases s@.len() - pos,
    {
        proof {
            lemma_first_sep(s@, pos as int);
        }
        let mut e: usize = pos;
        while e < s.len() && !(s[e] == '"' || s[e] == ' ')
            invariant
                pos <= e <= s@.len(),
                first_sep(s@, pos as int) == first_sep(s@, e as int),
            decreases s@.len() - e,
        {
            e = e + 1;
        }
        assert(e as int == first_sep(s@, pos as int));
        let tok = copy_range(s, pos, e);
        match arg_value_exec(&tok, key) {
            Option::Some(v) => {
                cur = Some(v);
            },
            Option::None => {
            },
        }
        if e >= s.len() {
            return cur;
        }
        pos = e + 1;
    }
}

// ---------------------------------------------------------------------------
// Process line parsing
// ---------------------------------------------------------------------------

/// Whether `p` occurs as a contiguous part of `s`.
pub open spec fn contains_seq(s: Seq<char>, p: Seq<char>) -> bool {
    exists|i: int|
        0 <= i && i + p.len() <= s.len() && #[trigger] s.subrange(i, i + p.len()) == p
}

/// Whether `p` stands at position `i` of `s`.
fn match_at(s: &Vec<char>, p: &Vec<char>, i: usize) -> (r: bool)
    requires
        i + p@.len() <= s@.len(),
    ensures
        r == (s@.subrange(i as int, i as int + p@.len() as int) == p@),
{
    let _n = s.len();
    let mut k: usize = 0;
    while k < p.len()
        invariant
            i + p@.len() <= s@.len(),
            s@.len() <= usize::MAX,
            0 <= k <= p@.len(),
            forall|j: int| 0 <= j < k ==> s@[i + j] == #[trigger] p@[j],
        decreases p@.len() - k,
    {
        if s[i + k] != p[k] {
            proof {
                assert(s@.subrange(i as int, i as int + p@.len() as int)[k as int] != p@[
                    k as int]);
            }
            return false;
        }
        k = k + 1;
    }
    proof {
        assert(s@.subrange(i as int, i as int + p@.len() as int) =~= p@);
    }
    true
}

/// Executable substring test.
pub fn contains_chars(s: &Vec<char>, p: &Vec<char>) -> (r: bool)
    ensures
        r == contains_seq(s@, p@),
{
    if p.len() > s.len() {
        return false;
    }
    if p.len() == 0 {
        proof {
            assert(s@.subrange(0, 0 + p@.len() as int) =~= p@);
            assert(contains_seq(s@, p@));
        }
        return true;
    }
    let mut i: usize = 0;
    while i <= s.len() - p.len()
        invariant
            1 <= p@.len() <= s@.len(),
            s@.len() <= usize::MAX,
            0 <= i <= s@.len() - p@.len() + 1,
            forall|j: int|
                0 <= j < i ==> #[trigger] s@.subrange(j, j + p@.len()) != p@,
        decreases s@.len() - p@.len() + 1 - i,
    {
        if match_at(s, p, i) {
            return true;
        }
        i = i + 1;
    }
    proof {
        assert_by_contradiction!(!contains_seq(s@, p@), {
            let j = choose|j: int|
                0 <= j && j + p@.len() <= s@.len() && #[trigger] s@.subrange(j, j + p@.len())
                    == p@;
            assert(j < i);
        });
    }
    false
}

/// Whether one process-listing line belongs to the target client: it must
/// name both the port argument and the token argument.
pub fn is_client_line(line: &str) -> (r: bool)
    ensures
        r == (contains_seq(line@, seq!['-', '-', 'a', 'p', 'p', '-', 'p', 'o', 'r', 't'])
            && contains_seq(
            line@,
            seq!['-', '-', 'r', 'e', 'm', 'o', 't', 'i', 'n', 'g', '-', 'a', 'u', 't', 'h', '-',
                't', 'o', 'k', 'e', 'n'],
        )),
{
    let cs = str_to_chars(line);
    let port_marker = vec!['-', '-', 'a', 'p', 'p', '-', 'p', 'o', 'r', 't'];
    let token_marker = vec!['-', '-', 'r', 'e', 'm', 'o', 't', 'i', 'n', 'g', '-', 'a', 'u',
        't', 'h', '-', 't', 'o', 'k', 'e', 'n'];
    proof {
        assert(port_marker@ =~= seq!['-', '-', 'a', 'p', 'p', '-', 'p', 'o', 'r', 't']);
        assert(token_marker@ =~= seq!['-', '-', 'r', 'e', 'm', 'o', 't', 'i', 'n', 'g', '-',
            'a', 'u', 't', 'h', '-', 't', 'o', 'k', 'e', 'n']);
    }
    contains_chars(&cs, &port_marker) && contains_chars(&cs, &token_marker)
}

/// What `parse_process` must return on the command line `s`.
pub open spec fn spec_parse_process(s: Seq<char>) -> Result<(Seq<char>, Seq<char>), Error> {
    let tk = seq!['-', '-', 'r', 'e', 'm', 'o', 't', 'i', 'n', 'g', '-', 'a', 'u', 't', 'h',
        '-', 't', 'o', 'k', 'e', 'n'];
    let pk = seq!['-', '-', 'a', 'p', 'p', '-', 'p', 'o', 'r', 't'];
    match (spec_token_value(s, tk), spec_token_value(s, pk)) {
        (Option::Some(t), Option::Some(p)) => Ok((t, p)),
        _ => Err(Error::AppNotRunning),
    }
}

/// Pulls the authentication token and the port out of one process-listing
/// line: the values of the last `--remoting-auth-token=` and `--app-port=`
/// arguments. Fails exactly when either argument is absent.
pub fn parse_process(value: &str) -> (r: LCResult<(String, String)>)
    ensures
        match r {
            Ok(tp) => spec_parse_process(value@) == Ok::<(Seq<char>, Seq<char>), Error>(
                (tp.0@, tp.1@),
            ),
            Err(e) => e == Error::AppNotRunning && spec_parse_process(value@) == Err::<
                (Seq<char>, Seq<char>),
                Error,
            >(Error::AppNotRunning),
        },
{
    let cs = str_to_chars(value);
    let token_key = vec!['-', '-', 'r', 'e', 'm', 'o', 't', 'i', 'n', 'g', '-', 'a', 'u', 't',
        'h', '-', 't', 'o', 'k', 'e', 'n'];
    let port_key = vec!['-', '-', 'a', 'p', 'p', '-', 'p', 'o', 'r', 't'];
    proof {
        assert(token_key@ =~= seq!['-', '-', 'r', 'e', 'm', 'o', 't', 'i', 'n', 'g', '-', 'a',
            'u', 't', 'h', '-', 't', 'o', 'k', 'e', 'n']);
        assert(port_key@ =~= seq!['-', '-', 'a', 'p', 'p', '-', 'p', 'o', 'r', 't']);
    }
    let tv = token_value(&cs, &token_key);
    let pv = token_value(&cs, &port_key);
    match (tv, pv) {
        (Option::Some(t), Option::Some(p)) => Ok((chars_to_string(&t), chars_to_string(&p))),
        _ => Err(Error::AppNotRunning),
    }
}

// ---------------------------------------------------------------------------
// Authorization header
// ---------------------------------------------------------------------------

/// Standard-alphabet, padded base64 text of the UTF-8 bytes of a string.
pub uninterp spec fn base64_std(s: Seq<char>) -> Seq<char>;

/// Relies on base64's `Engine::encode` with the standard engine: the
/// result depends on the input bytes alone, and an empty input encodes to
/// an empty string.
#[verifier::external_body]
fn b64_encode(s: &str) -> (r: String)
    requires
        s@.len() <= 0xFFFFFF,
    ensures
        r@ == base64_std(s@),
        s@.len() == 0 ==> r@.len() == 0,
{
    base64::Engine::encode(&base64::engine::general_purpose::STANDARD, s)
}

/// The Authorization header value for a token: `Basic ` followed by the
/// base64 text of `riot:<token>`.
pub open spec fn spec_auth(token: Seq<char>) -> Seq<char> {
    seq!['B', 'a', 's', 'i', 'c', ' '] + base64_std(seq!['r', 'i', 'o', 't', ':'] + token)
}

// ---------------------------------------------------------------------------
// Client configuration
// ---------------------------------------------------------------------------

/// Collects what the client needs before connecting: the token and port
/// found in the process listing, and the TLS choice.
#[derive(Debug, Clone)]
pub struct ClientBuilder {
    pub token: String,
    pub port: String,
    pub insecure: bool,
}

impl ClientBuilder {
    /// Builds from one process-listing line, as `parse_process` reads it.
    pub fn from_process_line(line: &str) -> (r: LCResult<ClientBuilder>)
        ensures
            match r {
                Ok(b) => spec_parse_process(line@) == Ok::<(Seq<char>, Seq<char>), Error>(
                    (b.token@, b.port@),
                ) && !b.insecure,
                Err(e) => e == Error::AppNotRunning && spec_parse_process(line@) is Err,
            },
    {
        match parse_process(line) {
            Ok(tp) => {
                let (token, port) = tp;
                Ok(ClientBuilder { token, port, insecure: false })
            },
            Err(e) => Err(Error::AppNotRunning),
        }
    }

    /// Chooses whether certificate validation is skipped.
    pub fn insecure(self, value: bool) -> (r: Self)
        ensures
            r.insecure == value,
            r.token == self.token,
            r.port == self.port,
    {
        ClientBuilder { token: self.token, port: self.port, insecure: value }
    }

    /// The Authorization header value for this builder's token.
    pub fn auth(&self) -> (r: String)
        requires
            self.token@.len() <= 0xFFFF,
        ensures
            r@ == spec_auth(self.token@),
    {
        let mut v = vec!['r', 'i', 'o', 't', ':'];
        let tc = str_to_chars(self.token.as_str());
        let mut i: usize = 0;
        proof {
            assert(v@ =~= seq!['r', 'i', 'o', 't', ':']);
        }
        while i < tc.len()
            invariant
                i <= tc@.len(),
                v@ == seq!['r', 'i', 'o', 't', ':'] + tc@.take(i as int),
            decreases tc@.len() - i,
        {
            v.push(tc[i]);
            proof {
                assert(seq!['r', 'i', 'o', 't', ':'] + tc@.take(i as int + 1) =~= (seq!['r',
                    'i', 'o', 't', ':'] + tc@.take(i as int)).push(tc@[i as int]));
            }
            i = i + 1;
        }
        proof {
            assert(tc@.take(tc@.len() as int) =~= tc@);
        }
        let joined = chars_to_string(&v);
        let encoded = b64_encode(joined.as_str());
        let mut out = vec!['B', 'a', 's', 'i', 'c', ' '];
        let ec = str_to_chars(encoded.as_str());
        let mut j: usize = 0;
        proof {
            assert(out@ =~= seq!['B', 'a', 's', 'i', 'c', ' ']);
        }
        while j < ec.len()
            invariant
                j <= ec@.len(),
                out@ == seq!['B', 'a', 's', 'i', 'c', ' '] + ec@.take(j as int),
            decreases ec@.len() - j,
        {
            out.push(ec[j]);
            proof {
                assert(seq!['B', 'a', 's', 'i', 'c', ' '] + ec@.take(j as int + 1) =~= (seq![
                    'B', 'a', 's', 'i', 'c', ' '] + ec@.take(j as int)).push(ec@[j as int]));
            }
            j = j + 1;
        }
        proof {
            assert(ec@.take(ec@.len() as int) =~= ec@);
        }
        chars_to_string(&out)
    }

    /// Consumes the builder: derives the Authorization header, fixes the
    /// local loopback target, and settles the TLS configuration.
    pub fn build(self) -> (r: LCResult<Client>)
        requires
            self.token@.len() <= 0xFFFF,
        ensures
            self.insecure ==> (r matches Ok(c) && c.basic@ == spec_auth(self.token@) && c.addr@
                == seq!['1', '2', '7', '.', '0', '.', '0', '.', '1', ':'] + self.port@
                && c.connector.insecure),
            !self.insecure ==> (r matches Err(e) && e is Tls),
    {
        let basic = self.auth();
        let connector = match Connector::builder().insecure(self.insecure).build() {
            Ok(c) => c,
            Err(e) => {
                return Err(e);
            },
        };
        let mut v = vec!['1', '2', '7', '.', '0', '.', '0', '.', '1', ':'];
        proof {
            assert(v@ =~= seq!['1', '2', '7', '.', '0', '.', '0', '.', '1', ':']);
        }
        let pc = str_to_chars(self.port.as_str());
        let mut i: usize = 0;
        while i < pc.len()
            invariant
                i <= pc@.len(),
                v@ == seq!['1', '2', '7', '.', '0', '.', '0', '.', '1', ':'] + pc@.take(i as int),
            decreases pc@.len() - i,
        {
            v.push(pc[i]);
            proof {
                assert(seq!['1', '2', '7', '.', '0', '.', '0', '.', '1', ':'] + pc@.take(
                    i as int + 1,
                ) =~= (seq!['1', '2', '7', '.', '0', '.', '0', '.', '1', ':'] + pc@.take(
                    i as int,
                )).push(pc@[i as int]));
            }
            i = i + 1;
        }
        proof {
            assert(pc@.take(pc@.len() as int) =~= pc@);
        }
        let addr = chars_to_string(&v);
        Ok(Client { basic, addr, connector })
    }
}

/// The assembled client configuration: the Authorization header value,
/// the loopback target address, and the TLS configuration. The HTTP
/// channel and the live socket are built around it by the caller.
#[derive(Debug, Clone)]
pub struct Client {
    pub basic: String,
    pub addr: String,
    pub connector: Connector,
}

} // verus!

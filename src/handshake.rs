//! The opening handshake: the request's headers, their validation, and the
//! server's answer.
use crate::frame::append;
use rustc_serialize::base64::{ToBase64, STANDARD};
use vstd::prelude::*;
use vstd::slice::slice_to_vec;
use vstd::string::StringSliceAdditionalSpecFns;

verus! {

/// The GUID that RFC 6455 appends to a client's key.
pub const WEBSOCKET_GUID: &'static str = "258EAFA5-E914-47DA-95CA-C5AB0DC85B11";

/// The SHA-1 digest of `data`.
pub uninterp spec fn sha1_of(data: Seq<u8>) -> Seq<u8>;

/// Relies on sha1's `Sha1`: a fresh hasher fed `data` once, then
/// `digest().bytes()`, the 20 bytes of the SHA-1 digest of `data`.
#[verifier::external_body]
fn sha1_digest(data: &[u8]) -> (r: Vec<u8>)
    ensures
        r@ == sha1_of(data@),
        r@.len() == 20,
{
    let mut m = sha1::Sha1::new();
    m.update(data);
    m.digest().bytes().to_vec()
}

/// The base64 digit (standard alphabet) of a six-bit value.
pub open spec fn base64_digit(v: nat) -> u8 {
    if v < 26 {
        (65 + v) as u8
    } else if v < 52 {
        (97 + v - 26) as u8
    } else if v < 62 {
        (48 + v - 52) as u8
    } else if v == 62 {
        43
    } else {
        47
    }
}

/// Base64 of `b` with the standard alphabet, `=` padding and no line breaks.
pub open spec fn base64(b: Seq<u8>) -> Seq<u8>
    decreases b.len(),
{
    if b.len() >= 3 {
        let n = b[0] as nat * 65536 + b[1] as nat * 256 + b[2] as nat;
        seq![
            base64_digit(n / 262144),
            base64_digit(n / 4096 % 64),
            base64_digit(n / 64 % 64),
            base64_digit(n % 64),
        ] + base64(b.skip(3))
    } else if b.len() == 2 {
        let n = b[0] as nat * 65536 + b[1] as nat * 256;
        seq![base64_digit(n / 262144), base64_digit(n / 4096 % 64), base64_digit(n / 64 % 64), 61u8]
    } else if b.len() == 1 {
        let n = b[0] as nat * 65536;
        seq![base64_digit(n / 262144), base64_digit(n / 4096 % 64), 61u8, 61u8]
    } else {
        Seq::empty()
    }
}

/// Relies on rustc_serialize's `ToBase64::to_base64` with `STANDARD`: the
/// standard alphabet, `=` padding, no line length.
#[verifier::external_body]
fn to_base64_standard(b: &[u8]) -> (r: Vec<u8>)
    ensures
        r@ == base64(b@),
{
    b.to_base64(STANDARD).into_bytes()
}

/// The `Sec-WebSocket-Accept` value for a client's key.
pub open spec fn accept_value(key: Seq<u8>) -> Seq<u8> {
    base64(sha1_of(key + WEBSOCKET_GUID.spec_bytes()))
}

/// The `Sec-WebSocket-Accept` value for the key `key`: base64 of the SHA-1
/// digest of the key followed by the GUID.
pub fn gen_key(key: &[u8]) -> (r: Vec<u8>)
    ensures
        r@ == accept_value(key@),
{
    let mut data: Vec<u8> = Vec::new();
    append(&mut data, key);
    append(&mut data, WEBSOCKET_GUID.as_bytes());
    let digest = sha1_digest(data.as_slice());
    to_base64_standard(digest.as_slice())
}

} // verus!

verus! {

pub open spec fn lower_byte(b: u8) -> u8 {
    if 65 <= b <= 90 {
        (b + 32) as u8
    } else {
        b
    }
}

/// ASCII lower case of `s`; other bytes are kept.
pub open spec fn lower(s: Seq<u8>) -> Seq<u8> {
    s.map_values(|b: u8| lower_byte(b))
}

fn to_lower_byte(b: u8) -> (r: u8)
    ensures
        r == lower_byte(b),
{
    if 65 <= b && b <= 90 {
        b + 32
    } else {
        b
    }
}

fn to_lower(s: &[u8]) -> (r: Vec<u8>)
    ensures
        r@ == lower(s@),
{
    let mut out: Vec<u8> = Vec::new();
    let mut i: usize = 0;
    while i < s.len()
        invariant
            i <= s@.len(),
            out@ =~= lower(s@.subrange(0, i as int)),
        decreases s@.len() - i,
    {
        out.push(to_lower_byte(s[i]));
        i = i + 1;
        assert(out@ =~= lower(s@.subrange(0, i as int)));
    }
    assert(s@.subrange(0, i as int) =~= s@);
    out
}

/// Whether two byte strings are equal.
pub fn bytes_equal(a: &[u8], b: &[u8]) -> (r: bool)
    ensures
        r == (a@ == b@),
{
    if a.len() != b.len() {
        return false;
    }
    let mut i: usize = 0;
    while i < a.len()
        invariant
            i <= a@.len(),
            a@.len() == b@.len(),
            a@.subrange(0, i as int) == b@.subrange(0, i as int),
        decreases a@.len() - i,
    {
        if a[i] != b[i] {
            assert(a@[i as int] != b@[i as int]);
            return false;
        }
        i = i + 1;
        assert(a@.subrange(0, i as int) =~= a@.subrange(0, i - 1) + seq![a@[i - 1]]);
        assert(b@.subrange(0, i as int) =~= b@.subrange(0, i - 1) + seq![b@[i - 1]]);
    }
    assert(a@.subrange(0, i as int) =~= a@);
    assert(b@.subrange(0, i as int) =~= b@);
    true
}

pub open spec fn has_name(es: Seq<(Seq<u8>, Seq<u8>)>, k: Seq<u8>) -> bool {
    exists|i: int| 0 <= i < es.len() && (#[trigger] es[i]).0 == k
}

pub open spec fn index_of(es: Seq<(Seq<u8>, Seq<u8>)>, k: Seq<u8>) -> int {
    choose|i: int| 0 <= i < es.len() && (#[trigger] es[i]).0 == k
}

/// The value of header `k` (lower case), if the request had it.
pub open spec fn lookup(es: Seq<(Seq<u8>, Seq<u8>)>, k: Seq<u8>) -> Option<Seq<u8>> {
    if has_name(es, k) {
        Some(es[index_of(es, k)].1)
    } else {
        None
    }
}

/// What is joined between the values of a repeated header.
pub open spec fn value_separator() -> Seq<u8> {
    seq![44u8, 32u8]
}

/// The headers after one more, `name: value`: names compare without regard to
/// case, and a repeated header's values are joined with `", "`.
pub open spec fn added(es: Seq<(Seq<u8>, Seq<u8>)>, name: Seq<u8>, value: Seq<u8>) -> Seq<
    (Seq<u8>, Seq<u8>),
> {
    let k = lower(name);
    if has_name(es, k) {
        let i = index_of(es, k);
        es.update(i, (k, es[i].1 + value_separator() + value))
    } else {
        es.push((k, value))
    }
}

/// The headers of a request, by lower-case name.
pub struct HeaderMap {
    entries: Vec<(Vec<u8>, Vec<u8>)>,
}

impl View for HeaderMap {
    type V = Seq<(Seq<u8>, Seq<u8>)>;

    closed spec fn view(&self) -> Seq<(Seq<u8>, Seq<u8>)> {
        self.entries@.map_values(|e: (Vec<u8>, Vec<u8>)| (e.0@, e.1@))
    }
}

impl HeaderMap {
    /// Names are unique.
    pub open spec fn wf(&self) -> bool {
        forall|i: int, j: int|
            0 <= i < j < self@.len() ==> (#[trigger] self@[i]).0 != (#[trigger] self@[j]).0
    }

    pub fn new() -> (r: HeaderMap)
        ensures
            r.wf(),
            r@ == Seq::<(Seq<u8>, Seq<u8>)>::empty(),
    {
        let r = HeaderMap { entries: Vec::new() };
        assert(r@ =~= Seq::<(Seq<u8>, Seq<u8>)>::empty());
        r
    }

    fn find(&self, k: &[u8]) -> (r: Option<usize>)
        requires
            self.wf(),
        ensures
            r is None ==> !has_name(self@, k@),
            r matches Some(i) ==> i < self@.len() && i == index_of(self@, k@) && has_name(self@, k@),
    {
        let mut i: usize = 0;
        while i < self.entries.len()
            invariant
                self.wf(),
                i <= self@.len(),
                self@.len() == self.entries@.len(),
                forall|j: int| 0 <= j < i ==> (#[trigger] self@[j]).0 != k@,
            decreases self@.len() - i,
        {
            if bytes_equal(self.entries[i].0.as_slice(), k) {
                assert(self@[i as int].0 == k@);
                let ghost c = index_of(self@, k@);
                assert(0 <= c < self@.len() && self@[c].0 == k@);
                proof {
                    if c < i as int {
                        assert(self@[c].0 != self@[i as int].0);
                    } else if c > i as int {
                        assert(self@[i as int].0 != self@[c].0);
                    }
                }
                return Some(i);
            }
            i = i + 1;
        }
        None
    }

    /// Adds the header `name: value`.
    pub fn add(&mut self, name: &[u8], value: &[u8])
        requires
            old(self).wf(),
        ensures
            final(self).wf(),
            final(self)@ == added(old(self)@, name@, value@),
    {
        let k = to_lower(name);
        match self.find(k.as_slice()) {
            Some(i) => {
                let mut v = self.entries[i].1.clone();
                assert(v@ == self@[i as int].1);
                v.push(44u8);
                v.push(32u8);
                append(&mut v, value);
                assert(v@ == self@[i as int].1 + value_separator() + value@);
                let ghost before = self@;
                self.entries.set(i, (k, v));
                assert(self@ =~= added(before, name@, value@));
            },
            None => {
                let ghost before = self@;
                self.entries.push((k, slice_to_vec(value)));
                assert(self@ =~= added(before, name@, value@));
            },
        }
    }

    /// The value of header `name`, whatever its case.
    pub fn get(&self, name: &[u8]) -> (r: Option<Vec<u8>>)
        requires
            self.wf(),
        ensures
            r matches Some(v) ==> lookup(self@, lower(name@)) == Some(v@),
            r is None ==> lookup(self@, lower(name@)) is None,
    {
        let k = to_lower(name);
        match self.find(k.as_slice()) {
            Some(i) => Some(self.entries[i].1.clone()),
            None => None,
        }
    }
}

} // verus!

verus! {

pub open spec fn is_space(b: u8) -> bool {
    b == 32 || b == 9
}

pub open spec fn trim_start(t: Seq<u8>) -> Seq<u8>
    decreases t.len(),
{
    if t.len() > 0 && is_space(t[0]) {
        trim_start(t.drop_first())
    } else {
        t
    }
}

pub open spec fn trim_end(t: Seq<u8>) -> Seq<u8>
    decreases t.len(),
{
    if t.len() > 0 && is_space(t.last()) {
        trim_end(t.drop_last())
    } else {
        t
    }
}

/// `t` without spaces and tabs at either end.
pub open spec fn trim(t: Seq<u8>) -> Seq<u8> {
    trim_end(trim_start(t))
}

/// `t` without spaces and tabs at either end.
pub fn trimmed(t: &[u8]) -> (r: Vec<u8>)
    ensures
        r@ == trim(t@),
{
    let n = t.len();
    let mut a: usize = 0;
    assert(t@.subrange(0, n as int) =~= t@);
    while a < n && (t[a] == 32 || t[a] == 9)
        invariant
            a <= n == t@.len(),
            trim_start(t@) == trim_start(t@.subrange(a as int, n as int)),
        decreases n - a,
    {
        assert(t@.subrange(a as int, n as int).drop_first() =~= t@.subrange(a + 1, n as int));
        a = a + 1;
    }
    let mut b: usize = n;
    assert(trim_start(t@) == t@.subrange(a as int, n as int));
    while b > a && (t[b - 1] == 32 || t[b - 1] == 9)
        invariant
            a <= b <= n == t@.len(),
            trim(t@) == trim_end(t@.subrange(a as int, b as int)),
        decreases b - a,
    {
        assert(t@.subrange(a as int, b as int).drop_last() =~= t@.subrange(a as int, b - 1));
        b = b - 1;
    }
    let mut out: Vec<u8> = Vec::new();
    let mut i = a;
    while i < b
        invariant
            a <= i <= b <= n == t@.len(),
            out@ == t@.subrange(a as int, i as int),
        decreases b - i,
    {
        out.push(t[i]);
        i = i + 1;
        assert(out@ =~= t@.subrange(a as int, i as int));
    }
    out
}

/// The comma-separated parts of a header value.
pub open spec fn segments(v: Seq<u8>) -> Seq<Seq<u8>>
    decreases v.len(),
{
    if v.len() == 0 {
        seq![Seq::empty()]
    } else {
        let s = segments(v.drop_last());
        if v.last() == 44 {
            s.push(Seq::empty())
        } else {
            s.update(s.len() - 1, s.last().push(v.last()))
        }
    }
}

/// Whether the part `t` of a token list is the token `tok` (lower case),
/// whatever the case and the spaces around it.
pub open spec fn token_is(t: Seq<u8>, tok: Seq<u8>) -> bool {
    lower(trim(t)) == tok
}

/// Whether the token list `v` holds the token `tok` (lower case).
pub open spec fn has_token(v: Seq<u8>, tok: Seq<u8>) -> bool {
    exists|i: int| 0 <= i < segments(v).len() && token_is(#[trigger] segments(v)[i], tok)
}

fn is_token(t: &[u8], tok: &[u8]) -> (r: bool)
    ensures
        r == token_is(t@, tok@),
{
    let tt = trimmed(t);
    let l = to_lower(tt.as_slice());
    bytes_equal(l.as_slice(), tok)
}

/// Whether the comma-separated list `v` holds `tok` (lower case), whatever
/// the case and the spaces around each item.
pub fn contains_token(v: &[u8], tok: &[u8]) -> (r: bool)
    ensures
        r == has_token(v@, tok@),
{
    let mut cur: Vec<u8> = Vec::new();
    let mut found = false;
    let mut i: usize = 0;
    assert(v@.subrange(0, 0) =~= Seq::<u8>::empty());
    while i < v.len()
        invariant
            i <= v@.len(),
            segments(v@.subrange(0, i as int)).len() >= 1,
            cur@ == segments(v@.subrange(0, i as int)).last(),
            found == exists|j: int|
                0 <= j < segments(v@.subrange(0, i as int)).len() - 1 && token_is(
                    #[trigger] segments(v@.subrange(0, i as int))[j],
                    tok@,
                ),
        decreases v@.len() - i,
    {
        let ghost s = segments(v@.subrange(0, i as int));
        let ghost w = v@.subrange(0, i + 1);
        assert(w.drop_last() =~= v@.subrange(0, i as int));
        let b = v[i];
        if b == 44 {
            let m = is_token(cur.as_slice(), tok);
            assert(segments(w) == s.push(Seq::empty()));
            if m {
                assert(token_is(segments(w)[s.len() - 1], tok@));
            }
            proof {
                if found {
                    let j = choose|j: int| 0 <= j < s.len() - 1 && token_is(#[trigger] s[j], tok@);
                    assert(segments(w)[j] == s[j]);
                }
            }
            assert((found || m) ==> exists|j: int|
                0 <= j < segments(w).len() - 1 && token_is(#[trigger] segments(w)[j], tok@));
            assert((exists|j: int|
                0 <= j < segments(w).len() - 1 && token_is(#[trigger] segments(w)[j], tok@))
                ==> (found || m)) by {
                if exists|j: int|
                    0 <= j < segments(w).len() - 1 && token_is(#[trigger] segments(w)[j], tok@) {
                    let j = choose|j: int|
                        0 <= j < segments(w).len() - 1 && token_is(#[trigger] segments(w)[j], tok@);
                    if j < s.len() - 1 {
                        assert(s[j] == segments(w)[j]);
                    }
                }
            }
            found = found || m;
            cur = Vec::new();
        } else {
            assert(segments(w) == s.update(s.len() - 1, s.last().push(b)));
            assert forall|j: int| 0 <= j < s.len() - 1 implies segments(w)[j] == s[j] by {}
            cur.push(b);
        }
        i = i + 1;
    }
    assert(v@.subrange(0, i as int) =~= v@);
    let ghost s = segments(v@);
    let m = is_token(cur.as_slice(), tok);
    if m {
        assert(token_is(s[s.len() - 1], tok@));
    }
    proof {
        if has_token(v@, tok@) {
            let j = choose|j: int| 0 <= j < s.len() && token_is(#[trigger] s[j], tok@);
            if j < s.len() - 1 {
                assert(found);
            }
        }
    }
    found || m
}

} // verus!

verus! {

pub const UPGRADE: &'static str = "upgrade";

pub const CONNECTION: &'static str = "connection";

pub const SEC_WEBSOCKET_KEY: &'static str = "sec-websocket-key";

pub const SEC_WEBSOCKET_VERSION: &'static str = "sec-websocket-version";

pub const WEBSOCKET_TOKEN: &'static str = "websocket";

pub const UPGRADE_TOKEN: &'static str = "upgrade";

pub const SUPPORTED_VERSION: &'static str = "13";

/// The answer to an acceptable request, up to the accept value.
pub const SWITCHING_HEAD: &'static str =
    "HTTP/1.1 101 Switching Protocols\r\nUpgrade: websocket\r\nConnection: Upgrade\r\nSec-WebSocket-Accept: ";

/// What follows the accept value: the end of that header line and of the
/// header block.
pub const SWITCHING_TAIL: &'static str = "\r\n\r\n";

/// The answer to a request that is not an acceptable upgrade.
pub const BAD_REQUEST: &'static str = "HTTP/1.1 400 Bad Request\r\nContent-Length: 0\r\n\r\n";

/// Why a request cannot be upgraded to a WebSocket connection.
#[derive(Clone, Copy, Debug, PartialEq, Eq, Structural)]
pub enum HandshakeError {
    /// `Upgrade: websocket` or `Connection: Upgrade` is missing.
    NotUpgrade,
    /// `Sec-WebSocket-Version` is missing or is not 13.
    UnsupportedVersion,
    /// `Sec-WebSocket-Key` is missing or empty.
    MissingKey,
}

/// The client's key if the request is an acceptable upgrade, else why not.
#[verifier::opaque]
pub open spec fn request_key(es: Seq<(Seq<u8>, Seq<u8>)>) -> Result<Seq<u8>, HandshakeError> {
    let up = lookup(es, lower(UPGRADE.spec_bytes()));
    let conn = lookup(es, lower(CONNECTION.spec_bytes()));
    let version = lookup(es, lower(SEC_WEBSOCKET_VERSION.spec_bytes()));
    let key = lookup(es, lower(SEC_WEBSOCKET_KEY.spec_bytes()));
    if !(up matches Some(u) && has_token(u, WEBSOCKET_TOKEN.spec_bytes())) || !(conn matches Some(
        c,
    ) && has_token(c, UPGRADE_TOKEN.spec_bytes())) {
        Err(HandshakeError::NotUpgrade)
    } else if !(version matches Some(v) && trim(v) == SUPPORTED_VERSION.spec_bytes()) {
        Err(HandshakeError::UnsupportedVersion)
    } else if !(key matches Some(k) && trim(k).len() > 0) {
        Err(HandshakeError::MissingKey)
    } else {
        Ok(trim(key.unwrap()))
    }
}

/// The server's answer to a request with key `key`.
pub open spec fn switching_response(key: Seq<u8>) -> Seq<u8> {
    SWITCHING_HEAD.spec_bytes() + accept_value(key) + SWITCHING_TAIL.spec_bytes()
}

impl HeaderMap {
    /// The client's key if the request is an acceptable upgrade.
    pub fn check(&self) -> (r: Result<Vec<u8>, HandshakeError>)
        requires
            self.wf(),
        ensures
            r matches Ok(k) ==> request_key(self@) == Ok::<Seq<u8>, HandshakeError>(k@),
            r matches Err(e) ==> request_key(self@) == Err::<Seq<u8>, HandshakeError>(e),
    {
        reveal(request_key);
        let up = self.get(UPGRADE.as_bytes());
        let conn = self.get(CONNECTION.as_bytes());
        let upgrade_ok = match up {
            Some(u) => contains_token(u.as_slice(), WEBSOCKET_TOKEN.as_bytes()),
            None => false,
        };
        let conn_ok = match conn {
            Some(c) => contains_token(c.as_slice(), UPGRADE_TOKEN.as_bytes()),
            None => false,
        };
        if !upgrade_ok || !conn_ok {
            return Err(HandshakeError::NotUpgrade);
        }
        let version_ok = match self.get(SEC_WEBSOCKET_VERSION.as_bytes()) {
            Some(v) => {
                let t = trimmed(v.as_slice());
                bytes_equal(t.as_slice(), SUPPORTED_VERSION.as_bytes())
            },
            None => false,
        };
        if !version_ok {
            return Err(HandshakeError::UnsupportedVersion);
        }
        match self.get(SEC_WEBSOCKET_KEY.as_bytes()) {
            Some(k) => {
                let t = trimmed(k.as_slice());
                if t.len() > 0 {
                    Ok(t)
                } else {
                    Err(HandshakeError::MissingKey)
                }
            },
            None => Err(HandshakeError::MissingKey),
        }
    }

    /// The bytes the server answers the request with: `101 Switching
    /// Protocols` with the accept value, or why the request is refused.
    pub fn response(&self) -> (r: Result<Vec<u8>, HandshakeError>)
        requires
            self.wf(),
        ensures
            r matches Ok(b) ==> request_key(self@) matches Ok(k) && b@ == switching_response(k),
            r matches Err(e) ==> request_key(self@) == Err::<Seq<u8>, HandshakeError>(e),
    {
        match self.check() {
            Ok(k) => {
                let accept = gen_key(k.as_slice());
                let mut out: Vec<u8> = Vec::new();
                append(&mut out, SWITCHING_HEAD.as_bytes());
                append(&mut out, accept.as_slice());
                append(&mut out, SWITCHING_TAIL.as_bytes());
                Ok(out)
            },
            Err(e) => Err(e),
        }
    }
}

/// The bytes of the `400 Bad Request` answer.
pub fn bad_request() -> (r: Vec<u8>)
    ensures
        r@ == BAD_REQUEST.spec_bytes(),
{
    let mut out: Vec<u8> = Vec::new();
    append(&mut out, BAD_REQUEST.as_bytes());
    out
}

} // verus!

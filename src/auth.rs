//! Bearer-token checks and HTTP Basic credentials for the upstream.
use vstd::prelude::*;
use base64::Engine;
use vstd::string::StringSliceAdditionalSpecFns;

verus! {

/// The byte `.`, which separates the parts of a bearer token.
pub const DOT: u8 = 0x2e;

/// The byte `=`, which pads base64 text.
pub const PAD: u8 = 0x3d;

/// The byte `:`, which joins a client id to its secret.
pub const COLON: u8 = 0x3a;

/// What the standard base64 alphabet, with padding, decodes `s` to; `None`
/// where `s` is not valid base64.
pub uninterp spec fn base64_decoded(s: Seq<u8>) -> Option<Seq<u8>>;

/// The standard base64 text, with padding, of `b`.
pub uninterp spec fn base64_encoded(b: Seq<u8>) -> Seq<char>;

/// The unsigned integer under the key `key` of the JSON object `json`;
/// `None` where `json` is not JSON, or has no such key, or its value is no
/// `u64`.
pub uninterp spec fn json_u64_field(json: Seq<u8>, key: Seq<char>) -> Option<u64>;

/// Relies on base64's `STANDARD` engine and `Engine::decode`.
#[verifier::external_body]
fn decode_base64(s: &Vec<u8>) -> (r: Option<Vec<u8>>)
    ensures
        r is Some <==> base64_decoded(s@) is Some,
        r matches Some(v) ==> base64_decoded(s@) == Some(v@),
{
    match base64::prelude::BASE64_STANDARD.decode(s) {
        Ok(v) => Some(v),
        Err(_) => None,
    }
}

/// Relies on base64's `STANDARD` engine and `Engine::encode`.
#[verifier::external_body]
fn encode_base64(b: &Vec<u8>) -> (r: String)
    ensures
        r@ == base64_encoded(b@),
{
    base64::prelude::BASE64_STANDARD.encode(b)
}

/// Relies on serde_json's `from_slice` into a `Value`, read through
/// `Value::get(key)` and `Value::as_u64`.
#[verifier::external_body]
fn read_u64_field(json: &Vec<u8>, key: &str) -> (r: Option<u64>)
    ensures
        r == json_u64_field(json@, key@),
{
    match serde_json::from_slice::<serde_json::Value>(json) {
        Ok(v) => match v.get(key) {
            Some(x) => x.as_u64(),
            None => None,
        },
        Err(_) => None,
    }
}

/// Positions of the dots in `b`, in order.
pub open spec fn dots(b: Seq<u8>) -> Seq<int>
    decreases b.len(),
{
    if b.len() == 0 {
        Seq::empty()
    } else if b.last() == DOT {
        dots(b.drop_last()).push(b.len() - 1)
    } else {
        dots(b.drop_last())
    }
}

/// The middle part of a token made of exactly three dot-separated parts.
pub open spec fn payload_segment(b: Seq<u8>) -> Option<Seq<u8>> {
    let d = dots(b);
    if d.len() == 2 {
        Some(b.subrange(d[0] + 1, d[1]))
    } else {
        None
    }
}

/// `s` padded with `=` to a multiple of four bytes.
pub open spec fn padded(s: Seq<u8>) -> Seq<u8> {
    let extra: int = if s.len() % 4 == 0 {
        0
    } else {
        4 - s.len() % 4
    };
    s + Seq::new(extra as nat, |i: int| PAD)
}

/// The expiry claim that a token carries, read from its base64 payload.
pub open spec fn token_exp(token: Seq<u8>) -> Option<u64> {
    match payload_segment(token) {
        Some(p) => match base64_decoded(padded(p)) {
            Some(json) => json_u64_field(json, "exp"@),
            None => None,
        },
        None => None,
    }
}

proof fn lemma_dots_bounds(b: Seq<u8>)
    ensures
        forall|i: int| 0 <= i < dots(b).len() ==> 0 <= #[trigger] dots(b)[i] < b.len(),
        forall|i: int, j: int| 0 <= i < j < dots(b).len() ==> dots(b)[i] < dots(b)[j],
    decreases b.len(),
{
    if b.len() > 0 {
        let p = b.drop_last();
        lemma_dots_bounds(p);
        if b.last() == DOT {
            assert forall|i: int| 0 <= i < dots(b).len() implies 0 <= #[trigger] dots(b)[i] < b.len() by {
                if i < dots(p).len() {
                    assert(dots(b)[i] == dots(p)[i]);
                }
            }
            assert forall|i: int, j: int| 0 <= i < j < dots(b).len() implies dots(b)[i] < dots(b)[j] by {
                assert(dots(b)[i] == dots(p)[i]);
                if j < dots(p).len() {
                    assert(dots(b)[j] == dots(p)[j]);
                }
            }
        }
    }
}

/// The bytes of `s`.
fn bytes_of(s: &str) -> (r: Vec<u8>)
    ensures
        r@ == s.spec_bytes(),
{
    let b = s.as_bytes();
    let mut r: Vec<u8> = Vec::new();
    for i in 0..b.len()
        invariant
            b@ == s.spec_bytes(),
            r@ == b@.take(i as int),
    {
        r.push(b[i]);
        assert(r@ =~= b@.take(i + 1 as int));
    }
    assert(r@ =~= b@);
    r
}

/// The payload part of a three-part, dot-separated token.
pub fn token_payload(b: &Vec<u8>) -> (r: Option<Vec<u8>>)
    ensures
        r is Some <==> payload_segment(b@) is Some,
        r matches Some(p) ==> payload_segment(b@) == Some(p@),
{
    let mut pos: Vec<usize> = Vec::new();
    assert(b@.take(0) =~= Seq::<u8>::empty());
    for i in 0..b.len()
        invariant
            pos@.len() == dots(b@.take(i as int)).len(),
            forall|j: int| 0 <= j < pos@.len() ==> pos@[j] as int == dots(b@.take(i as int))[j],
    {
        assert(b@.take(i + 1 as int).drop_last() =~= b@.take(i as int));
        if b[i] == DOT {
            pos.push(i);
        }
    }
    assert(b@.take(b@.len() as int) =~= b@);
    if pos.len() != 2 {
        return None;
    }
    proof {
        lemma_dots_bounds(b@);
    }
    let start = pos[0] + 1;
    let end = pos[1];
    let mut p: Vec<u8> = Vec::new();
    for k in start..end
        invariant
            start <= end <= b@.len(),
            p@ == b@.subrange(start as int, k as int),
    {
        p.push(b[k]);
        assert(p@ =~= b@.subrange(start as int, k + 1 as int));
    }
    Some(p)
}

/// `s` padded with `=` to a multiple of four bytes.
pub fn pad_base64(s: &Vec<u8>) -> (r: Vec<u8>)
    ensures
        r@ == padded(s@),
{
    let mut r: Vec<u8> = Vec::new();
    for i in 0..s.len()
        invariant
            r@ == s@.take(i as int),
    {
        r.push(s[i]);
        assert(r@ =~= s@.take(i + 1 as int));
    }
    assert(r@ =~= s@);
    let extra: usize = if s.len() % 4 == 0 { 0 } else { 4 - s.len() % 4 };
    for j in 0..extra
        invariant
            r@ == s@ + Seq::new(j as nat, |i: int| PAD),
    {
        r.push(PAD);
        assert(r@ =~= s@ + Seq::new((j + 1) as nat, |i: int| PAD));
    }
    r
}

/// Whether a token whose expiry claim is `exp` is still valid at `now_secs`
/// (seconds since the Unix epoch): only a claim strictly in the future is.
pub fn token_fresh(exp: Option<u64>, now_secs: u64) -> (r: bool)
    ensures
        r == (exp matches Some(e) && now_secs < e),
{
    match exp {
        Some(e) => now_secs < e,
        None => false,
    }
}

/// Whether `token` (a bearer token of three dot-separated parts, whose
/// middle part is base64 JSON) carries an `exp` claim later than
/// `now_secs`; no token is never valid.
pub fn auth_token_valid(token: Option<&str>, now_secs: u64) -> (r: bool)
    ensures
        token is None ==> !r,
        token matches Some(t) ==> r == (token_exp(t.spec_bytes()) matches Some(e) && now_secs < e),
{
    match token {
        None => false,
        Some(t) => {
            let b = bytes_of(t);
            let p = match token_payload(&b) {
                Some(p) => p,
                None => return false,
            };
            let json = match decode_base64(&pad_base64(&p)) {
                Some(j) => j,
                None => return false,
            };
            token_fresh(read_u64_field(&json, "exp"), now_secs)
        },
    }
}

/// The HTTP Basic credential for a client: base64 of `id:secret`.
pub fn basic_credentials(client_id: &str, client_secret: &str) -> (r: String)
    ensures
        r@ == base64_encoded(client_id.spec_bytes() + seq![COLON] + client_secret.spec_bytes()),
{
    let mut b = bytes_of(client_id);
    b.push(COLON);
    let s = bytes_of(client_secret);
    let ghost head = b@;
    assert(head =~= client_id.spec_bytes() + seq![COLON]);
    for i in 0..s.len()
        invariant
            b@ == head + s@.take(i as int),
    {
        b.push(s[i]);
        assert(b@ =~= head + s@.take(i + 1 as int));
    }
    assert(s@.take(s@.len() as int) =~= s@);
    assert(b@ =~= client_id.spec_bytes() + seq![COLON] + client_secret.spec_bytes());
    encode_base64(&b)
}

} // verus!

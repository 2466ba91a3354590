use vstd::prelude::*;
use vstd::utf8::encode_utf8;
use crate::codec::{Body, Header};
use crate::error::Error;

verus! {

/// The contract a registered service satisfies: given a method name and
/// the JSON text of the positional argument array, it returns the JSON
/// text of the result, or the error to put on the reply header —
/// `NoSuchMethodError` for an unknown method, `ArgumentsNotMatchError`
/// when the arguments do not decode.  How a service comes to satisfy
/// this (code generation, a hand-written switch) is its own affair.
pub trait RemoteCall: Send {
    fn call(&self, method: &str, args: String) -> Result<String, Error>;
}

/// The server's registry: a flat map from service name to adapter,
/// populated during configuration and then only read.  The adapter type
/// is anything satisfying `RemoteCall`; a runtime that mixes services of
/// different shapes instantiates it with a boxed adapter.  The
/// connection runtime (accept loop, worker pool, serve loop) drives
/// `dispatch` for each decoded call frame.
pub struct Server<S: RemoteCall> {
    services: Vec<(String, S)>,
}

impl<S: RemoteCall> Server<S> {
    /// The registered names, in registration order.
    pub closed spec fn service_names(&self) -> Seq<Seq<char>> {
        Seq::new(self.services@.len(), |i: int| self.services@[i].0@)
    }

    /// True when a service of this name is registered.
    pub open spec fn has_service(&self, name: Seq<char>) -> bool {
        exists|i: int| 0 <= i < self.service_names().len() && self.service_names()[i] == name
    }

    pub fn new() -> (r: Self)
        ensures
            r.service_names() =~= Seq::<Seq<char>>::empty(),
    {
        Server { services: Vec::new() }
    }

    /// How many registrations the registry holds.
    pub fn service_count(&self) -> (r: usize)
        ensures
            r == self.service_names().len(),
    {
        self.services.len()
    }

    /// Registers an adapter under a name.  A later registration under
    /// the same name shadows the earlier one, as inserting into a map
    /// would.
    pub fn register(&mut self, name: String, service: S)
        ensures
            final(self).service_names() =~= old(self).service_names().push(name@),
    {
        let ghost pre = *self;
        let ghost nv = name@;
        self.services.push((name, service));
        proof {
            assert(self.services@.len() == pre.services@.len() + 1);
            assert forall|i: int| 0 <= i < self.service_names().len() implies self.service_names()[i]
                == pre.service_names().push(nv)[i] by {
                if i < pre.services@.len() {
                    assert(self.services@[i] == pre.services@[i]);
                } else {
                    assert(self.services@[i].0@ == nv);
                }
            }
            assert(self.service_names() =~= pre.service_names().push(nv));
        }
    }

    /// Serves one decoded call: looks the service up by name — the
    /// latest registration wins — invokes the adapter, and builds the
    /// reply frame's header and body.  The reply echoes the request's
    /// service, method and sequence number; its error field is empty on
    /// success and names the failure otherwise.  A name that matches no
    /// registered service is answered with an unclassified error rather
    /// than dropped.  What the adapter returns is its own affair: the
    /// reply is exactly `build_reply` of the request header and the
    /// adapter's outcome, whatever that outcome was.
    pub fn dispatch(&self, header: Header, body: Body) -> (r: (Header, Body))
        ensures
            r.0.service@ == header.service@,
            r.0.method@ == header.method@,
            r.0.seq == header.seq,
            !self.has_service(header.service@) ==> (r.0.error matches Some(e)
                && e matches Error::OtherError(_)),
            r.0.error matches Some(_) ==> r.1.contents@ == "null"@,
    {
        let mut i: usize = self.services.len();
        while i > 0
            invariant
                i <= self.services@.len(),
            decreases i,
        {
            i = i - 1;
            if self.services[i].0 == header.service {
                proof {
                    assert(self.service_names()[i as int] == header.service@);
                    assert(self.has_service(header.service@));
                }
                let outcome = self.services[i].1.call(header.method.as_str(), body.contents);
                return build_reply(header, outcome);
            }
        }
        build_reply(
            header,
            Err(Error::OtherError("no service is registered under this name".to_owned())),
        )
    }
}

/// Builds the reply for one call from the request header and the
/// adapter's outcome: the reply header echoes service, method and
/// sequence number; on success its error field is empty and the body
/// carries the returned JSON text, on failure the error field names the
/// failure and the body carries a placeholder the client ignores.
pub fn build_reply(header: Header, outcome: Result<String, Error>) -> (r: (Header, Body))
    ensures
        r.0.service == header.service,
        r.0.method == header.method,
        r.0.seq == header.seq,
        outcome matches Ok(v) ==> r.0.error is None && r.1.contents == v,
        outcome matches Err(e) ==> r.0.error == Some(e) && r.1.contents@ == "null"@,
{
    match outcome {
        Ok(v) => (Header::new(header.service, header.method, header.seq, None), Body::new(v)),
        Err(e) => (
            Header::new(header.service, header.method, header.seq, Some(e)),
            Body::new("null".to_owned()),
        ),
    }
}

/// The protocol a listener address selects: `tcp` runs the RPC dispatch
/// loop, `http` the debug page handler; an unknown protocol falls back
/// to `tcp`.
pub enum Protocol {
    Tcp,
    Http,
}

/// True when the two byte strings are equal.
fn bytes_eq(a: &[u8], b: &[u8]) -> (r: bool)
    ensures
        r == (a@ == b@),
{
    if a.len() != b.len() {
        return false;
    }
    let mut i: usize = 0;
    while i < a.len()
        invariant
            i <= a@.len(),
            a@.len() == b@.len(),
            forall|j: int| 0 <= j < i ==> a@[j] == b@[j],
        decreases a@.len() - i,
    {
        if *vstd::slice::slice_index_get(a, i) != *vstd::slice::slice_index_get(b, i) {
            proof {
                assert(a@[i as int] != b@[i as int]);
            }
            return false;
        }
        i = i + 1;
    }
    proof {
        assert(a@ =~= b@);
    }
    true
}

/// The split an address's bytes admit: the first `@` stands at `i`, and
/// the host segment runs from there to the next `@` at `k`, or the end.
pub open spec fn address_split(bs: Seq<u8>, i: int, k: int) -> bool {
    &&& 0 <= i < bs.len() && bs[i] == 64
    &&& forall|j: int| 0 <= j < i ==> bs[j] != 64
    &&& i < k <= bs.len() && (k == bs.len() || bs[k] == 64)
    &&& forall|j: int| i < j < k ==> bs[j] != 64
}

/// Relies on String::from_utf8_lossy: total, and the identity on valid
/// UTF-8 input.
#[verifier::external_body]
fn host_from_bytes(v: Vec<u8>) -> (r: String)
    ensures
        vstd::utf8::valid_utf8(v@) ==> encode_utf8(r@) == v@,
{
    String::from_utf8_lossy(&v).into_owned()
}

/// Splits a listener address of the form `protocol@host:port`.  The
/// protocol is everything before the first `@`; the host part runs from
/// there to the next `@` or the end.  An address splits exactly when it
/// contains an `@`; the host text matches its byte segment, which for
/// an address handed over as a string is always valid UTF-8.
pub fn parse_address(addr: &str) -> (r: Option<(Protocol, String)>)
    ensures
        encode_utf8(addr@).contains(64u8) <==> r is Some,
        r matches Some(pair) ==> exists|i: int, k: int|
            #![trigger address_split(encode_utf8(addr@), i, k)]
            {
                let bs = encode_utf8(addr@);
                &&& address_split(bs, i, k)
                &&& (pair.0 is Http <==> bs.subrange(0, i) == encode_utf8("http"@))
                &&& (vstd::utf8::valid_utf8(bs.subrange(i + 1, k)) ==> encode_utf8(pair.1@)
                    == bs.subrange(i + 1, k))
            },
{
    let bs = addr.as_bytes();
    let n = bs.len();
    let mut i: usize = 0;
    while i < n
        invariant
            i <= n,
            n == bs@.len(),
            bs@ == encode_utf8(addr@),
            forall|j: int| 0 <= j < i ==> bs@[j] != 64,
        decreases n - i,
    {
        if *vstd::slice::slice_index_get(bs, i) == 64 {
            let mut k: usize = i + 1;
            while k < n && *vstd::slice::slice_index_get(bs, k) != 64
                invariant
                    i < k <= n,
                    n == bs@.len(),
                    forall|j: int| i < j < k ==> bs@[j] != 64,
                decreases n - k,
            {
                k = k + 1;
            }
            let is_http = bytes_eq(
                vstd::slice::slice_subrange(bs, 0, i),
                "http".as_bytes(),
            );
            let proto = if is_http {
                Protocol::Http
            } else {
                Protocol::Tcp
            };
            let host_bytes = vstd::slice::slice_to_vec(vstd::slice::slice_subrange(bs, i + 1, k));
            let host = host_from_bytes(host_bytes);
            proof {
                assert(address_split(bs@, i as int, k as int));
                assert(bs@.contains(64u8)) by {
                    assert(bs@[i as int] == 64);
                }
            }
            return Some((proto, host));
        }
        i = i + 1;
    }
    proof {
        assert(!encode_utf8(addr@).contains(64u8));
    }
    None
}

/// Where a request line's first space-delimited token ends: the first
/// space, or the end of the line.
pub open spec fn token_end(bs: Seq<u8>, t: int) -> bool {
    &&& 0 <= t <= bs.len() && (t == bs.len() || bs[t] == 32)
    &&& forall|j: int| 0 <= j < t ==> bs[j] != 32
}

/// The debug handler's decision for one request line: answer with the
/// static page exactly when the line's first space-delimited token is
/// `GET`; everything else is accepted and ignored.
pub fn is_get_request(line: &str) -> (r: bool)
    ensures
        r <==> exists|t: int|
            #![trigger token_end(encode_utf8(line@), t)]
            {
                let bs = encode_utf8(line@);
                &&& token_end(bs, t)
                &&& bs.subrange(0, t) == encode_utf8("GET"@)
            },
{
    let bs = line.as_bytes();
    let n = bs.len();
    let mut t: usize = 0;
    while t < n && *vstd::slice::slice_index_get(bs, t) != 32
        invariant
            t <= n,
            n == bs@.len(),
            bs@ == encode_utf8(line@),
            forall|j: int| 0 <= j < t ==> bs@[j] != 32,
        decreases n - t,
    {
        t = t + 1;
    }
    let r = bytes_eq(vstd::slice::slice_subrange(bs, 0, t), "GET".as_bytes());
    proof {
        if r {
            assert(token_end(bs@, t as int));
            assert(bs@.subrange(0, t as int) == encode_utf8("GET"@));
        } else {
            assert forall|t2: int| token_end(bs@, t2) implies t2 == t as int by {
                if t2 < t as int {
                    assert(bs@[t2] != 32);
                } else if t2 > t as int {
                    assert(t as int != bs@.len());
                    assert(bs@[t as int] != 32);
                }
            }
        }
    }
    r
}

} // verus!

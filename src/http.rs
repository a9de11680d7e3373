use vstd::prelude::*;
use crate::path::{split_at_char, split_on};
use vstd::utf8::encode_utf8;

verus! {

/// Why an inbound request could not be read.
#[derive(PartialEq, Eq, Structural, Clone, Copy, Debug)]
pub enum ParseError {
    /// The request line is not three non-empty words split by single spaces.
    Malformed,
}

/// Whether `line` is a request line: method, route and protocol version,
/// each non-empty, separated by single spaces.
pub open spec fn is_request_line(line: Seq<char>) -> bool {
    let w = split_on(line, ' ');
    &&& w.len() == 3
    &&& w[0].len() > 0
    &&& w[1].len() > 0
    &&& w[2].len() > 0
}

/// An inbound request: its method, its full route, and the parameters that
/// the matched pattern bound, once a route has matched.
pub struct Request {
    pub method: String,
    pub route: String,
    pub params: Option<Vec<(String, String)>>,
    pub body: Vec<u8>,
}

impl Request {
    /// A request with no parameters bound yet.
    pub fn new(method: String, route: String, body: Vec<u8>) -> (r: Request)
        ensures
            r.method == method,
            r.route == route,
            r.params is None,
            r.body == body,
    {
        Request { method, route, params: None, body }
    }

    /// Reads a request from its request line (without its line ending),
    /// such as `GET /users/42 HTTP/1.1`, and its body.
    pub fn from_line(line: &str, body: Vec<u8>) -> (r: Result<Request, ParseError>)
        ensures
            r is Ok <==> is_request_line(line@),
            r matches Ok(q) ==> {
                &&& q.method@ == split_on(line@, ' ')[0]
                &&& q.route@ == split_on(line@, ' ')[1]
                &&& q.params is None
                &&& q.body == body
            },
    {
        let mut words = split_at_char(line, ' ');
        if words.len() != 3 {
            return Err(ParseError::Malformed);
        }
        if words[0].as_str().is_empty() || words[1].as_str().is_empty() || words[2].as_str().is_empty() {
            return Err(ParseError::Malformed);
        }
        let ghost w = words@;
        let _version = words.pop();
        let route = words.pop();
        let method = words.pop();
        match (method, route) {
            (Some(method), Some(route)) => {
                assert(method == w[0] && route == w[1]);
                Ok(Request { method, route, params: None, body })
            },
            _ => Err(ParseError::Malformed),
        }
    }
}

/// The decimal digits of `n`, as ASCII bytes.
pub open spec fn decimal(n: nat) -> Seq<u8>
    decreases n,
{
    if n < 10 {
        seq![(48 + n) as u8]
    } else {
        decimal(n / 10).push((48 + n % 10) as u8)
    }
}

/// The bytes of the header lines `name: value`, each ended by CR LF.
pub open spec fn header_lines(h: Seq<(String, String)>) -> Seq<u8>
    decreases h.len(),
{
    if h.len() == 0 {
        Seq::empty()
    } else {
        let (name, value) = h.last();
        header_lines(h.drop_last()) + encode_utf8(name@) + seq![58u8, 32u8]
            + encode_utf8(value@) + seq![13u8, 10u8]
    }
}

/// A response as it goes on the wire: the status line `HTTP/1.1 <status> `,
/// the header lines, an empty line, and the body.
pub open spec fn wire(r: Response) -> Seq<u8> {
    seq![72u8, 84u8, 84u8, 80u8, 47u8, 49u8, 46u8, 49u8, 32u8] + decimal(r.status as nat) + seq![
        32u8,
        13u8,
        10u8,
    ] + header_lines(r.headers@) + seq![13u8, 10u8] + r.body@
}

/// Appends `bytes` to `out`.
fn append(out: &mut Vec<u8>, bytes: &[u8])
    ensures
        final(out)@ == old(out)@ + bytes@,
{
    let mut i: usize = 0;
    while i < bytes.len()
        invariant
            i <= bytes@.len(),
            out@ == old(out)@ + bytes@.subrange(0, i as int),
        decreases bytes@.len() - i,
    {
        out.push(bytes[i]);
        i = i + 1;
        assert(bytes@.subrange(0, i as int) =~= bytes@.subrange(0, i - 1).push(bytes@[i - 1]));
    }
    assert(bytes@.subrange(0, bytes@.len() as int) =~= bytes@);
}

/// Appends the decimal digits of `n` to `out`.
fn append_decimal(out: &mut Vec<u8>, n: u16)
    ensures
        final(out)@ == old(out)@ + decimal(n as nat),
    decreases n,
{
    if n >= 10 {
        append_decimal(out, n / 10);
    }
    let d: u8 = (n % 10) as u8;
    out.push(48 + d);
    proof {
        if n >= 10 {
            assert(old(out)@ + decimal(n as nat) =~= old(out)@ + decimal((n / 10) as nat) + seq![
                (48 + n % 10) as u8,
            ]);
        }
    }
}

/// The response that the handlers of one chain build in turn.
pub struct Response {
    pub status: u16,
    pub headers: Vec<(String, String)>,
    pub body: Vec<u8>,
}

impl Response {
    /// An empty response with status 200.
    pub fn new() -> (r: Response)
        ensures
            r.status == 200,
            r.headers@.len() == 0,
            r.body@.len() == 0,
    {
        Response { status: 200, headers: Vec::new(), body: Vec::new() }
    }

    /// Sets the status code.
    pub fn set_status(&mut self, code: u16)
        ensures
            final(self).status == code,
            final(self).headers == old(self).headers,
            final(self).body == old(self).body,
    {
        self.status = code;
    }

    /// Adds a header after those already set.
    pub fn header(&mut self, name: String, value: String)
        ensures
            final(self).status == old(self).status,
            final(self).headers@ == old(self).headers@.push((name, value)),
            final(self).body == old(self).body,
    {
        self.headers.push((name, value));
    }

    /// Appends bytes to the body.
    pub fn write(&mut self, bytes: &[u8])
        ensures
            final(self).status == old(self).status,
            final(self).headers == old(self).headers,
            final(self).body@ == old(self).body@ + bytes@,
    {
        let mut i: usize = 0;
        let ghost start = self.body@;
        while i < bytes.len()
            invariant
                i <= bytes@.len(),
                self.status == old(self).status,
                self.headers == old(self).headers,
                self.body@ == start + bytes@.subrange(0, i as int),
                start == old(self).body@,
            decreases bytes@.len() - i,
        {
            self.body.push(bytes[i]);
            i = i + 1;
            assert(bytes@.subrange(0, i as int) =~= bytes@.subrange(0, i - 1).push(bytes@[i - 1]));
        }
        assert(bytes@.subrange(0, bytes@.len() as int) =~= bytes@);
    }

    /// The response as it goes on the wire.
    pub fn to_bytes(&self) -> (r: Vec<u8>)
        ensures
            r@ == wire(*self),
    {
        let mut out: Vec<u8> = Vec::new();
        let start = vec![72u8, 84u8, 84u8, 80u8, 47u8, 49u8, 46u8, 49u8, 32u8];
        append(&mut out, start.as_slice());
        append_decimal(&mut out, self.status);
        let end = vec![32u8, 13u8, 10u8];
        append(&mut out, end.as_slice());
        let ghost head = out@;
        let mut i: usize = 0;
        while i < self.headers.len()
            invariant
                i <= self.headers@.len(),
                out@ == head + header_lines(self.headers@.subrange(0, i as int)),
            decreases self.headers@.len() - i,
        {
            let (name, value) = &self.headers[i];
            append(&mut out, name.as_str().as_bytes());
            let colon = vec![58u8, 32u8];
            append(&mut out, colon.as_slice());
            append(&mut out, value.as_str().as_bytes());
            let crlf = vec![13u8, 10u8];
            append(&mut out, crlf.as_slice());
            proof {
                let h = self.headers@.subrange(0, i + 1);
                assert(h.drop_last() =~= self.headers@.subrange(0, i as int));
                assert(h.last() == self.headers@[i as int]);
            }
            i = i + 1;
        }
        assert(self.headers@.subrange(0, self.headers@.len() as int) =~= self.headers@);
        let crlf = vec![13u8, 10u8];
        append(&mut out, crlf.as_slice());
        append(&mut out, self.body.as_slice());
        out
    }
}

} // verus!

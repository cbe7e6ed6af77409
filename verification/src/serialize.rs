//! The request serializer: renders a request into its exact wire bytes.
use vstd::prelude::*;
use crate::msg::{Error, ErrorKind, Request, RequestModel};
use crate::text::{dec_digits, dec_of_u64};

verus! {

/// The two-byte line terminator.
pub open spec fn crlf() -> Seq<u8> {
    seq![13u8, 10u8]
}

/// A single space.
pub open spec fn sp() -> Seq<u8> {
    seq![32u8]
}

/// The bytes of `HTTP/1.1`.
pub open spec fn http11_token() -> Seq<u8> {
    seq![72u8, 84u8, 84u8, 80u8, 47u8, 49u8, 46u8, 49u8]
}

/// The bytes of `Host: `.
pub open spec fn host_prefix() -> Seq<u8> {
    seq![72u8, 111u8, 115u8, 116u8, 58u8, 32u8]
}

/// The bytes of `Content-Length: `.
pub open spec fn cl_prefix() -> Seq<u8> {
    seq![67u8, 111u8, 110u8, 116u8, 101u8, 110u8, 116u8, 45u8, 76u8, 101u8, 110u8, 103u8, 116u8, 104u8, 58u8, 32u8]
}

/// The header name/value separator `": "`.
pub open spec fn colon_sp() -> Seq<u8> {
    seq![58u8, 32u8]
}

/// One rendered header line, terminator included.
pub open spec fn spec_header_line(name: Seq<u8>, value: Seq<u8>) -> Seq<u8> {
    name + colon_sp() + value + crlf()
}

/// All caller-supplied header lines, rendered in order.
pub open spec fn spec_header_lines(hs: Seq<(Seq<u8>, Seq<u8>)>) -> Seq<u8>
    decreases hs.len(),
{
    if hs.len() == 0 {
        Seq::empty()
    } else {
        spec_header_lines(hs.drop_last()) + spec_header_line(hs.last().0, hs.last().1)
    }
}

/// The request line and the `Host` line.
pub open spec fn spec_request_preamble(req: RequestModel, host: Seq<u8>) -> Seq<u8> {
    req.method + sp() + req.target + sp() + http11_token() + crlf() + host_prefix() + host + crlf()
}

/// The synthesized `Content-Length` line: present exactly when the body is
/// non-empty.
pub open spec fn spec_content_length_line(body_len: nat) -> Seq<u8> {
    if body_len > 0 {
        cl_prefix() + dec_digits(body_len) + crlf()
    } else {
        Seq::empty()
    }
}

/// The exact wire bytes of a request sent to authority `host`.
pub open spec fn spec_request_bytes(req: RequestModel, host: Seq<u8>) -> Seq<u8> {
    spec_request_preamble(req, host) + spec_header_lines(req.headers) + spec_content_length_line(
        req.body.len(),
    ) + crlf() + req.body
}

/// A header value may travel on the wire: it holds no raw CR or LF.
pub open spec fn value_wire_safe(v: Seq<u8>) -> bool {
    forall|i: int| 0 <= i < v.len() ==> #[trigger] v[i] != 13 && v[i] != 10
}

/// Every header value of `hs` is wire-safe.
pub open spec fn headers_wire_safe(hs: Seq<(Seq<u8>, Seq<u8>)>) -> bool {
    forall|i: int| 0 <= i < hs.len() ==> value_wire_safe(#[trigger] hs[i].1)
}

/// `v` holds no raw CR or LF.
pub fn bytes_wire_safe(v: &[u8]) -> (r: bool)
    ensures
        r == value_wire_safe(v@),
{
    let mut i: usize = 0;
    while i < v.len()
        invariant
            0 <= i <= v@.len(),
            forall|j: int| 0 <= j < i ==> #[trigger] v@[j] != 13 && v@[j] != 10,
        decreases v@.len() - i,
    {
        let b = v[i];
        if b == 13 || b == 10 {
            return false;
        }
        i += 1;
    }
    true
}

fn push_crlf(out: &mut Vec<u8>)
    ensures
        final(out)@ == old(out)@ + crlf(),
{
    out.push(13);
    out.push(10);
    proof {
        assert(out@ =~= old(out)@ + crlf());
    }
}

fn push_sp(out: &mut Vec<u8>)
    ensures
        final(out)@ == old(out)@ + sp(),
{
    out.push(32);
    proof {
        assert(out@ =~= old(out)@ + sp());
    }
}

fn push_colon_sp(out: &mut Vec<u8>)
    ensures
        final(out)@ == old(out)@ + colon_sp(),
{
    out.push(58);
    out.push(32);
    proof {
        assert(out@ =~= old(out)@ + colon_sp());
    }
}

fn push_http11(out: &mut Vec<u8>)
    ensures
        final(out)@ == old(out)@ + http11_token(),
{
    out.push(72);
    out.push(84);
    out.push(84);
    out.push(80);
    out.push(47);
    out.push(49);
    out.push(46);
    out.push(49);
    proof {
        assert(out@ =~= old(out)@ + http11_token());
    }
}

fn push_host_prefix(out: &mut Vec<u8>)
    ensures
        final(out)@ == old(out)@ + host_prefix(),
{
    out.push(72);
    out.push(111);
    out.push(115);
    out.push(116);
    out.push(58);
    out.push(32);
    proof {
        assert(out@ =~= old(out)@ + host_prefix());
    }
}

fn push_cl_prefix(out: &mut Vec<u8>)
    ensures
        final(out)@ == old(out)@ + cl_prefix(),
{
    out.push(67);
    out.push(111);
    out.push(110);
    out.push(116);
    out.push(101);
    out.push(110);
    out.push(116);
    out.push(45);
    out.push(76);
    out.push(101);
    out.push(110);
    out.push(103);
    out.push(116);
    out.push(104);
    out.push(58);
    out.push(32);
    proof {
        assert(out@ =~= old(out)@ + cl_prefix());
    }
}

proof fn lemma_header_lines_snoc(hs: Seq<(Seq<u8>, Seq<u8>)>, i: int)
    requires
        0 <= i < hs.len(),
    ensures
        spec_header_lines(hs.take(i + 1)) == spec_header_lines(hs.take(i)) + spec_header_line(
            hs[i].0,
            hs[i].1,
        ),
{
    assert(hs.take(i + 1).drop_last() =~= hs.take(i));
    assert(hs.take(i + 1).last() == hs[i]);
}

/// Renders `req` for authority `host` into the exact wire byte sequence:
/// request line, `Host` line, the caller's headers in order (duplicates
/// preserved), a `Content-Length` line exactly when the body is non-empty,
/// a blank line, then the raw body.
///
/// A header value holding a raw CR or LF is rejected with an encoding
/// error before any byte is produced; nothing else is rejected.
pub fn serialize_request(req: &Request, host: &[u8]) -> (r: Result<Vec<u8>, Error>)
    ensures
        match r {
            Ok(v) => headers_wire_safe(req@.headers) && v@ == spec_request_bytes(req@, host@),
            Err(e) => !headers_wire_safe(req@.headers) && e.kind == ErrorKind::Encoding,
        },
{
    let mut i: usize = 0;
    while i < req.headers.len()
        invariant
            0 <= i <= req.headers@.len(),
            forall|j: int| 0 <= j < i ==> value_wire_safe(#[trigger] req@.headers[j].1),
        decreases req.headers@.len() - i,
    {
        let pair = &req.headers[i];
        if !bytes_wire_safe(pair.1.as_slice()) {
            proof {
                assert(req@.headers[i as int].1 == req.headers@[i as int].1@);
            }
            return Err(Error { kind: ErrorKind::Encoding });
        }
        i += 1;
    }
    assert(headers_wire_safe(req@.headers));

    let mut out: Vec<u8> = Vec::new();
    out.extend_from_slice(req.method.as_slice());
    push_sp(&mut out);
    out.extend_from_slice(req.target.as_slice());
    push_sp(&mut out);
    push_http11(&mut out);
    push_crlf(&mut out);
    push_host_prefix(&mut out);
    out.extend_from_slice(host);
    push_crlf(&mut out);
    proof {
        assert(out@ =~= spec_request_preamble(req@, host@));
    }

    let ghost preamble = out@;
    let mut i: usize = 0;
    while i < req.headers.len()
        invariant
            0 <= i <= req.headers@.len(),
            out@ == preamble + spec_header_lines(req@.headers.take(i as int)),
        decreases req.headers@.len() - i,
    {
        let pair = &req.headers[i];
        out.extend_from_slice(pair.0.as_slice());
        push_colon_sp(&mut out);
        out.extend_from_slice(pair.1.as_slice());
        push_crlf(&mut out);
        proof {
            lemma_header_lines_snoc(req@.headers, i as int);
            assert(req@.headers[i as int] == (req.headers@[i as int].0@, req.headers@[
                i as int].1@));
            assert(out@ =~= preamble + spec_header_lines(req@.headers.take(i + 1)));
        }
        i += 1;
    }
    proof {
        assert(req@.headers.take(req.headers@.len() as int) =~= req@.headers);
    }

    if req.body.len() > 0 {
        push_cl_prefix(&mut out);
        let mut digits = dec_of_u64(req.body.len() as u64);
        out.append(&mut digits);
        push_crlf(&mut out);
    }
    push_crlf(&mut out);
    out.extend_from_slice(req.body.as_slice());
    proof {
        assert(out@ =~= spec_request_bytes(req@, host@));
    }
    Ok(out)
}

/// Law: a request with an empty body serializes to the request line, the
/// `Host` line and exactly the caller's header lines followed by the blank
/// terminator — no `Content-Length` line is synthesized.
pub proof fn lemma_empty_body_no_content_length(req: RequestModel, host: Seq<u8>)
    requires
        req.body.len() == 0,
    ensures
        spec_request_bytes(req, host) == spec_request_preamble(req, host) + spec_header_lines(
            req.headers,
        ) + crlf(),
{
    assert(spec_content_length_line(req.body.len()) == Seq::<u8>::empty());
    assert(spec_request_bytes(req, host) =~= spec_request_preamble(req, host)
        + spec_header_lines(req.headers) + crlf());
}

/// Law: a request with a non-empty body serializes with a synthesized
/// `Content-Length` line carrying the body's decimal length, and the wire
/// bytes end with exactly the body.
pub proof fn lemma_nonempty_body_content_length(req: RequestModel, host: Seq<u8>)
    requires
        req.body.len() > 0,
    ensures
        spec_request_bytes(req, host) == spec_request_preamble(req, host) + spec_header_lines(
            req.headers,
        ) + cl_prefix() + dec_digits(req.body.len()) + crlf() + crlf() + req.body,
        spec_request_bytes(req, host).subrange(
            spec_request_bytes(req, host).len() - req.body.len(),
            spec_request_bytes(req, host).len() as int,
        ) == req.body,
{
    assert(spec_request_bytes(req, host) =~= spec_request_preamble(req, host)
        + spec_header_lines(req.headers) + cl_prefix() + dec_digits(req.body.len()) + crlf()
        + crlf() + req.body);
    assert(spec_request_bytes(req, host).subrange(
        spec_request_bytes(req, host).len() - req.body.len(),
        spec_request_bytes(req, host).len() as int,
    ) =~= req.body);
}

} // verus!

verus! {

/// The content of the request line, terminator excluded.
pub open spec fn spec_request_line(req: RequestModel, host: Seq<u8>) -> Seq<u8> {
    req.method + sp() + req.target + sp() + http11_token()
}

/// The content of the `Host` line, terminator excluded.
pub open spec fn spec_host_line(host: Seq<u8>) -> Seq<u8> {
    host_prefix() + host
}

/// Every line of the serialized head, in order, terminators excluded.
pub open spec fn spec_head_lines(req: RequestModel, host: Seq<u8>) -> Seq<Seq<u8>> {
    seq![spec_request_line(req, host), spec_host_line(host)] + req.headers.map_values(
        |h: (Seq<u8>, Seq<u8>)| h.0 + colon_sp() + h.1,
    ) + if req.body.len() > 0 {
        seq![cl_prefix() + dec_digits(req.body.len())]
    } else {
        Seq::<Seq<u8>>::empty()
    }
}

/// `b` holds no colon byte.
pub open spec fn colon_free(b: Seq<u8>) -> bool {
    forall|i: int| 0 <= i < b.len() ==> #[trigger] b[i] != 58
}

proof fn lemma_request_line_not_cl(req: RequestModel, host: Seq<u8>)
    requires
        colon_free(req.method),
    ensures
        match crate::parse::parse_header_line(spec_request_line(req, host)) {
            Option::Some(p) => crate::text::lower_bytes(p.0) != crate::text::cl_name(),
            Option::None => true,
        },
{
    let line = spec_request_line(req, host);
    let m = req.method.len() as int;
    crate::parse::lemma_find_from_spec(line, colon_sp(), 0);
    match crate::parse::find_from(line, colon_sp(), 0) {
        Option::Some(i) => {
            assert(line.subrange(i as int, i as int + 2)[0] == line[i as int]);
            assert(line[i as int] == 58);
            let name = line.take(i as int);
            if crate::text::lower_bytes(name) == crate::text::cl_name() {
                assert(crate::text::lower_bytes(name).len() == name.len());
                assert(name.len() == 14);
                if i < m {
                    assert(line[i as int] == req.method[i as int]);
                    assert(false);
                } else if i == m {
                    assert(line[m] == sp()[0]);
                    assert(false);
                } else {
                    assert(m < 14);
                    assert(line[m] == sp()[0]);
                    assert(name[m] == line[m]);
                    assert(crate::text::lower_bytes(name)[m] == crate::text::lower_byte(
                        name[m],
                    ));
                    assert(crate::text::cl_name()[m] == 32);
                    assert(false);
                }
            }
        },
        Option::None => {},
    }
}

proof fn lemma_host_line_not_cl(host: Seq<u8>)
    ensures
        match crate::parse::parse_header_line(spec_host_line(host)) {
            Option::Some(p) => crate::text::lower_bytes(p.0) != crate::text::cl_name(),
            Option::None => true,
        },
{
    let line = spec_host_line(host);
    assert(line.subrange(4, 6) =~= colon_sp());
    assert(crate::parse::matches_at(line, colon_sp(), 4));
    assert forall|k: int| 0 <= k < 4 implies !crate::parse::matches_at(line, colon_sp(), k) by {
        if crate::parse::matches_at(line, colon_sp(), k) {
            assert(line.subrange(k, k + 2)[0] == line[k]);
            assert(line[k] == host_prefix()[k]);
        }
    }
    crate::parse::lemma_find_from_exact(line, colon_sp(), 0, 4);
    let name = line.take(4);
    assert(crate::text::lower_bytes(name).len() == 4);
}

proof fn lemma_header_line_not_cl(name: Seq<u8>, value: Seq<u8>)
    requires
        colon_free(name),
        crate::text::lower_bytes(name) != crate::text::cl_name(),
    ensures
        match crate::parse::parse_header_line(name + colon_sp() + value) {
            Option::Some(p) => crate::text::lower_bytes(p.0) != crate::text::cl_name(),
            Option::None => true,
        },
{
    let line = name + colon_sp() + value;
    let m = name.len() as int;
    assert(line.subrange(m, m + 2) =~= colon_sp());
    assert(crate::parse::matches_at(line, colon_sp(), m));
    assert forall|k: int| 0 <= k < m implies !crate::parse::matches_at(line, colon_sp(), k) by {
        if crate::parse::matches_at(line, colon_sp(), k) {
            assert(line.subrange(k, k + 2)[0] == line[k]);
            assert(line[k] == name[k]);
        }
    }
    crate::parse::lemma_find_from_exact(line, colon_sp(), 0, m as nat);
    assert(line.take(m) =~= name);
}

/// Law: a request with an empty body serializes with no `Content-Length`
/// header at all.  Provided the caller's method and header names are
/// tokens (no colon) and no caller header is itself named
/// `Content-Length`, no line of the serialized head decodes as a
/// `Content-Length` header, under the same line decoding the response
/// parser uses and with the same case-insensitive name comparison.
pub proof fn lemma_empty_body_head_free_of_content_length(req: RequestModel, host: Seq<u8>)
    requires
        req.body.len() == 0,
        colon_free(req.method),
        forall|j: int| 0 <= j < req.headers.len() ==> colon_free(#[trigger] req.headers[j].0),
        forall|j: int|
            0 <= j < req.headers.len() ==> crate::text::lower_bytes(#[trigger] req.headers[j].0)
                != crate::text::cl_name(),
    ensures
        spec_head_lines(req, host).len() == 2 + req.headers.len(),
        forall|k: int|
            0 <= k < spec_head_lines(req, host).len() ==> (match crate::parse::parse_header_line(
                #[trigger] spec_head_lines(req, host)[k],
            ) {
                Option::Some(p) => crate::text::lower_bytes(p.0) != crate::text::cl_name(),
                Option::None => true,
            }),
{
    let lines = spec_head_lines(req, host);
    assert(lines.len() == 2 + req.headers.len());
    assert forall|k: int|
        0 <= k < lines.len() implies (match crate::parse::parse_header_line(#[trigger] lines[k]) {
        Option::Some(p) => crate::text::lower_bytes(p.0) != crate::text::cl_name(),
        Option::None => true,
    }) by {
        if k == 0 {
            assert(lines[0] == spec_request_line(req, host));
            lemma_request_line_not_cl(req, host);
        } else if k == 1 {
            assert(lines[1] == spec_host_line(host));
            lemma_host_line_not_cl(host);
        } else {
            let h = req.headers[k - 2];
            assert(lines[k] == h.0 + colon_sp() + h.1);
            lemma_header_line_not_cl(h.0, h.1);
        }
    }
}

} // verus!

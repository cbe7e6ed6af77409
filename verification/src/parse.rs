//! The response parser: a state machine that accumulates chunks until the
//! header block is complete, decodes the status line and headers, then
//! collects a length-delimited body.
use vstd::prelude::*;
use vstd::slice::{slice_subrange, slice_to_vec};
use crate::msg::{Error, ErrorKind, Response};
use crate::serialize::{colon_sp, crlf, sp};
use crate::text::{
    cl_name, dec_val, is_content_length_name, is_digits, lossy_decode, lossy_of, lower_bytes,
    parse_dec_u64,
};

verus! {

// ------------------------------------------------------------------
// Searching for byte patterns
// ------------------------------------------------------------------
/// `pat` occurs in `b` starting at `i`.
pub open spec fn matches_at(b: Seq<u8>, pat: Seq<u8>, i: int) -> bool {
    0 <= i && i + pat.len() <= b.len() && b.subrange(i, i + pat.len()) == pat
}

/// The first occurrence of `pat` in `b` at or after `i`.
pub open spec fn find_from(b: Seq<u8>, pat: Seq<u8>, i: nat) -> Option<nat>
    decreases b.len() + 1 - i,
{
    if i + pat.len() > b.len() {
        None
    } else if matches_at(b, pat, i as int) {
        Some(i)
    } else {
        find_from(b, pat, i + 1)
    }
}

/// What `find_from` returns: the first match, or no match at all.
pub proof fn lemma_find_from_spec(b: Seq<u8>, pat: Seq<u8>, j: nat)
    ensures
        match find_from(b, pat, j) {
            Option::Some(i) => j <= i && i + pat.len() <= b.len() && matches_at(b, pat, i as int)
                && forall|k: int| j <= k < i ==> !matches_at(b, pat, k),
            Option::None => forall|k: int| j <= k ==> !matches_at(b, pat, k),
        },
    decreases b.len() + 1 - j,
{
    if j + pat.len() > b.len() {
        assert forall|k: int| j <= k implies !matches_at(b, pat, k) by {
            assert(k + pat.len() > b.len());
        }
    } else if matches_at(b, pat, j as int) {
    } else {
        lemma_find_from_spec(b, pat, j + 1);
    }
}

/// Converse: a first match determines `find_from`.
pub proof fn lemma_find_from_exact(b: Seq<u8>, pat: Seq<u8>, j: nat, i: nat)
    requires
        j <= i,
        matches_at(b, pat, i as int),
        forall|k: int| j <= k < i ==> !matches_at(b, pat, k),
    ensures
        find_from(b, pat, j) == Some(i),
    decreases i - j,
{
    if j < i {
        lemma_find_from_exact(b, pat, j + 1, i);
    }
}

/// A match inside the prefix is unaffected by appended bytes.
proof fn lemma_matches_at_extend(b: Seq<u8>, t: Seq<u8>, pat: Seq<u8>, k: int)
    requires
        k + pat.len() <= b.len(),
    ensures
        matches_at(b, pat, k) == matches_at(b + t, pat, k),
{
    if 0 <= k {
        assert((b + t).subrange(k, k + pat.len()) =~= b.subrange(k, k + pat.len()));
    }
}

/// Law: searching is stable under appending bytes.  A match found in a
/// prefix stays the first match of any extension; when a prefix has no
/// match, an extension's first match cannot lie entirely inside the prefix.
pub proof fn lemma_find_from_extend(b: Seq<u8>, t: Seq<u8>, pat: Seq<u8>)
    ensures
        match find_from(b, pat, 0) {
            Option::Some(i) => find_from(b + t, pat, 0) == Some(i),
            Option::None => match find_from(b + t, pat, 0) {
                Option::Some(i2) => i2 + pat.len() > b.len(),
                Option::None => true,
            },
        },
{
    lemma_find_from_spec(b, pat, 0);
    lemma_find_from_spec(b + t, pat, 0);
    match find_from(b, pat, 0) {
        Option::Some(i) => {
            lemma_matches_at_extend(b, t, pat, i as int);
            assert forall|k: int| 0 <= k < i implies !matches_at(b + t, pat, k) by {
                lemma_matches_at_extend(b, t, pat, k);
            }
            lemma_find_from_exact(b + t, pat, 0, i);
        },
        Option::None => {
            match find_from(b + t, pat, 0) {
                Option::Some(i2) => {
                    if i2 + pat.len() <= b.len() {
                        lemma_matches_at_extend(b, t, pat, i2 as int);
                        assert(false);
                    }
                },
                Option::None => {},
            }
        },
    }
}

/// The four-byte header terminator CRLFCRLF.
pub open spec fn crlf2() -> Seq<u8> {
    seq![13u8, 10u8, 13u8, 10u8]
}

fn crlf_bytes() -> (v: Vec<u8>)
    ensures
        v@ == crlf(),
{
    let mut v: Vec<u8> = Vec::new();
    v.push(13);
    v.push(10);
    proof {
        assert(v@ =~= crlf());
    }
    v
}

fn crlf2_bytes() -> (v: Vec<u8>)
    ensures
        v@ == crlf2(),
{
    let mut v: Vec<u8> = Vec::new();
    v.push(13);
    v.push(10);
    v.push(13);
    v.push(10);
    proof {
        assert(v@ =~= crlf2());
    }
    v
}

fn sp_bytes() -> (v: Vec<u8>)
    ensures
        v@ == sp(),
{
    let mut v: Vec<u8> = Vec::new();
    v.push(32);
    proof {
        assert(v@ =~= sp());
    }
    v
}

fn colon_sp_bytes() -> (v: Vec<u8>)
    ensures
        v@ == colon_sp(),
{
    let mut v: Vec<u8> = Vec::new();
    v.push(58);
    v.push(32);
    proof {
        assert(v@ =~= colon_sp());
    }
    v
}

/// `pat` occurs in `b` at exactly position `i`.
fn window_eq(b: &[u8], i: usize, pat: &[u8]) -> (r: bool)
    requires
        i + pat@.len() <= b@.len(),
    ensures
        r == matches_at(b@, pat@, i as int),
{
    let n = b.len();
    let mut k: usize = 0;
    while k < pat.len()
        invariant
            n == b@.len(),
            i + pat@.len() <= b@.len(),
            0 <= k <= pat@.len(),
            forall|k2: int| 0 <= k2 < k ==> b@[i + k2] == pat@[k2],
        decreases pat@.len() - k,
    {
        if b[i + k] != pat[k] {
            proof {
                if matches_at(b@, pat@, i as int) {
                    assert(b@.subrange(i as int, i + pat@.len())[k as int] == b@[i + k]);
                }
            }
            return false;
        }
        k += 1;
    }
    proof {
        assert(b@.subrange(i as int, i + pat@.len()) =~= pat@);
    }
    true
}

/// Finds the first occurrence of `pat` in `b`.
pub fn find_sub(b: &[u8], pat: &[u8]) -> (r: Option<usize>)
    requires
        pat@.len() >= 1,
    ensures
        match r {
            Option::Some(i) => find_from(b@, pat@, 0) == Some(i as nat),
            Option::None => find_from(b@, pat@, 0) is None,
        },
{
    if pat.len() > b.len() {
        return None;
    }
    let mut i: usize = 0;
    while i <= b.len() - pat.len()
        invariant
            pat@.len() >= 1,
            pat@.len() <= b@.len(),
            0 <= i <= b@.len(),
            find_from(b@, pat@, 0) == find_from(b@, pat@, i as nat),
        decreases b@.len() - i,
    {
        if window_eq(b, i, pat) {
            return Some(i);
        }
        proof {
            assert(find_from(b@, pat@, i as nat) == find_from(b@, pat@, i as nat + 1));
        }
        i += 1;
    }
    proof {
        assert(i + pat@.len() > b@.len());
    }
    None
}

// ------------------------------------------------------------------
// Splitting the header block into lines
// ------------------------------------------------------------------
/// The view of a vector of byte vectors.
pub open spec fn vecs_view(s: Seq<Vec<u8>>) -> Seq<Seq<u8>> {
    s.map_values(|v: Vec<u8>| v@)
}

/// The view of a vector of header pairs.
pub open spec fn pairs_view(s: Seq<(Vec<u8>, Vec<u8>)>) -> Seq<(Seq<u8>, Seq<u8>)> {
    s.map_values(|h: (Vec<u8>, Vec<u8>)| (h.0@, h.1@))
}

/// Splits `b` on CRLF line terminators.  The final segment (with no
/// trailing CRLF) is always included, so the result is never empty.
pub open spec fn split_crlf(b: Seq<u8>) -> Seq<Seq<u8>>
    decreases b.len(),
    via split_crlf_dec
{
    match find_from(b, crlf(), 0) {
        Option::None => seq![b],
        Option::Some(i) => seq![b.take(i as int)] + split_crlf(b.skip(i as int + 2)),
    }
}

#[via_fn]
proof fn split_crlf_dec(b: Seq<u8>) {
    lemma_find_from_spec(b, crlf(), 0);
}

/// Splits a header block into its lines.
pub fn split_lines(block: &[u8]) -> (r: Vec<Vec<u8>>)
    ensures
        vecs_view(r@) == split_crlf(block@),
{
    let pat = crlf_bytes();
    let mut lines: Vec<Vec<u8>> = Vec::new();
    let mut pos: usize = 0;
    proof {
        assert(block@.skip(0) =~= block@);
        assert(vecs_view(lines@) + split_crlf(block@) =~= split_crlf(block@));
    }
    #[verifier::loop_isolation(true)]
    loop
        invariant_except_break
            split_crlf(block@) == vecs_view(lines@) + split_crlf(block@.skip(pos as int)),
        invariant
            pat@ == crlf(),
            0 <= pos <= block@.len(),
        ensures
            vecs_view(lines@) == split_crlf(block@),
        decreases block@.len() + 1 - pos,
    {
        let rest = slice_subrange(block, pos, block.len());
        proof {
            assert(rest@ =~= block@.skip(pos as int));
        }
        let ghost old_lines = lines@;
        match find_sub(rest, pat.as_slice()) {
            Option::None => {
                let line = slice_to_vec(rest);
                lines.push(line);
                proof {
                    assert(split_crlf(rest@) =~= seq![rest@]);
                    assert(vecs_view(lines@) =~= vecs_view(old_lines) + seq![rest@]);
                    assert(vecs_view(lines@) =~= split_crlf(block@));
                }
                break ;
            },
            Option::Some(i) => {
                proof {
                    lemma_find_from_spec(rest@, crlf(), 0);
                }
                let line = slice_to_vec(slice_subrange(rest, 0, i));
                lines.push(line);
                let ghost old_pos = pos as int;
                pos = pos + i + 2;
                proof {
                    assert(line@ =~= rest@.take(i as int));
                    assert(rest@.skip(i as int + 2) =~= block@.skip(pos as int));
                    assert(split_crlf(rest@) == seq![line@] + split_crlf(block@.skip(pos as int)));
                    assert(vecs_view(lines@) =~= vecs_view(old_lines) + seq![line@]);
                    assert(vecs_view(lines@) + split_crlf(block@.skip(pos as int)) =~= vecs_view(
                        old_lines,
                    ) + split_crlf(block@.skip(old_pos)));
                }
            },
        }
    }
    lines
}

} // verus!

verus! {

// ------------------------------------------------------------------
// The status line
// ------------------------------------------------------------------
/// The model of a decoded status line.
pub ghost struct StatusLineModel {
    pub version: Seq<u8>,
    pub code: u16,
    pub reason: Seq<u8>,
}

/// Decodes `HTTP-version SP status-code SP reason-phrase`.  Fewer than
/// three parts, or a status code that is not a number up to 65535, is a
/// malformed status line.
pub open spec fn parse_status_line(line: Seq<u8>) -> Option<StatusLineModel> {
    match find_from(line, sp(), 0) {
        Option::None => None,
        Option::Some(i) => {
            let rest = line.skip(i as int + 1);
            match find_from(rest, sp(), 0) {
                Option::None => None,
                Option::Some(j) => {
                    let code = rest.take(j as int);
                    if code.len() >= 1 && is_digits(code) && dec_val(code) <= 65535 {
                        Some(
                            StatusLineModel {
                                version: line.take(i as int),
                                code: dec_val(code) as u16,
                                reason: rest.skip(j as int + 1),
                            },
                        )
                    } else {
                        None
                    }
                },
            }
        },
    }
}

fn parse_status_line_exec(line: &[u8]) -> (r: Option<(Vec<u8>, u16, Vec<u8>)>)
    ensures
        match r {
            Option::Some(t) => parse_status_line(line@) == Some(
                StatusLineModel { version: t.0@, code: t.1, reason: t.2@ },
            ),
            Option::None => parse_status_line(line@) is None,
        },
{
    let n = line.len();
    let spv = sp_bytes();
    match find_sub(line, spv.as_slice()) {
        Option::None => None,
        Option::Some(i) => {
            proof {
                lemma_find_from_spec(line@, sp(), 0);
                assert(n == line@.len());
            }
            let rest = slice_subrange(line, i + 1, line.len());
            proof {
                assert(rest@ =~= line@.skip(i as int + 1));
            }
            match find_sub(rest, spv.as_slice()) {
                Option::None => None,
                Option::Some(j) => {
                    proof {
                        lemma_find_from_spec(rest@, sp(), 0);
                    }
                    let code_sl = slice_subrange(rest, 0, j);
                    proof {
                        assert(code_sl@ =~= rest@.take(j as int));
                    }
                    match parse_dec_u64(code_sl) {
                        Option::None => None,
                        Option::Some(v) => {
                            if v <= 65535 {
                                let version = slice_to_vec(slice_subrange(line, 0, i));
                                let reason = slice_to_vec(
                                    slice_subrange(rest, j + 1, rest.len()),
                                );
                                proof {
                                    assert(version@ =~= line@.take(i as int));
                                    assert(reason@ =~= rest@.skip(j as int + 1));
                                }
                                Some((version, v as u16, reason))
                            } else {
                                None
                            }
                        },
                    }
                },
            }
        },
    }
}

// ------------------------------------------------------------------
// Header lines
// ------------------------------------------------------------------
/// Splits a header line on the first `": "` into name and value.
pub open spec fn parse_header_line(line: Seq<u8>) -> Option<(Seq<u8>, Seq<u8>)> {
    match find_from(line, colon_sp(), 0) {
        Option::None => None,
        Option::Some(i) => Some((line.take(i as int), line.skip(i as int + 2))),
    }
}

fn parse_header_line_exec(line: &[u8]) -> (r: Option<(Vec<u8>, Vec<u8>)>)
    ensures
        match r {
            Option::Some(p) => parse_header_line(line@) == Some((p.0@, p.1@)),
            Option::None => parse_header_line(line@) is None,
        },
{
    let n = line.len();
    let pat = colon_sp_bytes();
    match find_sub(line, pat.as_slice()) {
        Option::None => None,
        Option::Some(i) => {
            proof {
                lemma_find_from_spec(line@, colon_sp(), 0);
                assert(n == line@.len());
            }
            let name = slice_to_vec(slice_subrange(line, 0, i));
            let value = slice_to_vec(slice_subrange(line, i + 2, line.len()));
            proof {
                assert(name@ =~= line@.take(i as int));
                assert(value@ =~= line@.skip(i as int + 2));
            }
            Some((name, value))
        },
    }
}

/// Decodes every header line; any line without a separator makes the
/// whole block malformed.
pub open spec fn parse_header_lines(ls: Seq<Seq<u8>>) -> Option<Seq<(Seq<u8>, Seq<u8>)>>
    decreases ls.len(),
{
    if ls.len() == 0 {
        Some(Seq::empty())
    } else {
        match parse_header_lines(ls.drop_last()) {
            Option::None => None,
            Option::Some(hs) => match parse_header_line(ls.last()) {
                Option::None => None,
                Option::Some(h) => Some(hs.push(h)),
            },
        }
    }
}

proof fn lemma_phl_fail(ls: Seq<Seq<u8>>, i: int)
    requires
        0 <= i < ls.len(),
        parse_header_line(ls[i]) is None,
    ensures
        parse_header_lines(ls) is None,
    decreases ls.len(),
{
    if i < ls.len() - 1 {
        assert(ls.drop_last()[i] == ls[i]);
        lemma_phl_fail(ls.drop_last(), i);
    }
}

// ------------------------------------------------------------------
// Content-Length lookup
// ------------------------------------------------------------------
/// The value of the last header named `Content-Length`, compared without
/// regard to ASCII case.
pub open spec fn find_content_length(hs: Seq<(Seq<u8>, Seq<u8>)>) -> Option<Seq<u8>>
    decreases hs.len(),
{
    if hs.len() == 0 {
        None
    } else if lower_bytes(hs.last().0) == cl_name() {
        Some(hs.last().1)
    } else {
        find_content_length(hs.drop_last())
    }
}

// ------------------------------------------------------------------
// The whole header block
// ------------------------------------------------------------------
/// The model of a decoded header block.
pub ghost struct HeadModel {
    pub status: StatusLineModel,
    pub headers: Seq<(Seq<u8>, Seq<u8>)>,
    pub content_length: Option<nat>,
}

/// Decodes a complete header block (terminator stripped): status line
/// first, then every header line, then the `Content-Length` value if one
/// is present.
pub open spec fn parse_head(block: Seq<u8>) -> Result<HeadModel, ErrorKind> {
    let lines = split_crlf(block);
    match parse_status_line(lines[0]) {
        Option::None => Err(ErrorKind::MalformedStatusLine),
        Option::Some(st) => match parse_header_lines(lines.skip(1)) {
            Option::None => Err(ErrorKind::MalformedHeaderLine),
            Option::Some(hs) => match find_content_length(hs) {
                Option::None => Ok(
                    HeadModel { status: st, headers: hs, content_length: None },
                ),
                Option::Some(v) => if v.len() >= 1 && is_digits(v) && dec_val(v) <= usize::MAX
                    as nat {
                    Ok(HeadModel { status: st, headers: hs, content_length: Some(dec_val(v)) })
                } else {
                    Err(ErrorKind::MalformedContentLength)
                },
            },
        },
    }
}

/// The decoded fields of a header block, executable form.
pub struct HeadFields {
    pub version: Vec<u8>,
    pub status_code: u16,
    pub reason: Vec<u8>,
    pub headers: Vec<(Vec<u8>, Vec<u8>)>,
    pub content_length: Option<usize>,
}

impl View for HeadFields {
    type V = HeadModel;

    open spec fn view(&self) -> HeadModel {
        HeadModel {
            status: StatusLineModel {
                version: self.version@,
                code: self.status_code,
                reason: self.reason@,
            },
            headers: pairs_view(self.headers@),
            content_length: match self.content_length {
                Option::Some(n) => Some(n as nat),
                Option::None => None,
            },
        }
    }
}

fn parse_head_exec(block: &[u8]) -> (r: Result<HeadFields, ErrorKind>)
    ensures
        match r {
            Ok(h) => parse_head(block@) == Ok::<HeadModel, ErrorKind>(h@),
            Err(k) => parse_head(block@) == Err::<HeadModel, ErrorKind>(k),
        },
{
    let lines = split_lines(block);
    proof {
        assert(split_crlf(block@).len() >= 1);
        assert(lines@.len() >= 1);
        assert(vecs_view(lines@)[0] == lines@[0]@);
    }
    let st = match parse_status_line_exec(lines[0].as_slice()) {
        Option::None => {
            return Err(ErrorKind::MalformedStatusLine);
        },
        Option::Some(t) => t,
    };
    let ghost lsv = vecs_view(lines@).skip(1);
    let mut hs: Vec<(Vec<u8>, Vec<u8>)> = Vec::new();
    let mut idx: usize = 1;
    proof {
        assert(lsv.take(0) =~= Seq::<Seq<u8>>::empty());
        assert(pairs_view(hs@) =~= Seq::<(Seq<u8>, Seq<u8>)>::empty());
    }
    while idx < lines.len()
        invariant
            1 <= idx <= lines@.len(),
            lsv == vecs_view(lines@).skip(1),
            parse_header_lines(lsv.take(idx - 1)) == Some(pairs_view(hs@)),
        decreases lines@.len() - idx,
    {
        proof {
            assert(lsv[idx - 1] == vecs_view(lines@)[idx as int]);
            assert(vecs_view(lines@)[idx as int] == lines@[idx as int]@);
        }
        let ghost old_hs = hs@;
        match parse_header_line_exec(lines[idx].as_slice()) {
            Option::None => {
                proof {
                    lemma_phl_fail(lsv, idx - 1);
                }
                return Err(ErrorKind::MalformedHeaderLine);
            },
            Option::Some(pair) => {
                hs.push(pair);
                proof {
                    assert(lsv.take(idx as int).drop_last() =~= lsv.take(idx - 1));
                    assert(lsv.take(idx as int).last() == lsv[idx - 1]);
                    assert(pairs_view(hs@) =~= pairs_view(old_hs).push((pair.0@, pair.1@)));
                }
            },
        }
        idx += 1;
    }
    proof {
        assert(lsv.take(lines@.len() - 1) =~= lsv);
    }
    // Content-Length: the last matching header wins, as a single-valued
    // lookup built by repeated insertion would make it.
    let mut cl_bytes: Option<Vec<u8>> = None;
    let mut k: usize = 0;
    proof {
        assert(pairs_view(hs@).take(0) =~= Seq::<(Seq<u8>, Seq<u8>)>::empty());
    }
    while k < hs.len()
        invariant
            0 <= k <= hs@.len(),
            match find_content_length(pairs_view(hs@).take(k as int)) {
                Option::Some(s) => cl_bytes matches Option::Some(v) && v@ == s,
                Option::None => cl_bytes is None,
            },
        decreases hs@.len() - k,
    {
        let pair = &hs[k];
        proof {
            assert(pairs_view(hs@).take(k + 1).drop_last() =~= pairs_view(hs@).take(k as int));
            assert(pairs_view(hs@).take(k + 1).last() == pairs_view(hs@)[k as int]);
            assert(pairs_view(hs@)[k as int] == (hs@[k as int].0@, hs@[k as int].1@));
        }
        if is_content_length_name(pair.0.as_slice()) {
            cl_bytes = Some(slice_to_vec(pair.1.as_slice()));
        }
        k += 1;
    }
    proof {
        assert(pairs_view(hs@).take(hs@.len() as int) =~= pairs_view(hs@));
    }
    let content_length: Option<usize> = match cl_bytes {
        Option::None => None,
        Option::Some(v) => match parse_dec_u64(v.as_slice()) {
            Option::None => {
                return Err(ErrorKind::MalformedContentLength);
            },
            Option::Some(n) => {
                if n <= usize::MAX as u64 {
                    Some(n as usize)
                } else {
                    return Err(ErrorKind::MalformedContentLength);
                }
            },
        },
    };
    Ok(
        HeadFields {
            version: st.0,
            status_code: st.1,
            reason: st.2,
            headers: hs,
            content_length,
        },
    )
}

} // verus!

verus! {

// ------------------------------------------------------------------
// The parser state machine, specification level
// ------------------------------------------------------------------
/// What scanning the accumulated bytes for the header terminator yields.
pub ghost enum HdrScan {
    /// No terminator yet, and the accumulation bound is not exhausted.
    Pending,
    /// The first `max` bytes hold no complete terminator: the header
    /// block cannot fit the configured bound.
    TooLarge,
    /// The header block ends (terminator included) at this offset.
    FoundEnd(nat),
}

/// Scans the accumulated stream prefix `f` for the header terminator,
/// never looking past the first `max` bytes.  The outcome is a function
/// of the stream alone, which is what makes parsing chunk-independent.
pub open spec fn hdr_scan(max: nat, f: Seq<u8>) -> HdrScan {
    match find_from(f, crlf2(), 0) {
        Option::Some(i) => if i + 4 <= max {
            HdrScan::FoundEnd((i + 4) as nat)
        } else {
            HdrScan::TooLarge
        },
        Option::None => if f.len() >= max {
            HdrScan::TooLarge
        } else {
            HdrScan::Pending
        },
    }
}

/// The parser's abstract state.
pub ghost enum SpecState {
    /// Still accumulating the header block; `got` is everything received.
    Headers { got: Seq<u8> },
    /// Headers decoded; collecting a length-delimited body.
    Body { head: HeadModel, body: Seq<u8> },
    /// One complete message; bytes past its end belong to the next one.
    Done { head: HeadModel, body: Seq<u8>, leftover: Seq<u8> },
    /// A terminal protocol failure.
    Failed { kind: ErrorKind },
}

/// The declared body length of a decoded head, zero when absent.
pub open spec fn cl_of(head: HeadModel) -> nat {
    match head.content_length {
        Option::Some(l) => l,
        Option::None => 0,
    }
}

/// Where the machine goes once the whole received prefix is `f`.
pub open spec fn spec_after_headers(max: nat, f: Seq<u8>) -> SpecState {
    match hdr_scan(max, f) {
        HdrScan::Pending => SpecState::Headers { got: f },
        HdrScan::TooLarge => SpecState::Failed { kind: ErrorKind::HeadersTooLarge },
        HdrScan::FoundEnd(e) => match parse_head(f.take(e as int - 4)) {
            Err(k) => SpecState::Failed { kind: k },
            Ok(h) => {
                let rest = f.skip(e as int);
                match h.content_length {
                    Option::None => SpecState::Done {
                        head: h,
                        body: rest,
                        leftover: Seq::empty(),
                    },
                    Option::Some(l) => if rest.len() >= l {
                        SpecState::Done {
                            head: h,
                            body: rest.take(l as int),
                            leftover: rest.skip(l as int),
                        }
                    } else {
                        SpecState::Body { head: h, body: rest }
                    },
                }
            },
        },
    }
}

/// One transition: the machine receives the chunk `c`.
pub open spec fn spec_step(max: nat, s: SpecState, c: Seq<u8>) -> SpecState {
    match s {
        SpecState::Headers { got } => spec_after_headers(max, got + c),
        SpecState::Body { head, body } => {
            let nb = body + c;
            let need = cl_of(head);
            if nb.len() >= need {
                SpecState::Done { head, body: nb.take(need as int), leftover: nb.skip(need as int) }
            } else {
                SpecState::Body { head, body: nb }
            }
        },
        SpecState::Done { head, body, leftover } => SpecState::Done {
            head,
            body,
            leftover: leftover + c,
        },
        SpecState::Failed { kind } => SpecState::Failed { kind },
    }
}

/// The transition when the peer closes the stream.
pub open spec fn spec_close(s: SpecState) -> SpecState {
    match s {
        SpecState::Headers { got } => SpecState::Failed { kind: ErrorKind::TruncatedHeaders },
        SpecState::Body { head, body } => SpecState::Failed { kind: ErrorKind::TruncatedBody },
        SpecState::Done { head, body, leftover } => SpecState::Done { head, body, leftover },
        SpecState::Failed { kind } => SpecState::Failed { kind },
    }
}

/// The state of a parser that has received nothing.
pub open spec fn init_state() -> SpecState {
    SpecState::Headers { got: Seq::empty() }
}

/// The response a finished parse denotes: numeric code, leniently decoded
/// text, headers in wire order, and the collected body bytes.
pub open spec fn response_model_of(head: HeadModel, body: Seq<u8>) -> crate::msg::ResponseModel {
    crate::msg::ResponseModel {
        status_code: head.status.code,
        reason_phrase: lossy_of(head.status.reason),
        version: lossy_of(head.status.version),
        headers: head.headers.map_values(|h: (Seq<u8>, Seq<u8>)| (lossy_of(h.0), lossy_of(h.1))),
        body: body,
    }
}

// ------------------------------------------------------------------
// The parser, executable form
// ------------------------------------------------------------------
enum ParserState {
    Headers { buf: Vec<u8> },
    Body { head: HeadFields, body: Vec<u8> },
    Done { head: HeadFields, body: Vec<u8>, leftover: Vec<u8> },
    Failed { kind: ErrorKind },
}

spec fn state_view(st: ParserState) -> SpecState {
    match st {
        ParserState::Headers { buf } => SpecState::Headers { got: buf@ },
        ParserState::Body { head, body } => SpecState::Body { head: head@, body: body@ },
        ParserState::Done { head, body, leftover } => SpecState::Done {
            head: head@,
            body: body@,
            leftover: leftover@,
        },
        ParserState::Failed { kind } => SpecState::Failed { kind },
    }
}

/// An incremental response parser.  Feed it chunks exactly as the
/// transport delivers them; its abstract state follows `spec_step`.
pub struct ResponseParser {
    max_header_bytes: usize,
    state: ParserState,
}

impl View for ResponseParser {
    type V = SpecState;

    closed spec fn view(&self) -> SpecState {
        state_view(self.state)
    }
}

fn scan_headers(max: usize, buf: Vec<u8>) -> (st: ParserState)
    ensures
        state_view(st) == spec_after_headers(max as nat, buf@),
{
    let n = buf.len();
    let pat = crlf2_bytes();
    match find_sub(buf.as_slice(), pat.as_slice()) {
        Option::Some(i) => {
            proof {
                lemma_find_from_spec(buf@, crlf2(), 0);
            }
            if i + 4 <= max {
                let block = slice_subrange(buf.as_slice(), 0, i);
                proof {
                    assert(block@ =~= buf@.take(i + 4 - 4));
                }
                match parse_head_exec(block) {
                    Err(k) => ParserState::Failed { kind: k },
                    Ok(h) => {
                        let rest = slice_to_vec(slice_subrange(buf.as_slice(), i + 4, n));
                        proof {
                            assert(rest@ =~= buf@.skip(i as int + 4));
                        }
                        let cl = h.content_length;
                        match cl {
                            Option::None => ParserState::Done {
                                head: h,
                                body: rest,
                                leftover: Vec::new(),
                            },
                            Option::Some(l) => {
                                if rest.len() >= l {
                                    let leftover = slice_to_vec(
                                        slice_subrange(rest.as_slice(), l, rest.len()),
                                    );
                                    let mut body = rest;
                                    body.truncate(l);
                                    proof {
                                        assert(body@ =~= buf@.skip(i as int + 4).take(l as int));
                                        assert(leftover@ =~= buf@.skip(i as int + 4).skip(
                                            l as int,
                                        ));
                                    }
                                    ParserState::Done { head: h, body, leftover }
                                } else {
                                    ParserState::Body { head: h, body: rest }
                                }
                            },
                        }
                    },
                }
            } else {
                ParserState::Failed { kind: ErrorKind::HeadersTooLarge }
            }
        },
        Option::None => {
            if n >= max {
                ParserState::Failed { kind: ErrorKind::HeadersTooLarge }
            } else {
                ParserState::Headers { buf }
            }
        },
    }
}

impl ResponseParser {
    /// The configured maximum header-block size.
    pub closed spec fn max_spec(&self) -> nat {
        self.max_header_bytes as nat
    }

    /// A parser that will refuse header blocks larger than
    /// `max_header_bytes` instead of accumulating without bound.
    pub fn new(max_header_bytes: usize) -> (r: ResponseParser)
        ensures
            r.max_spec() == max_header_bytes as nat,
            r@ == init_state(),
    {
        let r = ResponseParser {
            max_header_bytes,
            state: ParserState::Headers { buf: Vec::new() },
        };
        proof {
            assert(r@ =~= init_state());
        }
        r
    }

    /// The parser still wants bytes: the message is not complete and
    /// nothing has failed.
    pub fn needs_input(&self) -> (r: bool)
        ensures
            r == (self@ is Headers || self@ is Body),
    {
        match &self.state {
            ParserState::Headers { .. } => true,
            ParserState::Body { .. } => true,
            _ => false,
        }
    }

    /// Feeds the next chunk, exactly as the transport delivered it.
    pub fn push_chunk(&mut self, chunk: &[u8])
        ensures
            final(self).max_spec() == old(self).max_spec(),
            final(self)@ == spec_step(old(self).max_spec(), old(self)@, chunk@),
    {
        let mut st = ParserState::Failed { kind: ErrorKind::Io };
        core::mem::swap(&mut st, &mut self.state);
        match st {
            ParserState::Headers { mut buf } => {
                let ghost old_buf = buf@;
                buf.extend_from_slice(chunk);
                proof {
                    assert(buf@ =~= old_buf + chunk@);
                }
                self.state = scan_headers(self.max_header_bytes, buf);
            },
            ParserState::Body { head, mut body } => {
                let need = match head.content_length {
                    Option::Some(l) => l,
                    Option::None => 0,
                };
                let ghost old_body = body@;
                body.extend_from_slice(chunk);
                proof {
                    assert(body@ =~= old_body + chunk@);
                }
                if body.len() >= need {
                    let leftover = slice_to_vec(
                        slice_subrange(body.as_slice(), need, body.len()),
                    );
                    body.truncate(need);
                    proof {
                        assert(body@ =~= (old_body + chunk@).take(need as int));
                        assert(leftover@ =~= (old_body + chunk@).skip(need as int));
                    }
                    self.state = ParserState::Done { head, body, leftover };
                } else {
                    self.state = ParserState::Body { head, body };
                }
            },
            ParserState::Done { head, body, mut leftover } => {
                let ghost old_leftover = leftover@;
                leftover.extend_from_slice(chunk);
                proof {
                    assert(leftover@ =~= old_leftover + chunk@);
                }
                self.state = ParserState::Done { head, body, leftover };
            },
            ParserState::Failed { kind } => {
                self.state = ParserState::Failed { kind };
            },
        }
    }

    /// Tells the parser the peer closed the stream.
    pub fn on_close(&mut self)
        ensures
            final(self).max_spec() == old(self).max_spec(),
            final(self)@ == spec_close(old(self)@),
    {
        let failure: Option<ErrorKind> = match &self.state {
            ParserState::Headers { .. } => Some(ErrorKind::TruncatedHeaders),
            ParserState::Body { .. } => Some(ErrorKind::TruncatedBody),
            _ => None,
        };
        match failure {
            Option::Some(kind) => {
                self.state = ParserState::Failed { kind };
            },
            Option::None => {},
        }
    }

    /// Surrenders the outcome: the parsed response together with any bytes
    /// past the end of this message (they belong to the next one), or the
    /// failure.
    pub fn finish(self) -> (r: Result<(Response, Vec<u8>), Error>)
        requires
            self@ is Done || self@ is Failed,
        ensures
            match r {
                Ok(p) => self@ matches SpecState::Done { head, body, leftover } && p.0@
                    == response_model_of(head, body) && p.1@ == leftover,
                Err(e) => self@ matches SpecState::Failed { kind } && e.kind == kind,
            },
    {
        match self.state {
            ParserState::Done { head, body, leftover } => {
                let reason_phrase = lossy_decode(head.reason.as_slice());
                let version = lossy_decode(head.version.as_slice());
                let mut headers: Vec<(String, String)> = Vec::new();
                let hs = head.headers;
                let mut i: usize = 0;
                while i < hs.len()
                    invariant
                        0 <= i <= hs@.len(),
                        headers@.len() == i,
                        forall|j: int|
                            0 <= j < i ==> (#[trigger] headers@[j]).0@ == lossy_of(hs@[j].0@)
                                && headers@[j].1@ == lossy_of(hs@[j].1@),
                    decreases hs@.len() - i,
                {
                    let pair = &hs[i];
                    let name = lossy_decode(pair.0.as_slice());
                    let value = lossy_decode(pair.1.as_slice());
                    headers.push((name, value));
                    i += 1;
                }
                let resp = Response {
                    status_code: head.status_code,
                    reason_phrase,
                    version,
                    headers,
                    body,
                };
                proof {
                    let lhs = resp@.headers;
                    let rhs = pairs_view(hs@).map_values(
                        |h: (Seq<u8>, Seq<u8>)| (lossy_of(h.0), lossy_of(h.1)),
                    );
                    assert forall|j: int| 0 <= j < lhs.len() implies lhs[j] == rhs[j] by {
                        assert(pairs_view(hs@)[j] == (hs@[j].0@, hs@[j].1@));
                    }
                    assert(lhs =~= rhs);
                }
                Ok((resp, leftover))
            },
            ParserState::Failed { kind } => Err(Error { kind }),
            _ => vstd::pervasive::unreached(),
        }
    }
}

/// Parses one response delivered as a single buffer, closing the stream
/// at the buffer's end.  Returns the response and the bytes past the end
/// of the message, or the failure the stream denotes.
pub fn parse_response_bytes(data: &[u8], max_header_bytes: usize) -> (r: Result<
    (Response, Vec<u8>),
    Error,
>)
    ensures
        ({
            let end = spec_close(spec_step(max_header_bytes as nat, init_state(), data@));
            match r {
                Ok(p) => end matches SpecState::Done { head, body, leftover } && p.0@
                    == response_model_of(head, body) && p.1@ == leftover,
                Err(e) => end matches SpecState::Failed { kind } && e.kind == kind,
            }
        }),
{
    let mut p = ResponseParser::new(max_header_bytes);
    p.push_chunk(data);
    proof {
        assert(Seq::<u8>::empty() + data@ =~= data@);
    }
    if p.needs_input() {
        p.on_close();
    }
    p.finish()
}

} // verus!

verus! {

// ------------------------------------------------------------------
// Chunk independence: how delivery is sliced cannot change the parse
// ------------------------------------------------------------------
/// The states a parser that started empty can actually be in.
pub open spec fn wf_state(max: nat, s: SpecState) -> bool {
    match s {
        SpecState::Headers { got } => hdr_scan(max, got) is Pending,
        SpecState::Body { head, body } => head.content_length is Some && body.len() < cl_of(head),
        SpecState::Done { head, body, leftover } => true,
        SpecState::Failed { kind } => true,
    }
}

/// A fresh parser is well-formed whenever its bound admits any header at all.
pub proof fn lemma_wf_init(max: nat)
    requires
        max >= 1,
    ensures
        wf_state(max, init_state()),
{
}

/// Splitting a delivery of `whole` across chunks cannot change the
/// outcome, except when a head without `Content-Length` completes: there
/// the body is, by definition, exactly what arrived together with the
/// terminator, so it depends on the slicing.
pub open spec fn step_splittable(max: nat, s: SpecState, whole: Seq<u8>) -> bool {
    match s {
        SpecState::Headers { got } => match hdr_scan(max, got + whole) {
            HdrScan::FoundEnd(e) => match parse_head((got + whole).take(e as int - 4)) {
                Ok(h) => h.content_length is Some,
                Err(k) => true,
            },
            HdrScan::Pending => true,
            HdrScan::TooLarge => true,
        },
        SpecState::Body { head, body } => true,
        SpecState::Done { head, body, leftover } => true,
        SpecState::Failed { kind } => true,
    }
}

/// A decided header scan is stable under appending bytes.
proof fn lemma_hdr_scan_extend(max: nat, f: Seq<u8>, t: Seq<u8>)
    ensures
        match hdr_scan(max, f) {
            HdrScan::FoundEnd(e) => hdr_scan(max, f + t) == HdrScan::FoundEnd(e),
            HdrScan::TooLarge => hdr_scan(max, f + t) == HdrScan::TooLarge,
            HdrScan::Pending => true,
        },
{
    lemma_find_from_extend(f, t, crlf2());
}

/// One transition preserves well-formedness.
pub proof fn lemma_step_wf(max: nat, s: SpecState, c: Seq<u8>)
    requires
        wf_state(max, s),
    ensures
        wf_state(max, spec_step(max, s, c)),
{
}

/// Receiving nothing changes nothing.
pub proof fn lemma_step_empty(max: nat, s: SpecState)
    requires
        wf_state(max, s),
    ensures
        spec_step(max, s, Seq::<u8>::empty()) == s,
{
    match s {
        SpecState::Headers { got } => {
            assert(got + Seq::<u8>::empty() =~= got);
        },
        SpecState::Body { head, body } => {
            assert(body + Seq::<u8>::empty() =~= body);
        },
        SpecState::Done { head, body, leftover } => {
            assert(leftover + Seq::<u8>::empty() =~= leftover);
        },
        SpecState::Failed { kind } => {},
    }
}

/// Law (chunk independence, binary form): delivering `a` then `b` leaves
/// the machine exactly where delivering `a + b` at once would, whenever
/// the stream is split-safe.
pub proof fn lemma_step_concat(max: nat, s: SpecState, a: Seq<u8>, b: Seq<u8>)
    requires
        wf_state(max, s),
        step_splittable(max, s, a + b),
    ensures
        spec_step(max, spec_step(max, s, a), b) == spec_step(max, s, a + b),
{
    match s {
        SpecState::Headers { got } => {
            let fa = got + a;
            let fab = got + (a + b);
            assert(fa + b =~= fab);
            match hdr_scan(max, fa) {
                HdrScan::Pending => {
                },
                HdrScan::TooLarge => {
                    lemma_hdr_scan_extend(max, fa, b);
                },
                HdrScan::FoundEnd(e) => {
                    lemma_hdr_scan_extend(max, fa, b);
                    lemma_find_from_spec(fa, crlf2(), 0);
                    assert(fab.take(e as int - 4) =~= fa.take(e as int - 4));
                    match parse_head(fa.take(e as int - 4)) {
                        Err(k) => {},
                        Ok(h) => {
                            let ra = fa.skip(e as int);
                            let rab = fab.skip(e as int);
                            assert(rab =~= ra + b);
                            match h.content_length {
                                Option::None => {
                                    assert(false);
                                },
                                Option::Some(l) => {
                                    if ra.len() >= l {
                                        assert(rab.take(l as int) =~= ra.take(l as int));
                                        assert(rab.skip(l as int) =~= ra.skip(l as int) + b);
                                    } else {
                                        assert(ra + b =~= rab);
                                    }
                                },
                            }
                        },
                    }
                },
            }
        },
        SpecState::Body { head, body } => {
            let need = cl_of(head);
            assert((body + a) + b =~= body + (a + b));
            if (body + a).len() >= need {
                assert((body + (a + b)).take(need as int) =~= (body + a).take(need as int));
                assert((body + (a + b)).skip(need as int) =~= (body + a).skip(need as int) + b);
            }
        },
        SpecState::Done { head, body, leftover } => {
            assert((leftover + a) + b =~= leftover + (a + b));
        },
        SpecState::Failed { kind } => {},
    }
}

/// Split-safety of a stream covers every prefix of it.
pub proof fn lemma_splittable_prefix(max: nat, s: SpecState, p: Seq<u8>, q: Seq<u8>)
    requires
        step_splittable(max, s, p + q),
    ensures
        step_splittable(max, s, p),
{
    match s {
        SpecState::Headers { got } => {
            lemma_hdr_scan_extend(max, got + p, q);
            assert((got + p) + q =~= got + (p + q));
            match hdr_scan(max, got + p) {
                HdrScan::FoundEnd(e) => {
                    lemma_find_from_spec(got + p, crlf2(), 0);
                    assert((got + (p + q)).take(e as int - 4) =~= (got + p).take(e as int - 4));
                },
                HdrScan::Pending => {},
                HdrScan::TooLarge => {},
            }
        },
        _ => {},
    }
}

/// Split-safety survives taking a step on a prefix.
proof fn lemma_splittable_step(max: nat, s: SpecState, p: Seq<u8>, q: Seq<u8>)
    requires
        step_splittable(max, s, p + q),
    ensures
        step_splittable(max, spec_step(max, s, p), q),
{
    match s {
        SpecState::Headers { got } => {
            match hdr_scan(max, got + p) {
                HdrScan::Pending => {
                    assert((got + p) + q =~= got + (p + q));
                },
                HdrScan::TooLarge => {},
                HdrScan::FoundEnd(e) => {},
            }
        },
        _ => {},
    }
}

/// Folding the machine over a list of chunks, first chunk first.
pub open spec fn run_chunks(max: nat, s: SpecState, chunks: Seq<Seq<u8>>) -> SpecState
    decreases chunks.len(),
{
    if chunks.len() == 0 {
        s
    } else {
        run_chunks(max, spec_step(max, s, chunks[0]), chunks.skip(1))
    }
}

/// The bytes a list of chunks delivers.
pub open spec fn concat_chunks(chunks: Seq<Seq<u8>>) -> Seq<u8>
    decreases chunks.len(),
{
    if chunks.len() == 0 {
        Seq::empty()
    } else {
        chunks[0] + concat_chunks(chunks.skip(1))
    }
}

/// Law (chunk independence): feeding a split-safe stream chunk by chunk,
/// in any slicing whatsoever, ends in exactly the state that feeding the
/// whole stream at once would.  Header-boundary detection, header
/// decoding and length-delimited body collection cannot observe chunk
/// sizes; only the body of a response without `Content-Length` can.
pub proof fn lemma_chunking_independent(max: nat, s: SpecState, chunks: Seq<Seq<u8>>)
    requires
        wf_state(max, s),
        step_splittable(max, s, concat_chunks(chunks)),
    ensures
        run_chunks(max, s, chunks) == spec_step(max, s, concat_chunks(chunks)),
    decreases chunks.len(),
{
    if chunks.len() == 0 {
        lemma_step_empty(max, s);
    } else {
        let c0 = chunks[0];
        let rest = chunks.skip(1);
        lemma_splittable_step(max, s, c0, concat_chunks(rest));
        lemma_step_wf(max, s, c0);
        lemma_chunking_independent(max, spec_step(max, s, c0), rest);
        lemma_step_concat(max, s, c0, concat_chunks(rest));
    }
}

} // verus!

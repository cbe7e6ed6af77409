//! One request/response cycle: serialize, write, read chunks, parse.
//!
//! Within one session, a cycle's full write completes and its full parse
//! completes before the next cycle can begin: the session travels through
//! the cycle as `&mut`, so ordering is enforced by ownership, not by a
//! queue.
use vstd::prelude::*;
use crate::msg::{Error, ErrorKind, Request, Response};
use crate::parse::{
    init_state, lemma_step_concat, lemma_step_empty, lemma_step_wf, lemma_splittable_prefix,
    lemma_wf_init, response_model_of, spec_close, spec_step, step_splittable, wf_state,
    ResponseParser, SpecState,
};
use crate::serialize::{headers_wire_safe, serialize_request, spec_request_bytes};
use crate::session::Session;

verus! {

/// How many bytes one read asks the transport for at most.
pub const RECV_CHUNK: usize = 8192;

/// The TCP port a destination implies: an explicit port wins; otherwise
/// the encrypted scheme means 443 and anything else means 80.
pub fn port_for(explicit: Option<u16>, scheme_is_https: bool) -> (r: u16)
    ensures
        explicit matches Some(p) ==> r == p,
        explicit is None && scheme_is_https ==> r == 443,
        explicit is None && !scheme_is_https ==> r == 80,
{
    match explicit {
        Option::Some(p) => p,
        Option::None => {
            if scheme_is_https {
                443
            } else {
                80
            }
        },
    }
}

/// The state one whole cycle's incoming bytes denote: feed everything,
/// then observe the stream's end.
pub open spec fn spec_cycle_end(max: nat, avail: Seq<u8>) -> SpecState {
    spec_close(spec_step(max, init_state(), avail))
}

/// Runs one full cycle on `session`: writes the request's exact wire
/// bytes, then reads chunks until one response is complete, and hands
/// bytes past the response's end back to the session for the next cycle.
///
/// An unsafe header value is rejected before any byte reaches the wire
/// and leaves the session untouched; a poisoned session fails fast; any
/// protocol failure poisons the session.
///
/// When the incoming bytes are split-safe (the response carries a
/// `Content-Length`, or never completes), the outcome is exactly the one
/// the stream's bytes denote, however the transport slices them.
pub fn send_request(
    session: &mut Session,
    req: &Request,
    host: &[u8],
    max_header_bytes: usize,
) -> (r: Result<Response, Error>)
    ensures
        !headers_wire_safe(req@.headers) ==> (r matches Err(e) && e.kind == ErrorKind::Encoding
            && *final(session) == *old(session)),
        headers_wire_safe(req@.headers) && old(session).is_poisoned_spec() ==> (r matches Err(e)
            && e.kind == ErrorKind::Io && *final(session) == *old(session)),
        headers_wire_safe(req@.headers) && !old(session).is_poisoned_spec()
            ==> final(session).transcript_spec() == old(session).transcript_spec()
            + spec_request_bytes(req@, host@),
        (headers_wire_safe(req@.headers) && !old(session).is_poisoned_spec() && max_header_bytes
            >= 1 && step_splittable(
            max_header_bytes as nat,
            init_state(),
            old(session).remaining_spec(),
        )) ==> (match spec_cycle_end(max_header_bytes as nat, old(session).remaining_spec()) {
            SpecState::Done { head, body, leftover } => r matches Ok(resp) && resp@
                == response_model_of(head, body) && final(session).remaining_spec() == leftover
                && !final(session).is_poisoned_spec(),
            SpecState::Failed { kind } => r matches Err(e) && e.kind == kind
                && final(session).is_poisoned_spec(),
            SpecState::Headers { got } => false,
            SpecState::Body { head, body } => false,
        }),
{
    let data = match serialize_request(req, host) {
        Err(e) => {
            return Err(e);
        },
        Ok(d) => d,
    };
    match session.write_all(data.as_slice()) {
        Err(e) => {
            return Err(e);
        },
        Ok(u) => {},
    }
    let ghost max_n = max_header_bytes as nat;
    let ghost avail0 = session.remaining_spec();
    let ghost t1 = session.transcript_spec();
    let ghost gate = max_header_bytes >= 1 && step_splittable(max_n, init_state(), avail0);
    let mut parser = ResponseParser::new(max_header_bytes);
    let ghost mut consumed: Seq<u8> = Seq::empty();
    proof {
        if gate {
            lemma_wf_init(max_n);
            lemma_step_empty(max_n, init_state());
            assert(consumed + avail0 =~= avail0);
        }
        assert(consumed + session.remaining_spec() =~= avail0);
    }
    #[verifier::loop_isolation(true)]
    loop
        invariant_except_break
            gate ==> parser@ == spec_step(max_n, init_state(), consumed),
            gate ==> wf_state(max_n, spec_step(max_n, init_state(), consumed)),
        invariant
            parser.max_spec() == max_n,
            max_n == max_header_bytes as nat,
            gate == (max_header_bytes >= 1 && step_splittable(max_n, init_state(), avail0)),
            !session.is_poisoned_spec(),
            session.transcript_spec() == t1,
            consumed + session.remaining_spec() == avail0,
        ensures
            !(parser@ is Headers || parser@ is Body),
            !session.is_poisoned_spec(),
            session.transcript_spec() == t1,
            consumed + session.remaining_spec() == avail0,
            gate ==> parser@ == spec_close(spec_step(max_n, init_state(), consumed)),
            gate ==> (spec_step(max_n, init_state(), consumed) is Done || spec_step(
                max_n,
                init_state(),
                consumed,
            ) is Failed || session.remaining_spec().len() == 0),
        decreases session.remaining_spec().len(),
    {
        if !parser.needs_input() {
            proof {
                if gate {
                    assert(parser@ == spec_close(parser@));
                }
            }
            break ;
        }
        let chunk = match session.read_chunk(RECV_CHUNK) {
            Ok(c) => c,
            Err(e) => {
                proof {
                    assert(false);
                }
                return Err(e);
            },
        };
        if chunk.len() == 0 {
            proof {
                assert(session.remaining_spec().len() == 0);
            }
            parser.on_close();
            break ;
        }
        proof {
            if gate {
                let rest_new = session.remaining_spec();
                assert((consumed + chunk@) + rest_new =~= avail0);
                lemma_splittable_prefix(max_n, init_state(), consumed + chunk@, rest_new);
                lemma_wf_init(max_n);
                lemma_step_concat(max_n, init_state(), consumed, chunk@);
                lemma_step_wf(max_n, spec_step(max_n, init_state(), consumed), chunk@);
            }
        }
        parser.push_chunk(chunk.as_slice());
        proof {
            consumed = consumed + chunk@;
            assert(consumed + session.remaining_spec() =~= avail0);
        }
    }
    proof {
        if gate {
            let s1 = spec_step(max_n, init_state(), consumed);
            let rest = session.remaining_spec();
            assert(consumed + rest == avail0);
            lemma_wf_init(max_n);
            lemma_step_concat(max_n, init_state(), consumed, rest);
            if !(s1 is Done || s1 is Failed) {
                assert(rest.len() == 0);
                assert(rest =~= Seq::<u8>::empty());
                lemma_step_empty(max_n, s1);
            }
        }
    }
    match parser.finish() {
        Ok(p) => {
            let (resp, leftover) = p;
            session.unread(leftover.as_slice());
            Ok(resp)
        },
        Err(e) => {
            session.poison();
            Err(e)
        },
    }
}

/// Law: two sequential cycles on one session never interleave.  If cycle
/// one extends the transcript by its wire bytes `w1` and cycle two then
/// extends it by `w2`, the transcript is the old bytes, then all of `w1`
/// as one contiguous block, then all of `w2`: no byte of cycle two
/// precedes any byte of cycle one.
pub proof fn lemma_cycles_do_not_interleave(
    t0: Seq<u8>,
    w1: Seq<u8>,
    w2: Seq<u8>,
    t1: Seq<u8>,
    t2: Seq<u8>,
)
    requires
        t1 == t0 + w1,
        t2 == t1 + w2,
    ensures
        t2 == t0 + w1 + w2,
        t2.subrange(t0.len() as int, t0.len() as int + w1.len() as int) == w1,
        t2.subrange(t0.len() as int + w1.len() as int, t2.len() as int) == w2,
{
    assert(t2 =~= t0 + w1 + w2);
    assert(t2.subrange(t0.len() as int, t0.len() as int + w1.len() as int) =~= w1);
    assert(t2.subrange(t0.len() as int + w1.len() as int, t2.len() as int) =~= w2);
}

} // verus!

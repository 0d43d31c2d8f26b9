//! Whole-stream entry points: the byte-loop driver and the preamble copy.

use vstd::prelude::*;
use crate::machine::{
    init_model, lemma_run_snoc, run_emit, run_state, scrub_spec, Scrubber,
};
use crate::pattern::HEADER_SKIP;

verus! {

/// Run the state machine over a whole byte sequence from the initial mode.
/// Bytes still pending in the match buffer when the input ends are never
/// emitted: the stream is truncated at the last resolved byte.
pub fn scrub_bytes(input: &[u8]) -> (out: Vec<u8>)
    ensures
        out@ == scrub_spec(input@),
{
    let mut s = Scrubber::new();
    let mut out: Vec<u8> = Vec::new();
    let mut i: usize = 0;
    proof {
        assert(input@.take(0) =~= Seq::<u8>::empty());
    }
    while i < input.len()
        invariant
            i <= input@.len(),
            s.wf(),
            s@ == run_state(init_model(), input@.take(i as int)),
            out@ == run_emit(init_model(), input@.take(i as int)),
        decreases input@.len() - i,
    {
        proof {
            lemma_run_snoc(init_model(), input@.take(i as int), input@[i as int]);
            assert(input@.take(i + 1) =~= input@.take(i as int).push(input@[i as int]));
        }
        s.process_byte(input[i], &mut out);
        i += 1;
    }
    proof {
        assert(input@.take(input@.len() as int) =~= input@);
    }
    out
}

/// The one error the stream filter itself reports: the input ended before
/// the configured preamble length.
#[derive(Clone, Copy, Debug, PartialEq, Eq, Structural)]
pub enum CleanError {
    HeaderTooShort,
}

/// Clean a whole stream: copy the `HEADER_SKIP`-byte preamble verbatim,
/// never inspecting it, then filter the remainder through the state
/// machine. An input shorter than the preamble is rejected.
pub fn clean_tree(input: &[u8]) -> (r: Result<Vec<u8>, CleanError>)
    ensures
        input@.len() >= HEADER_SKIP ==> (r matches Ok(out) && out@ == input@.take(
            HEADER_SKIP as int,
        ) + scrub_spec(input@.skip(HEADER_SKIP as int))),
        input@.len() < HEADER_SKIP ==> (r matches Err(e) && e == CleanError::HeaderTooShort),
{
    if input.len() < HEADER_SKIP {
        return Err(CleanError::HeaderTooShort);
    }
    let mut out: Vec<u8> = Vec::new();
    let mut i: usize = 0;
    proof {
        assert(input@.take(0) =~= Seq::<u8>::empty());
    }
    while i < HEADER_SKIP
        invariant
            i <= HEADER_SKIP <= input@.len(),
            out@ == input@.take(i as int),
        decreases HEADER_SKIP - i,
    {
        out.push(input[i]);
        proof {
            assert(input@.take(i + 1) =~= input@.take(i as int).push(input@[i as int]));
        }
        i += 1;
    }
    let mut s = Scrubber::new();
    proof {
        assert(input@.subrange(HEADER_SKIP as int, HEADER_SKIP as int) =~= Seq::<u8>::empty());
    }
    while i < input.len()
        invariant
            HEADER_SKIP <= i <= input@.len(),
            s.wf(),
            s@ == run_state(init_model(), input@.subrange(HEADER_SKIP as int, i as int)),
            out@ == input@.take(HEADER_SKIP as int) + run_emit(
                init_model(),
                input@.subrange(HEADER_SKIP as int, i as int),
            ),
        decreases input@.len() - i,
    {
        proof {
            lemma_run_snoc(
                init_model(),
                input@.subrange(HEADER_SKIP as int, i as int),
                input@[i as int],
            );
            assert(input@.subrange(HEADER_SKIP as int, i + 1) =~= input@.subrange(
                HEADER_SKIP as int,
                i as int,
            ).push(input@[i as int]));
        }
        s.process_byte(input[i], &mut out);
        proof {
            assert(out@ =~= input@.take(HEADER_SKIP as int) + run_emit(
                init_model(),
                input@.subrange(HEADER_SKIP as int, i + 1),
            ));
        }
        i += 1;
    }
    proof {
        assert(input@.subrange(HEADER_SKIP as int, input@.len() as int) =~= input@.skip(
            HEADER_SKIP as int,
        ));
    }
    Ok(out)
}

} // verus!

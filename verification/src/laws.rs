//! Stream-level laws of the filter, stated over the mathematical model and
//! proved once and for all.

use vstd::prelude::*;
use crate::machine::{
    init_model, lemma_run_snoc, lemma_run_wf, model_wf, pending, run_emit, run_state, scrub_spec,
    start_model, step_emit, step_state, Model, State,
};
use crate::pattern::{
    pattern_a, pattern_b, CLOSE_BRACE, COMMA, EQUALS_SIGN, OPEN_PAREN, PAT_A_LEN, PAT_B_LEN,
};

verus! {

/// Processing a concatenation is processing the parts in turn.
pub proof fn lemma_run_append(m: Model, s: Seq<u8>, t: Seq<u8>)
    ensures
        run_state(m, s + t) == run_state(run_state(m, s), t),
        run_emit(m, s + t) == run_emit(m, s) + run_emit(run_state(m, s), t),
    decreases s.len(),
{
    if s.len() == 0 {
        assert(s + t =~= t);
        assert(run_state(m, s) == m);
        assert(run_emit(m, s) == Seq::<u8>::empty());
        assert(run_emit(m, s + t) =~= run_emit(m, s) + run_emit(run_state(m, s), t));
    } else {
        let c0 = s[0];
        let m1 = step_state(m, c0);
        assert((s + t)[0] == c0);
        assert((s + t).drop_first() =~= s.drop_first() + t);
        lemma_run_append(m1, s.drop_first(), t);
        assert(run_state(m, s + t) == run_state(m1, s.drop_first() + t));
        assert(run_state(m, s) == run_state(m1, s.drop_first()));
        assert(run_emit(m, s + t) == step_emit(m, c0) + run_emit(m1, s.drop_first() + t));
        assert(run_emit(m, s) == step_emit(m, c0) + run_emit(m1, s.drop_first()));
        assert(run_emit(m, s + t) =~= run_emit(m, s) + run_emit(run_state(m, s), t));
    }
}

/// Marching through a prefix of the longer marker from `Start`: every byte
/// is buffered and nothing is emitted.
pub proof fn lemma_prefix_march(k: int)
    requires
        0 < k <= PAT_B_LEN,
    ensures
        run_state(start_model(), pattern_b().take(k)) == (Model {
            state: State::Searching,
            count: k as nat,
        }),
        run_emit(start_model(), pattern_b().take(k)) == Seq::<u8>::empty(),
    decreases k,
{
    if k == 1 {
        let e = Seq::<u8>::empty();
        assert(pattern_b().take(1) =~= e.push(pattern_b()[0]));
        lemma_run_snoc(start_model(), e, pattern_b()[0]);
        assert(run_state(start_model(), e) == start_model());
        assert(run_emit(start_model(), e) == Seq::<u8>::empty());
        assert(run_emit(start_model(), pattern_b().take(1)) =~= Seq::<u8>::empty());
    } else {
        lemma_prefix_march(k - 1);
        assert(pattern_b().take(k) =~= pattern_b().take(k - 1).push(pattern_b()[k - 1]));
        lemma_run_snoc(start_model(), pattern_b().take(k - 1), pattern_b()[k - 1]);
        assert(pattern_b()[PAT_A_LEN as int] != EQUALS_SIGN);
        assert(run_emit(start_model(), pattern_b().take(k)) =~= Seq::<u8>::empty());
    }
}

/// In the first suppression mode, every byte up to the comma is consumed
/// and nothing is emitted.
pub proof fn lemma_nowrite1_skip(v: Seq<u8>)
    requires
        !v.contains(COMMA),
    ensures
        run_state((Model { state: State::NoWrite1, count: 0 }), v) == (Model {
            state: State::NoWrite1,
            count: 0,
        }),
        run_emit((Model { state: State::NoWrite1, count: 0 }), v) == Seq::<u8>::empty(),
    decreases v.len(),
{
    let m = Model { state: State::NoWrite1, count: 0 };
    if v.len() == 0 {
        assert(run_state(m, v) == m);
        assert(run_emit(m, v) == Seq::<u8>::empty());
    } else {
        assert(v[0] != COMMA) by {
            if v[0] == COMMA {
                assert(v.contains(COMMA));
            }
        }
        assert(!v.drop_first().contains(COMMA)) by {
            if v.drop_first().contains(COMMA) {
                let i = choose|i: int|
                    0 <= i < v.drop_first().len() && v.drop_first()[i] == COMMA;
                assert(v[i + 1] == COMMA);
                assert(v.contains(COMMA));
            }
        }
        lemma_nowrite1_skip(v.drop_first());
        assert(run_emit(m, v) =~= Seq::<u8>::empty());
    }
}

/// In the second suppression mode, every byte up to the closing brace is
/// consumed and nothing is emitted.
pub proof fn lemma_nowrite2_skip(v: Seq<u8>)
    requires
        !v.contains(CLOSE_BRACE),
    ensures
        run_state((Model { state: State::NoWrite2, count: 0 }), v) == (Model {
            state: State::NoWrite2,
            count: 0,
        }),
        run_emit((Model { state: State::NoWrite2, count: 0 }), v) == Seq::<u8>::empty(),
    decreases v.len(),
{
    let m = Model { state: State::NoWrite2, count: 0 };
    if v.len() == 0 {
        assert(run_state(m, v) == m);
        assert(run_emit(m, v) == Seq::<u8>::empty());
    } else {
        assert(v[0] != CLOSE_BRACE) by {
            if v[0] == CLOSE_BRACE {
                assert(v.contains(CLOSE_BRACE));
            }
        }
        assert(!v.drop_first().contains(CLOSE_BRACE)) by {
            if v.drop_first().contains(CLOSE_BRACE) {
                let i = choose|i: int|
                    0 <= i < v.drop_first().len() && v.drop_first()[i] == CLOSE_BRACE;
                assert(v[i + 1] == CLOSE_BRACE);
                assert(v.contains(CLOSE_BRACE));
            }
        }
        lemma_nowrite2_skip(v.drop_first());
        assert(run_emit(m, v) =~= Seq::<u8>::empty());
    }
}

/// Before the opening bracket, every byte passes through unchanged and the
/// filter stays in its initial mode.
pub proof fn lemma_awaiting_skip(h: Seq<u8>)
    requires
        !h.contains(OPEN_PAREN),
    ensures
        run_state(init_model(), h) == init_model(),
        run_emit(init_model(), h) == h,
    decreases h.len(),
{
    if h.len() == 0 {
        assert(run_state(init_model(), h) == init_model());
        assert(run_emit(init_model(), h) =~= h);
    } else {
        assert(h[0] != OPEN_PAREN) by {
            if h[0] == OPEN_PAREN {
                assert(h.contains(OPEN_PAREN));
            }
        }
        assert(!h.drop_first().contains(OPEN_PAREN)) by {
            if h.drop_first().contains(OPEN_PAREN) {
                let i = choose|i: int|
                    0 <= i < h.drop_first().len() && h.drop_first()[i] == OPEN_PAREN;
                assert(h[i + 1] == OPEN_PAREN);
                assert(h.contains(OPEN_PAREN));
            }
        }
        lemma_awaiting_skip(h.drop_first());
        assert(run_emit(init_model(), h) =~= seq![h[0]] + h.drop_first());
        assert(seq![h[0]] + h.drop_first() =~= h);
    }
}

/// Processing a single byte is a single step.
proof fn lemma_run_single(m: Model, c: u8)
    ensures
        run_state(m, seq![c]) == step_state(m, c),
        run_emit(m, seq![c]) == step_emit(m, c),
{
    assert(seq![c][0] == c);
    assert(seq![c].drop_first() =~= Seq::<u8>::empty());
    assert(run_state(step_state(m, c), seq![c].drop_first()) == step_state(m, c));
    assert(run_emit(step_state(m, c), seq![c].drop_first()) == Seq::<u8>::empty());
    assert(run_emit(m, seq![c]) =~= step_emit(m, c));
}

/// Mismatch replay: a candidate that matches the first `k` bytes of the
/// shorter marker and then diverges is replayed in full - the `k` matched
/// bytes and the diverging byte all reach the output unchanged and in
/// order, and the filter carries on from `Start` as if nothing had been
/// buffered.
pub proof fn lemma_mismatch_replay(k: int, c: u8, rest: Seq<u8>)
    requires
        0 < k < PAT_A_LEN,
        c != pattern_a()[k],
    ensures
        run_emit(start_model(), pattern_a().take(k).push(c) + rest) == pattern_a().take(k).push(c)
            + run_emit(start_model(), rest),
        run_state(start_model(), pattern_a().take(k).push(c) + rest) == run_state(
            start_model(),
            rest,
        ),
{
    assert(pattern_a().take(k) =~= pattern_b().take(k));
    assert(pattern_a()[k] == pattern_b()[k]);
    lemma_prefix_march(k);
    lemma_run_snoc(start_model(), pattern_b().take(k), c);
    assert(run_state(start_model(), pattern_b().take(k).push(c)) == start_model());
    assert(run_emit(start_model(), pattern_b().take(k).push(c)) =~= pattern_a().take(k).push(c));
    lemma_run_append(start_model(), pattern_b().take(k).push(c), rest);
    assert(pattern_a().take(k).push(c) + rest =~= pattern_b().take(k).push(c) + rest);
    assert(run_emit(start_model(), pattern_a().take(k).push(c) + rest) =~= pattern_a().take(
        k,
    ).push(c) + run_emit(start_model(), rest));
}

/// Removal completeness for the `key=value,` form: the shorter marker, the
/// equals sign, the whole value and the trailing comma are all removed,
/// and the surrounding stream is filtered exactly as if the construct were
/// absent.
pub proof fn lemma_removal_key_value(v: Seq<u8>, rest: Seq<u8>)
    requires
        !v.contains(COMMA),
    ensures
        run_emit(start_model(), pattern_a() + seq![EQUALS_SIGN] + v + seq![COMMA] + rest)
            == run_emit(start_model(), rest),
        run_state(start_model(), pattern_a() + seq![EQUALS_SIGN] + v + seq![COMMA] + rest)
            == run_state(start_model(), rest),
{
    let n1 = Model { state: State::NoWrite1, count: 0 };
    assert(pattern_a() =~= pattern_b().take(PAT_A_LEN as int));
    lemma_prefix_march(PAT_A_LEN as int);
    lemma_run_snoc(start_model(), pattern_b().take(PAT_A_LEN as int), EQUALS_SIGN);
    assert(pattern_a().push(EQUALS_SIGN) =~= pattern_a() + seq![EQUALS_SIGN]);
    let a = pattern_a() + seq![EQUALS_SIGN];
    assert(run_state(start_model(), a) == n1);
    assert(run_emit(start_model(), a) =~= Seq::<u8>::empty());
    lemma_run_append(start_model(), a, v);
    lemma_nowrite1_skip(v);
    let b = a + v;
    assert(run_state(start_model(), b) == n1);
    assert(run_emit(start_model(), b) =~= Seq::<u8>::empty());
    lemma_run_append(start_model(), b, seq![COMMA]);
    lemma_run_single(n1, COMMA);
    let d = b + seq![COMMA];
    assert(run_state(start_model(), d) == start_model());
    assert(run_emit(start_model(), d) =~= Seq::<u8>::empty());
    lemma_run_append(start_model(), d, rest);
    assert(run_emit(start_model(), d + rest) =~= run_emit(start_model(), rest));
}

/// Removal completeness for the `key.set={...},` form: the longer marker,
/// the equals sign, the whole braced value, anything up to the following
/// comma, and that comma are all removed, and the surrounding stream is
/// filtered exactly as if the construct were absent.
pub proof fn lemma_removal_set_form(v: Seq<u8>, w: Seq<u8>, rest: Seq<u8>)
    requires
        !v.contains(CLOSE_BRACE),
        !w.contains(COMMA),
    ensures
        run_emit(
            start_model(),
            pattern_b() + seq![EQUALS_SIGN] + v + seq![CLOSE_BRACE] + w + seq![COMMA] + rest,
        ) == run_emit(start_model(), rest),
        run_state(
            start_model(),
            pattern_b() + seq![EQUALS_SIGN] + v + seq![CLOSE_BRACE] + w + seq![COMMA] + rest,
        ) == run_state(start_model(), rest),
{
    let n1 = Model { state: State::NoWrite1, count: 0 };
    let n2 = Model { state: State::NoWrite2, count: 0 };
    assert(pattern_b() =~= pattern_b().take(PAT_B_LEN as int));
    lemma_prefix_march(PAT_B_LEN as int);
    lemma_run_snoc(start_model(), pattern_b().take(PAT_B_LEN as int), EQUALS_SIGN);
    assert(pattern_b().push(EQUALS_SIGN) =~= pattern_b() + seq![EQUALS_SIGN]);
    let a = pattern_b() + seq![EQUALS_SIGN];
    assert(run_state(start_model(), a) == n2);
    assert(run_emit(start_model(), a) =~= Seq::<u8>::empty());
    lemma_run_append(start_model(), a, v);
    lemma_nowrite2_skip(v);
    let b = a + v;
    assert(run_state(start_model(), b) == n2);
    assert(run_emit(start_model(), b) =~= Seq::<u8>::empty());
    lemma_run_append(start_model(), b, seq![CLOSE_BRACE]);
    lemma_run_single(n2, CLOSE_BRACE);
    let d = b + seq![CLOSE_BRACE];
    assert(run_state(start_model(), d) == n1);
    assert(run_emit(start_model(), d) =~= Seq::<u8>::empty());
    lemma_run_append(start_model(), d, w);
    lemma_nowrite1_skip(w);
    let e = d + w;
    assert(run_state(start_model(), e) == n1);
    assert(run_emit(start_model(), e) =~= Seq::<u8>::empty());
    lemma_run_append(start_model(), e, seq![COMMA]);
    lemma_run_single(n1, COMMA);
    let f = e + seq![COMMA];
    assert(run_state(start_model(), f) == start_model());
    assert(run_emit(start_model(), f) =~= Seq::<u8>::empty());
    lemma_run_append(start_model(), f, rest);
    assert(run_emit(start_model(), f + rest) =~= run_emit(start_model(), rest));
}

/// Pre-bracket passthrough: every byte before and including the first
/// opening bracket is copied verbatim, even if it coincidentally matches
/// marker bytes; suppression only activates after that bracket.
pub proof fn lemma_pre_bracket_passthrough(h: Seq<u8>, rest: Seq<u8>)
    requires
        !h.contains(OPEN_PAREN),
    ensures
        run_emit(init_model(), h + seq![OPEN_PAREN] + rest) == h + seq![OPEN_PAREN] + run_emit(
            start_model(),
            rest,
        ),
        run_state(init_model(), h + seq![OPEN_PAREN] + rest) == run_state(start_model(), rest),
{
    lemma_awaiting_skip(h);
    lemma_run_append(init_model(), h, seq![OPEN_PAREN]);
    lemma_run_single(init_model(), OPEN_PAREN);
    let a = h + seq![OPEN_PAREN];
    assert(run_state(init_model(), a) == start_model());
    assert(run_emit(init_model(), a) =~= a);
    lemma_run_append(init_model(), a, rest);
    assert(run_emit(init_model(), a + rest) =~= h + seq![OPEN_PAREN] + run_emit(
        start_model(),
        rest,
    ));
}

/// No occurrence of the shorter marker text anywhere in the sequence.
/// Since the shorter marker is a prefix of the longer one, this also rules
/// out every occurrence of the longer marker.
pub open spec fn no_marker_occurrence(s: Seq<u8>) -> bool {
    forall|i: int|
        0 <= i && i + PAT_A_LEN as int <= s.len() ==> #[trigger] s.subrange(
            i,
            i + PAT_A_LEN as int,
        ) != pattern_a()
}

/// A suffix of a marker-free sequence is marker-free.
proof fn lemma_no_occ_suffix(a: Seq<u8>, b: Seq<u8>)
    requires
        no_marker_occurrence(a + b),
    ensures
        no_marker_occurrence(b),
{
    assert forall|i: int| 0 <= i && i + PAT_A_LEN as int <= b.len() implies #[trigger] b.subrange(
        i,
        i + PAT_A_LEN as int,
    ) != pattern_a() by {
        assert(b.subrange(i, i + PAT_A_LEN as int) =~= (a + b).subrange(
            a.len() + i,
            a.len() + i + PAT_A_LEN as int,
        ));
    }
}

/// While the stream holds no marker occurrence, every byte is conserved:
/// what the filter has consumed equals what it has emitted plus what is
/// pending in the match buffer, and no suppression mode is ever entered.
pub proof fn lemma_conservation(m: Model, input: Seq<u8>)
    requires
        model_wf(m),
        m.state is AwaitingBracket || m.state is Start || m.state is Searching,
        m.count < PAT_A_LEN,
        no_marker_occurrence(pending(m) + input),
    ensures
        run_emit(m, input) + pending(run_state(m, input)) == pending(m) + input,
        model_wf(run_state(m, input)),
        run_state(m, input).state is AwaitingBracket || run_state(m, input).state is Start
            || run_state(m, input).state is Searching,
        run_state(m, input).count < PAT_A_LEN,
    decreases input.len(),
{
    if input.len() == 0 {
        assert(run_emit(m, input) + pending(run_state(m, input)) =~= pending(m) + input);
    } else {
        let c = input[0];
        let m1 = step_state(m, c);
        let e = step_emit(m, c);
        assert(e + pending(m1) =~= pending(m).push(c));
        assert(input =~= seq![c] + input.drop_first());
        assert(pending(m) + input =~= pending(m).push(c) + input.drop_first());
        assert(pending(m) + input =~= e + (pending(m1) + input.drop_first()));
        lemma_no_occ_suffix(e, pending(m1) + input.drop_first());
        if m1.count == PAT_A_LEN as nat {
            assert((pending(m1) + input.drop_first()).subrange(0, PAT_A_LEN as int) =~= pattern_a());
            assert(false);
        }
        lemma_conservation(m1, input.drop_first());
        assert(run_emit(m, input) + pending(run_state(m, input)) =~= e + (run_emit(
            m1,
            input.drop_first(),
        ) + pending(run_state(m1, input.drop_first()))));
        assert(run_emit(m, input) + pending(run_state(m, input)) =~= pending(m) + input);
    }
}

/// Byte conservation outside matches, exact form: on a stream containing
/// no marker occurrence, the output is the input minus exactly the
/// candidate bytes still pending in the match buffer at end of stream.
pub proof fn lemma_byte_conservation(input: Seq<u8>)
    requires
        no_marker_occurrence(input),
    ensures
        scrub_spec(input) + pending(run_state(init_model(), input)) == input,
{
    assert(pending(init_model()) =~= Seq::<u8>::empty());
    assert(pending(init_model()) + input =~= input);
    lemma_conservation(init_model(), input);
}

/// Byte conservation outside matches: on a stream containing no marker
/// occurrence that also does not end in the middle of a candidate match,
/// the output equals the input exactly.
pub proof fn lemma_byte_conservation_complete(input: Seq<u8>)
    requires
        no_marker_occurrence(input),
        run_state(init_model(), input).count == 0,
    ensures
        scrub_spec(input) == input,
{
    lemma_byte_conservation(input);
    assert(pending(run_state(init_model(), input)) =~= Seq::<u8>::empty());
    assert(scrub_spec(input) + pending(run_state(init_model(), input)) =~= scrub_spec(input));
}

/// Idempotence on clean input: when one pass leaves no marker occurrence
/// in its output and ends with no byte pending, a second pass over that
/// output returns it unchanged.
pub proof fn lemma_idempotent_on_clean_output(input: Seq<u8>)
    requires
        no_marker_occurrence(scrub_spec(input)),
        run_state(init_model(), scrub_spec(input)).count == 0,
    ensures
        scrub_spec(scrub_spec(input)) == scrub_spec(input),
{
    lemma_byte_conservation_complete(scrub_spec(input));
}

/// End-of-stream truncation: if the stream ends while a candidate match is
/// pending, the pending bytes - a prefix of the longer marker sitting at
/// the very end of the input - are never emitted, and the output equals
/// that of the input with them cut off.
pub proof fn lemma_eof_truncation(input: Seq<u8>)
    requires
        run_state(init_model(), input).state is Searching,
    ensures
        run_state(init_model(), input).count <= input.len(),
        input.skip(input.len() - run_state(init_model(), input).count) == pending(
            run_state(init_model(), input),
        ),
        scrub_spec(input) == scrub_spec(
            input.take(input.len() - run_state(init_model(), input).count),
        ),
        run_state(init_model(), input.take(input.len() - run_state(init_model(), input).count))
            == start_model(),
    decreases input.len(),
{
    lemma_run_wf(init_model(), input);
    let n = input.len() as int;
    assert(n > 0);
    let prev = input.take(n - 1);
    let c = input[n - 1];
    assert(input =~= prev.push(c));
    lemma_run_snoc(init_model(), prev, c);
    let mp = run_state(init_model(), prev);
    lemma_run_wf(init_model(), prev);
    let mf = run_state(init_model(), input);
    let k = mf.count as int;
    if mp.state is Start {
        assert(k == 1);
        assert(mp == start_model());
        assert(scrub_spec(input) =~= scrub_spec(prev));
        assert(input.skip(n - 1) =~= Seq::<u8>::empty().push(c));
        assert(input.skip(n - 1) =~= pending(mf));
    } else {
        assert(mp.state is Searching);
        lemma_eof_truncation(prev);
        assert(k == mp.count + 1);
        assert(prev.take(prev.len() - mp.count) =~= input.take(n - k));
        assert(scrub_spec(input) =~= scrub_spec(prev));
        assert(input.skip(n - k) =~= prev.skip(prev.len() - mp.count).push(c));
        assert(input.skip(n - k) =~= pending(mf));
    }
}

} // verus!

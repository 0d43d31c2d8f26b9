//! The finite-state byte filter: its mathematical model and the verified
//! executable scrubber.

use vstd::prelude::*;
use crate::pattern::{
    pattern_b, PAT_A_LEN, PAT_B_LEN, OPEN_PAREN, EQUALS_SIGN, COMMA, CLOSE_BRACE,
};

verus! {

/// The five mutually exclusive modes of the filter.
#[derive(Clone, Copy, Debug, PartialEq, Eq, Structural)]
pub enum State {
    /// Before the tree body begins: every byte passes through.
    AwaitingBracket,
    /// Normal pass-through, no candidate match in progress.
    Start,
    /// A candidate marker match is pending; nothing emitted for it yet.
    Searching,
    /// The shorter marker confirmed: suppressing bytes until a comma.
    NoWrite1,
    /// The longer marker confirmed: suppressing bytes until a closing brace.
    NoWrite2,
}

/// Whether two filter modes are the same variant.
pub fn state_eq(a: &State, b: &State) -> (r: bool)
    ensures
        r == (*a == *b),
{
    *a == *b
}

/// Mathematical model of the filter: the current mode and how many marker
/// bytes are pending in the match buffer.
pub struct Model {
    pub state: State,
    pub count: nat,
}

/// Validity of a model: the pending count never exceeds the longer marker,
/// and bytes are pending exactly in `Searching`.
pub open spec fn model_wf(m: Model) -> bool {
    &&& m.count <= PAT_B_LEN
    &&& (m.state is Searching <==> m.count > 0)
}

/// The bytes tentatively consumed but not yet emitted: always a prefix of
/// the longer marker.
pub open spec fn pending(m: Model) -> Seq<u8> {
    pattern_b().take(m.count as int)
}

/// The model the filter starts a stream in.
pub open spec fn init_model() -> Model {
    Model { state: State::AwaitingBracket, count: 0 }
}

/// The model of ordinary pass-through inside the tree body.
pub open spec fn start_model() -> Model {
    Model { state: State::Start, count: 0 }
}

/// What the buffer flush on a failed candidate emits: the pending marker
/// prefix followed by the byte that broke the match.
pub open spec fn flush_emit(count: nat, c: u8) -> Seq<u8> {
    pattern_b().take(count as int).push(c)
}

/// The model after one input byte `c`.
pub open spec fn step_state(m: Model, c: u8) -> Model {
    match m.state {
        State::AwaitingBracket => Model {
            state: if c == OPEN_PAREN { State::Start } else { State::AwaitingBracket },
            count: 0,
        },
        State::Start => if c == pattern_b()[0] {
            Model { state: State::Searching, count: 1 }
        } else {
            Model { state: State::Start, count: 0 }
        },
        State::Searching => if m.count < PAT_A_LEN {
            if c == pattern_b()[m.count as int] {
                Model { state: State::Searching, count: m.count + 1 }
            } else {
                Model { state: State::Start, count: 0 }
            }
        } else if m.count == PAT_A_LEN && c == EQUALS_SIGN {
            Model { state: State::NoWrite1, count: 0 }
        } else if m.count < PAT_B_LEN {
            if c == pattern_b()[m.count as int] {
                Model { state: State::Searching, count: m.count + 1 }
            } else {
                Model { state: State::Start, count: 0 }
            }
        } else if c == EQUALS_SIGN {
            Model { state: State::NoWrite2, count: 0 }
        } else {
            Model { state: State::Start, count: 0 }
        },
        State::NoWrite1 => Model {
            state: if c == COMMA { State::Start } else { State::NoWrite1 },
            count: 0,
        },
        State::NoWrite2 => Model {
            state: if c == CLOSE_BRACE { State::NoWrite1 } else { State::NoWrite2 },
            count: 0,
        },
    }
}

/// What one input byte `c` makes the filter emit.
pub open spec fn step_emit(m: Model, c: u8) -> Seq<u8> {
    match m.state {
        State::AwaitingBracket => seq![c],
        State::Start => if c == pattern_b()[0] {
            Seq::empty()
        } else {
            seq![c]
        },
        State::Searching => if m.count < PAT_A_LEN {
            if c == pattern_b()[m.count as int] {
                Seq::empty()
            } else {
                flush_emit(m.count, c)
            }
        } else if m.count == PAT_A_LEN && c == EQUALS_SIGN {
            Seq::empty()
        } else if m.count < PAT_B_LEN {
            if c == pattern_b()[m.count as int] {
                Seq::empty()
            } else {
                flush_emit(m.count, c)
            }
        } else if c == EQUALS_SIGN {
            Seq::empty()
        } else {
            flush_emit(m.count, c)
        },
        State::NoWrite1 => Seq::empty(),
        State::NoWrite2 => Seq::empty(),
    }
}

/// The model after a whole input sequence.
pub open spec fn run_state(m: Model, input: Seq<u8>) -> Model
    decreases input.len(),
{
    if input.len() == 0 {
        m
    } else {
        run_state(step_state(m, input[0]), input.drop_first())
    }
}

/// Everything a whole input sequence makes the filter emit.
pub open spec fn run_emit(m: Model, input: Seq<u8>) -> Seq<u8>
    decreases input.len(),
{
    if input.len() == 0 {
        Seq::empty()
    } else {
        step_emit(m, input[0]) + run_emit(step_state(m, input[0]), input.drop_first())
    }
}

/// The output of the state machine on a whole stream, from the initial mode.
pub open spec fn scrub_spec(input: Seq<u8>) -> Seq<u8> {
    run_emit(init_model(), input)
}

/// One byte preserves model validity.
pub proof fn lemma_step_wf(m: Model, c: u8)
    requires
        model_wf(m),
    ensures
        model_wf(step_state(m, c)),
{
}

/// A whole input preserves model validity.
pub proof fn lemma_run_wf(m: Model, input: Seq<u8>)
    requires
        model_wf(m),
    ensures
        model_wf(run_state(m, input)),
    decreases input.len(),
{
    if input.len() > 0 {
        lemma_step_wf(m, input[0]);
        lemma_run_wf(step_state(m, input[0]), input.drop_first());
    }
}

/// Running one more byte after a sequence is one step on the run's result.
pub proof fn lemma_run_snoc(m: Model, s: Seq<u8>, c: u8)
    ensures
        run_state(m, s.push(c)) == step_state(run_state(m, s), c),
        run_emit(m, s.push(c)) == run_emit(m, s) + step_emit(run_state(m, s), c),
    decreases s.len(),
{
    if s.len() == 0 {
        let e = Seq::<u8>::empty();
        assert(s.push(c)[0] == c);
        assert(s.push(c).drop_first() =~= e);
        assert(s =~= e);
        assert(run_state(m, s.push(c)) == run_state(step_state(m, c), e));
        assert(run_emit(m, s.push(c)) == step_emit(m, c) + run_emit(step_state(m, c), e));
        assert(run_state(step_state(m, c), e) == step_state(m, c));
        assert(run_emit(step_state(m, c), e) == Seq::<u8>::empty());
        assert(run_emit(m, s.push(c)) =~= run_emit(m, s) + step_emit(run_state(m, s), c));
    } else {
        let c0 = s[0];
        let m1 = step_state(m, c0);
        assert(s.push(c)[0] == c0);
        assert(s.push(c).drop_first() =~= s.drop_first().push(c));
        lemma_run_snoc(m1, s.drop_first(), c);
        assert(run_state(m, s.push(c)) == run_state(m1, s.drop_first().push(c)));
        assert(run_state(m, s) == run_state(m1, s.drop_first()));
        assert(run_emit(m, s.push(c)) == step_emit(m, c0) + run_emit(m1, s.drop_first().push(c)));
        assert(run_emit(m, s) == step_emit(m, c0) + run_emit(m1, s.drop_first()));
        assert(run_emit(m, s.push(c)) =~= run_emit(m, s) + step_emit(run_state(m, s), c));
    }
}

/// The executable filter: the current mode, the marker table, and the
/// match buffer of tentatively consumed bytes.
pub struct Scrubber {
    /// The longer marker; the shorter one is its prefix.
    pat: Vec<u8>,
    /// The current mode.
    state: State,
    /// The match buffer; its length is the pending count.
    buf: Vec<u8>,
}

impl View for Scrubber {
    type V = Model;

    closed spec fn view(&self) -> Model {
        Model { state: self.state, count: self.buf@.len() }
    }
}

impl Scrubber {
    /// Well-formedness: the marker table is right, and the match buffer
    /// holds exactly the pending prefix of the longer marker.
    pub closed spec fn wf(self) -> bool {
        &&& self.pat@ == pattern_b()
        &&& self.buf@ == pending(self@)
        &&& model_wf(self@)
    }

    /// A fresh filter at the start of a stream.
    pub fn new() -> (s: Self)
        ensures
            s.wf(),
            s@ == init_model(),
    {
        let s = Scrubber {
            pat: crate::pattern::pattern_b_bytes(),
            state: State::AwaitingBracket,
            buf: Vec::new(),
        };
        proof {
            assert(s.buf@ =~= pending(s@));
        }
        s
    }

    /// Flush on a failed candidate: replay the whole match buffer plus the
    /// byte that broke the match, in original order, and return to `Start`.
    fn flush_buffer(&mut self, c: u8, out: &mut Vec<u8>)
        requires
            old(self).wf(),
            old(self).state is Searching,
        ensures
            final(self).wf(),
            final(self)@ == start_model(),
            final(self).pat@ == pattern_b(),
            final(out)@ == old(out)@ + flush_emit(old(self)@.count, c),
    {
        self.buf.push(c);
        let ghost full = self.buf@;
        proof {
            assert(full =~= flush_emit(old(self)@.count, c));
        }
        let mut i: usize = 0;
        while i < self.buf.len()
            invariant
                i <= self.buf@.len(),
                self.buf@ == full,
                out@ == old(out)@ + full.take(i as int),
            decreases self.buf@.len() - i,
        {
            out.push(self.buf[i]);
            proof {
                assert(full.take(i + 1) =~= full.take(i as int).push(full[i as int]));
                assert(out@ =~= old(out)@ + full.take(i + 1));
            }
            i += 1;
        }
        proof {
            assert(full.take(full.len() as int) =~= full);
        }
        self.buf.clear();
        self.state = State::Start;
        proof {
            assert(self.buf@ =~= pending(self@));
        }
    }

    /// Process one input byte: the mode and match buffer advance as the
    /// model prescribes, and exactly the prescribed bytes are appended to
    /// the output.
    ///
    /// The well-formedness invariant bounds the pending count by the
    /// longer marker's length, so the matching algorithm's case split is
    /// exhaustive: the fatal internal-error path that an unchecked
    /// implementation would need for an out-of-range counter is proved
    /// unreachable here.
    pub fn process_byte(&mut self, c: u8, out: &mut Vec<u8>)
        requires
            old(self).wf(),
        ensures
            final(self).wf(),
            final(self)@ == step_state(old(self)@, c),
            final(out)@ == old(out)@ + step_emit(old(self)@, c),
    {
        match self.state {
            State::AwaitingBracket => {
                out.push(c);
                if c == OPEN_PAREN {
                    self.state = State::Start;
                }
                proof {
                    assert(final(out)@ =~= old(out)@ + step_emit(old(self)@, c));
                }
            },
            State::Start => {
                if c == self.pat[0] {
                    self.buf.push(c);
                    self.state = State::Searching;
                    proof {
                        assert(self.buf@ =~= pending(self@));
                        assert(out@ =~= old(out)@ + step_emit(old(self)@, c));
                    }
                } else {
                    out.push(c);
                    proof {
                        assert(out@ =~= old(out)@ + step_emit(old(self)@, c));
                    }
                }
            },
            State::Searching => {
                let k = self.buf.len();
                if k < PAT_A_LEN {
                    if c == self.pat[k] {
                        self.buf.push(c);
                        proof {
                            assert(self.buf@ =~= pending(self@));
                            assert(out@ =~= old(out)@ + step_emit(old(self)@, c));
                        }
                    } else {
                        self.flush_buffer(c, out);
                    }
                } else if k == PAT_A_LEN && c == EQUALS_SIGN {
                    self.state = State::NoWrite1;
                    self.buf.clear();
                    proof {
                        assert(self.buf@ =~= pending(self@));
                        assert(out@ =~= old(out)@ + step_emit(old(self)@, c));
                    }
                } else if k < PAT_B_LEN {
                    if c == self.pat[k] {
                        self.buf.push(c);
                        proof {
                            assert(self.buf@ =~= pending(self@));
                            assert(out@ =~= old(out)@ + step_emit(old(self)@, c));
                        }
                    } else {
                        self.flush_buffer(c, out);
                    }
                } else if c == EQUALS_SIGN {
                    self.state = State::NoWrite2;
                    self.buf.clear();
                    proof {
                        assert(self.buf@ =~= pending(self@));
                        assert(out@ =~= old(out)@ + step_emit(old(self)@, c));
                    }
                } else {
                    self.flush_buffer(c, out);
                }
            },
            State::NoWrite1 => {
                if c == COMMA {
                    self.state = State::Start;
                }
                proof {
                    assert(out@ =~= old(out)@ + step_emit(old(self)@, c));
                }
            },
            State::NoWrite2 => {
                if c == CLOSE_BRACE {
                    self.state = State::NoWrite1;
                }
                proof {
                    assert(out@ =~= old(out)@ + step_emit(old(self)@, c));
                }
            },
        }
    }
}

} // verus!

use crate::error::Error;
use crate::sink::{grew_within, lemma_grew_within_joined, lemma_grew_within_longer, Sink};
use vstd::prelude::*;

verus! {

/// What an encoding step amounts to: the text it emits and, if a rule was
/// broken, the error that stopped it. The text is what was emitted before the
/// stop.
pub ghost struct Outcome {
    pub text: Seq<char>,
    pub fault: Option<Error>,
}

impl Outcome {
    /// A step that emits `text` and breaks no rule.
    pub open spec fn emit(text: Seq<char>) -> Outcome {
        Outcome { text, fault: None }
    }

    /// A step that emits nothing and stops with `error`.
    pub open spec fn stop(error: Error) -> Outcome {
        Outcome { text: Seq::empty(), fault: Some(error) }
    }

    /// This step followed by `next`, which is not reached if this one stopped.
    pub open spec fn followed_by(self, next: Outcome) -> Outcome {
        if self.fault is Some {
            self
        } else {
            Outcome { text: self.text + next.text, fault: next.fault }
        }
    }

    /// What a caller gets back once the step is over.
    pub open spec fn result(self) -> Result<(), Error> {
        match self.fault {
            None => Ok(()),
            Some(e) => Err(e),
        }
    }
}

/// How a step with outcome `o` shows on a sink and in the result `r`.
///
/// The sink stays what it is. Unless the sink itself reported a fault, the
/// result is the outcome's, and a recorded sink has grown by exactly the
/// outcome's text. Only an unreliable sink reports a fault, and a recorded
/// one has grown by a beginning of that text.
pub open spec fn delivers<W: Sink>(before: W, after: W, r: Result<(), Error>, o: Outcome) -> bool {
    &&& after.recorded() == before.recorded()
    &&& after.reliable() == before.reliable()
    &&& match r {
        Err(Error::Fmt(_)) => !before.reliable() && (before.recorded() ==> grew_within(
            before.text(),
            after.text(),
            o.text,
        )),
        _ => r == o.result() && (before.recorded() ==> after.text() == before.text() + o.text),
    }
}

/// Steps in a row may be grouped either way.
pub proof fn lemma_followed_by_assoc(a: Outcome, b: Outcome, c: Outcome)
    ensures
        a.followed_by(b).followed_by(c) == a.followed_by(b.followed_by(c)),
{
    assert((a.text + b.text) + c.text =~= a.text + (b.text + c.text));
}

/// A step that went through, followed by another, is the two in a row.
pub proof fn lemma_delivers_both<W: Sink>(
    start: W,
    mid: W,
    end: W,
    r: Result<(), Error>,
    first: Outcome,
    second: Outcome,
)
    requires
        delivers(start, mid, Ok(()), first),
        delivers(mid, end, r, second),
    ensures
        delivers(start, end, r, first.followed_by(second)),
{
    assert((start.text() + first.text) + second.text =~= start.text() + (first.text
        + second.text));
    if start.recorded() && r is Err && r->Err_0 is Fmt {
        lemma_grew_within_joined(start.text(), end.text(), first.text, second.text);
    }
}

/// A step that stopped is all that shows of it and whatever was to follow.
pub proof fn lemma_delivers_stop<W: Sink>(
    start: W,
    end: W,
    error: Error,
    first: Outcome,
    second: Outcome,
)
    requires
        delivers(start, end, Err(error), first),
    ensures
        delivers(start, end, Err(error), first.followed_by(second)),
{
    if start.recorded() && error is Fmt {
        let whole = first.followed_by(second).text;
        assert(first.text.is_prefix_of(whole));
        lemma_grew_within_longer(start.text(), end.text(), first.text, whole);
    }
}

} // verus!

use vstd::prelude::*;

verus! {

/// Whether `after` is `before` with a beginning of `text` behind it: none of
/// it, some of it or all of it.
pub open spec fn grew_within(before: Seq<char>, after: Seq<char>, text: Seq<char>) -> bool {
    before.is_prefix_of(after) && after.is_prefix_of(before + text)
}

/// An append-only destination for text. A write appends the whole fragment,
/// or reports a fault and leaves at most a beginning of the fragment behind.
///
/// A sink may say nothing of itself: it is then neither recorded nor
/// reliable, and only its results are reasoned about.
pub trait Sink {
    /// Whether `text` tells what the sink holds.
    open spec fn recorded(&self) -> bool {
        false
    }

    /// Everything the sink has accepted so far, if it is recorded.
    open spec fn text(&self) -> Seq<char> {
        Seq::empty()
    }

    /// Whether the sink never reports a fault.
    open spec fn reliable(&self) -> bool {
        false
    }

    /// Appends `s`.
    fn write_str(&mut self, s: &str) -> (r: Result<(), core::fmt::Error>)
        ensures
            final(self).recorded() == old(self).recorded(),
            final(self).reliable() == old(self).reliable(),
            old(self).reliable() ==> r is Ok,
            old(self).recorded() && r is Ok ==> final(self).text() == old(self).text() + s@,
            old(self).recorded() && r is Err ==> grew_within(
                old(self).text(),
                final(self).text(),
                s@,
            ),
    ;

    /// Appends the single character `c`.
    fn write_char(&mut self, c: char) -> (r: Result<(), core::fmt::Error>)
        ensures
            final(self).recorded() == old(self).recorded(),
            final(self).reliable() == old(self).reliable(),
            old(self).reliable() ==> r is Ok,
            old(self).recorded() && r is Ok ==> final(self).text() == old(self).text().push(c),
            old(self).recorded() && r is Err ==> grew_within(
                old(self).text(),
                final(self).text(),
                seq![c],
            ),
    ;
}

/// How a write of `text` shows on a sink and in the result `r`: the sink stays
/// what it is, a reliable sink accepts, and a recorded sink has grown by
/// exactly `text` if it accepted and by at most a beginning of it if not.
pub open spec fn appends<W: Sink>(
    before: W,
    after: W,
    r: Result<(), core::fmt::Error>,
    text: Seq<char>,
) -> bool {
    &&& after.recorded() == before.recorded()
    &&& after.reliable() == before.reliable()
    &&& before.reliable() ==> r is Ok
    &&& before.recorded() && r is Ok ==> after.text() == before.text() + text
    &&& before.recorded() && r is Err ==> grew_within(before.text(), after.text(), text)
}

/// What grew within a text grew within any longer text that begins with it.
pub proof fn lemma_grew_within_longer(
    before: Seq<char>,
    after: Seq<char>,
    text: Seq<char>,
    longer: Seq<char>,
)
    requires
        grew_within(before, after, text),
        text.is_prefix_of(longer),
    ensures
        grew_within(before, after, longer),
{
    assert(after =~= (before + longer).subrange(0, after.len() as int)) by {
        assert forall|i: int| 0 <= i < after.len() implies after[i] == (before + longer)[i] by {
            assert(after[i] == (before + text)[i]);
            if i >= before.len() {
                assert(text[i - before.len()] == longer[i - before.len()]);
            }
        }
    }
}

/// What grew within `second` after `first` was appended grew within the two
/// joined.
pub proof fn lemma_grew_within_joined(
    before: Seq<char>,
    after: Seq<char>,
    first: Seq<char>,
    second: Seq<char>,
)
    requires
        grew_within(before + first, after, second),
    ensures
        grew_within(before, after, first + second),
{
    assert((before + first) + second =~= before + (first + second));
    assert(before =~= after.subrange(0, before.len() as int)) by {
        assert forall|i: int| 0 <= i < before.len() implies before[i] == after[i] by {
            assert((before + first)[i] == after[i]);
        }
    }
}

/// Two writes in a row amount to one write of the joined text.
pub proof fn lemma_appends_twice<W: Sink>(
    start: W,
    mid: W,
    end: W,
    r: Result<(), core::fmt::Error>,
    first: Seq<char>,
    second: Seq<char>,
)
    requires
        appends(start, mid, Ok(()), first),
        appends(mid, end, r, second),
    ensures
        appends(start, end, r, first + second),
{
    assert((start.text() + first) + second =~= start.text() + (first + second));
    if start.recorded() && r is Err {
        lemma_grew_within_joined(start.text(), end.text(), first, second);
    }
}

/// `String::push`: the string afterwards is the string before with `c` at its end.
#[verifier::external_body]
fn string_push(s: &mut String, c: char)
    ensures
        final(s)@ == old(s)@.push(c),
{
    s.push(c)
}

/// A `String` keeps all it is given and never fails.
impl Sink for String {
    open spec fn recorded(&self) -> bool {
        true
    }

    open spec fn text(&self) -> Seq<char> {
        self@
    }

    open spec fn reliable(&self) -> bool {
        true
    }

    fn write_str(&mut self, s: &str) -> (r: Result<(), core::fmt::Error>) {
        self.append(s);
        Ok(())
    }

    fn write_char(&mut self, c: char) -> (r: Result<(), core::fmt::Error>) {
        string_push(self, c);
        Ok(())
    }
}

} // verus!

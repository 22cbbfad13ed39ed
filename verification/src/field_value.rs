use crate::decimal::{decimal, signed_decimal, write_decimal, write_signed_decimal};
use crate::sink::{
    appends, lemma_appends_twice, lemma_grew_within_joined, lemma_grew_within_longer, Sink,
};
use vstd::prelude::*;

verus! {

/// The value of a field.
#[derive(Clone, Copy, Debug)]
pub enum FieldValue<'a> {
    /// A double, held as its decimal text: what `Display` gives for the
    /// number. The text goes into the line as it is.
    Float(&'a str),
    /// A signed integer.
    Integer(i64),
    /// An unsigned integer.
    UInteger(u64),
    /// A text.
    String(&'a str),
    /// A truth value.
    Boolean(bool),
}

/// What a `FieldValue` holds.
pub ghost enum FieldContent {
    Float(Seq<char>),
    Integer(int),
    UInteger(nat),
    String(Seq<char>),
    Boolean(bool),
}

impl<'a> View for FieldValue<'a> {
    type V = FieldContent;

    open spec fn view(&self) -> FieldContent {
        match *self {
            FieldValue::Float(text) => FieldContent::Float(text@),
            FieldValue::Integer(v) => FieldContent::Integer(v as int),
            FieldValue::UInteger(v) => FieldContent::UInteger(v as nat),
            FieldValue::String(text) => FieldContent::String(text@),
            FieldValue::Boolean(v) => FieldContent::Boolean(v),
        }
    }
}

impl<'a> DeepView for FieldValue<'a> {
    type V = FieldContent;

    open spec fn deep_view(&self) -> FieldContent {
        self.view()
    }
}

/// The text that stands for `c` inside a quoted string value: the quote and
/// the backslash get a backslash, every other character stands for itself.
pub open spec fn quote_char(c: char) -> Seq<char> {
    if c == '"' || c == '\\' {
        seq!['\\', c]
    } else {
        seq![c]
    }
}

/// The inside of a quoted string value: each character by `quote_char`.
pub open spec fn quoted(s: Seq<char>) -> Seq<char>
    decreases s.len(),
{
    if s.len() == 0 {
        Seq::empty()
    } else {
        quoted(s.drop_last()) + quote_char(s.last())
    }
}

/// Quoting a longer beginning of `s` goes on from where a shorter one ended.
pub proof fn lemma_quoted_grows(s: Seq<char>, a: int, b: int)
    requires
        0 <= a <= b <= s.len(),
    ensures
        quoted(s.take(a)).is_prefix_of(quoted(s.take(b))),
    decreases b - a,
{
    if a < b {
        lemma_quoted_grows(s, a, b - 1);
        assert(s.take(b).drop_last() =~= s.take(b - 1));
    }
}

/// The text of a field value in a line.
pub open spec fn rendered(value: FieldContent) -> Seq<char> {
    match value {
        FieldContent::Float(text) => text,
        FieldContent::Integer(v) => signed_decimal(v).push('i'),
        FieldContent::UInteger(v) => decimal(v).push('u'),
        FieldContent::String(text) => seq!['"'] + quoted(text) + seq!['"'],
        FieldContent::Boolean(v) => if v {
            seq!['t', 'r', 'u', 'e']
        } else {
            seq!['f', 'a', 'l', 's', 'e']
        },
    }
}

/// Writes the inside of a quoted string value.
fn write_quoted<W: Sink>(writer: &mut W, text: &str) -> (r: Result<(), core::fmt::Error>)
    ensures
        appends(*old(writer), *final(writer), r, quoted(text@)),
{
    for c in it: text.chars()
        invariant
            it.seq() == text@,
            writer.recorded() == old(writer).recorded(),
            writer.reliable() == old(writer).reliable(),
            writer.recorded() ==> writer.text() == old(writer).text() + quoted(
                text@.take(it.index() as int),
            ),
    {
        proof {
            assert(text@.take(it.index() + 1).drop_last() =~= text@.take(it.index() as int));
            reveal_strlit("\\\"");
            reveal_strlit("\\\\");
            assert("\\\""@ =~= seq!['\\', '"']);
            assert("\\\\"@ =~= seq!['\\', '\\']);
        }
        let w = if c == '"' {
            writer.write_str("\\\"")
        } else if c == '\\' {
            writer.write_str("\\\\")
        } else {
            writer.write_char(c)
        };
        match w {
            Ok(()) => {},
            Err(e) => {
                proof {
                    if writer.recorded() {
                        let i = it.index() as int;
                        lemma_quoted_grows(text@, i + 1, text@.len() as int);
                        assert(text@.take(text@.len() as int) =~= text@);
                        lemma_grew_within_joined(
                            old(writer).text(),
                            writer.text(),
                            quoted(text@.take(i)),
                            quote_char(c),
                        );
                        lemma_grew_within_longer(
                            old(writer).text(),
                            writer.text(),
                            quoted(text@.take(i + 1)),
                            quoted(text@),
                        );
                    }
                }
                return Err(e);
            },
        }
    }
    proof {
        assert(text@.take(text@.len() as int) =~= text@);
    }
    Ok(())
}

impl<'a> FieldValue<'a> {
    /// Writes the value as it stands in a line. Nothing is refused: a string
    /// value may hold a newline and be of any length.
    pub fn to_writer<W: Sink>(&self, writer: &mut W) -> (r: Result<(), core::fmt::Error>)
        ensures
            appends(*old(writer), *final(writer), r, rendered(self@)),
    {
        match *self {
            FieldValue::Float(text) => writer.write_str(text),
            FieldValue::Integer(v) => {
                match write_signed_decimal(writer, v) {
                    Ok(()) => {},
                    Err(e) => {
                        return Err(e);
                    },
                }
                writer.write_char('i')
            },
            FieldValue::UInteger(v) => {
                match write_decimal(writer, v) {
                    Ok(()) => {},
                    Err(e) => {
                        return Err(e);
                    },
                }
                writer.write_char('u')
            },
            FieldValue::String(text) => {
                match writer.write_char('"') {
                    Ok(()) => {},
                    Err(e) => {
                        return Err(e);
                    },
                }
                let ghost opened = *writer;
                match write_quoted(writer, text) {
                    Ok(()) => {},
                    Err(e) => {
                        return Err(e);
                    },
                }
                let ghost filled = *writer;
                let r = writer.write_char('"');
                proof {
                    assert(old(writer).text().push('"') =~= old(writer).text() + seq!['"']);
                    assert(filled.text().push('"') =~= filled.text() + seq!['"']);
                    lemma_appends_twice(*old(writer), opened, filled, Ok(()), seq!['"'], quoted(text@));
                    lemma_appends_twice(
                        *old(writer),
                        filled,
                        *writer,
                        r,
                        seq!['"'] + quoted(text@),
                        seq!['"'],
                    );
                }
                r
            },
            FieldValue::Boolean(v) => {
                proof {
                    reveal_strlit("true");
                    reveal_strlit("false");
                    assert("true"@ =~= seq!['t', 'r', 'u', 'e']);
                    assert("false"@ =~= seq!['f', 'a', 'l', 's', 'e']);
                }
                if v {
                    writer.write_str("true")
                } else {
                    writer.write_str("false")
                }
            },
        }
    }
}

} // verus!

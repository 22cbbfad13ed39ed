use crate::error::Error;
use crate::outcome::{delivers, Outcome};
use crate::sink::{lemma_grew_within_joined, lemma_grew_within_longer, Sink};
use vstd::prelude::*;

verus! {

/// The longest measurement name, tag key, tag value or field key, in bytes.
pub const MAX_STRING_LENGTH: usize = 65536;

/// Number of bytes that `s` takes in UTF-8.
pub open spec fn byte_len(s: Seq<char>) -> nat {
    vstd::utf8::encode_utf8(s).len()
}

/// Whether `c` separates parts of a line and so needs a backslash. The equals
/// sign separates only from the tag block on, so a measurement name passes
/// `equals` as false.
pub open spec fn is_delimiter(c: char, equals: bool) -> bool {
    c == ',' || c == ' ' || (equals && c == '=')
}

/// The text that stands for `c` in a line.
pub open spec fn escape_char(c: char, equals: bool) -> Seq<char> {
    if is_delimiter(c, equals) {
        seq!['\\', c]
    } else {
        seq![c]
    }
}

/// The text that stands for `s` in a line: each character by `escape_char`.
pub open spec fn escaped(s: Seq<char>, equals: bool) -> Seq<char>
    decreases s.len(),
{
    if s.len() == 0 {
        Seq::empty()
    } else {
        escaped(s.drop_last(), equals) + escape_char(s.last(), equals)
    }
}

/// Number of characters of `s` that come before its first newline.
pub open spec fn first_newline(s: Seq<char>) -> nat
    decreases s.len(),
{
    if s.len() == 0 || s[0] == '\n' {
        0
    } else {
        1 + first_newline(s.drop_first())
    }
}

/// Emitting `s` escaped: all of it, or what comes before its first newline
/// and then the error.
pub open spec fn escape_outcome(s: Seq<char>, equals: bool) -> Outcome {
    let n = first_newline(s) as int;
    Outcome {
        text: escaped(s.take(n), equals),
        fault: if n < s.len() { Some(Error::Newline) } else { None },
    }
}

/// `first_newline(s)` is the one position up to which `s` has no newline and
/// at which it has one or ends.
pub proof fn lemma_first_newline(s: Seq<char>, n: int)
    requires
        0 <= n <= s.len(),
        forall|i: int| 0 <= i < n ==> s[i] != '\n',
        n < s.len() ==> s[n] == '\n',
    ensures
        first_newline(s) == n,
    decreases s.len(),
{
    if s.len() == 0 || s[0] == '\n' {
    } else {
        lemma_first_newline(s.drop_first(), n - 1);
    }
}

/// `s` has no newline before `n`, so its first newline is not before `n`.
pub proof fn lemma_first_newline_from(s: Seq<char>, n: int)
    requires
        0 <= n <= s.len(),
        forall|i: int| 0 <= i < n ==> s[i] != '\n',
    ensures
        n <= first_newline(s) <= s.len(),
    decreases s.len(),
{
    if s.len() == 0 || s[0] == '\n' {
    } else if n == 0 {
        lemma_first_newline_from(s.drop_first(), 0);
    } else {
        lemma_first_newline_from(s.drop_first(), n - 1);
    }
}

/// Escaping a longer beginning of `s` goes on from where a shorter one ended.
pub proof fn lemma_escaped_grows(s: Seq<char>, equals: bool, a: int, b: int)
    requires
        0 <= a <= b <= s.len(),
    ensures
        escaped(s.take(a), equals).is_prefix_of(escaped(s.take(b), equals)),
    decreases b - a,
{
    if a < b {
        lemma_escaped_grows(s, equals, a, b - 1);
        assert(s.take(b).drop_last() =~= s.take(b - 1));
    }
}

/// Accepts `value` if it is at most 64 KiB long.
pub fn check_string_length(value: &str) -> (r: Result<(), Error>)
    ensures
        r is Ok <==> byte_len(value@) <= MAX_STRING_LENGTH,
        r is Err ==> r->Err_0 is StringLengthLimit,
{
    if value.as_bytes().len() <= MAX_STRING_LENGTH {
        Ok(())
    } else {
        Err(Error::StringLengthLimit)
    }
}

/// Writes `value` escaped, up to its first newline if it has one.
pub(crate) fn escape_with<W: Sink>(writer: &mut W, value: &str, equals: bool) -> (r: Result<
    (),
    Error,
>)
    ensures
        delivers(*old(writer), *final(writer), r, escape_outcome(value@, equals)),
{
    for c in it: value.chars()
        invariant
            it.seq() == value@,
            writer.recorded() == old(writer).recorded(),
            writer.reliable() == old(writer).reliable(),
            writer.recorded() ==> writer.text() == old(writer).text() + escaped(
                value@.take(it.index() as int),
                equals,
            ),
            forall|i: int| 0 <= i < it.index() ==> value@[i] != '\n',
    {
        proof {
            assert(value@.take(it.index() + 1).drop_last() =~= value@.take(it.index() as int));
        }
        if c == '\n' {
            proof {
                lemma_first_newline(value@, it.index() as int);
            }
            return Err(Error::Newline);
        }
        let w = if c == ',' {
            writer.write_str("\\,")
        } else if c == ' ' {
            writer.write_str("\\ ")
        } else if equals && c == '=' {
            writer.write_str("\\=")
        } else {
            writer.write_char(c)
        };
        proof {
            reveal_strlit("\\,");
            reveal_strlit("\\ ");
            reveal_strlit("\\=");
            assert("\\,"@ =~= seq!['\\', ',']);
            assert("\\ "@ =~= seq!['\\', ' ']);
            assert("\\="@ =~= seq!['\\', '=']);
        }
        match w {
            Ok(()) => {},
            Err(e) => {
                proof {
                    if writer.recorded() {
                        let i = it.index() as int;
                        let n = first_newline(value@) as int;
                        lemma_first_newline_from(value@, i + 1);
                        lemma_escaped_grows(value@, equals, i + 1, n);
                        lemma_grew_within_joined(
                            old(writer).text(),
                            writer.text(),
                            escaped(value@.take(i), equals),
                            escape_char(c, equals),
                        );
                        lemma_grew_within_longer(
                            old(writer).text(),
                            writer.text(),
                            escaped(value@.take(i + 1), equals),
                            escaped(value@.take(n), equals),
                        );
                    }
                }
                return Err(Error::from(e));
            },
        }
    }
    proof {
        lemma_first_newline(value@, value@.len() as int);
        assert(value@.take(value@.len() as int) =~= value@);
    }
    Ok(())
}

/// Writes a tag key, tag value or field key: comma, equals sign and space
/// each get a backslash, and a newline is refused.
pub fn escape<W: Sink>(writer: &mut W, value: &str) -> (r: Result<(), Error>)
    ensures
        delivers(*old(writer), *final(writer), r, escape_outcome(value@, true)),
{
    escape_with(writer, value, true)
}

} // verus!

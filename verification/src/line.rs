use crate::decimal::{signed_decimal, write_signed_decimal};
use crate::error::Error;
use crate::escape::{byte_len, check_string_length, escape_outcome, escape_with, MAX_STRING_LENGTH};
use crate::field_value::{rendered, FieldContent, FieldValue};
use crate::outcome::{delivers, lemma_delivers_stop, lemma_delivers_both, Outcome};
use crate::sink::Sink;
use vstd::prelude::*;

verus! {

/// Whether `s` begins with an underscore.
pub open spec fn starts_with_underscore(s: Seq<char>) -> bool {
    s.len() > 0 && s[0] == '_'
}

/// A measurement name, tag key or field key: its length is checked, then its
/// first character, then it is emitted escaped. Only a measurement name passes
/// `equals` as false.
pub open spec fn name_outcome(name: Seq<char>, equals: bool) -> Outcome {
    if byte_len(name) > MAX_STRING_LENGTH {
        Outcome::stop(Error::StringLengthLimit)
    } else if starts_with_underscore(name) {
        Outcome::stop(Error::NamingRestrictions)
    } else {
        escape_outcome(name, equals)
    }
}

/// A tag value: its length is checked, then it is emitted escaped.
pub open spec fn tag_value_outcome(value: Seq<char>) -> Outcome {
    if byte_len(value) > MAX_STRING_LENGTH {
        Outcome::stop(Error::StringLengthLimit)
    } else {
        escape_outcome(value, true)
    }
}

/// One tag: a comma, the key, an equals sign, the value.
pub open spec fn tag_outcome(tag: (Seq<char>, Seq<char>)) -> Outcome {
    Outcome::emit(seq![',']).followed_by(name_outcome(tag.0, true)).followed_by(Outcome::emit(seq!['='])).followed_by(
        tag_value_outcome(tag.1),
    )
}

/// The tags, in the order given.
pub open spec fn tags_outcome(tags: Seq<(Seq<char>, Seq<char>)>) -> Outcome
    decreases tags.len(),
{
    if tags.len() == 0 {
        Outcome::emit(Seq::empty())
    } else {
        tag_outcome(tags[0]).followed_by(tags_outcome(tags.drop_first()))
    }
}

/// One field: a space before the first and a comma before each other one,
/// the key, an equals sign, the value.
pub open spec fn field_outcome(first: bool, field: (Seq<char>, FieldContent)) -> Outcome {
    Outcome::emit(seq![if first { ' ' } else { ',' }]).followed_by(name_outcome(field.0, true)).followed_by(
        Outcome::emit(seq!['=']),
    ).followed_by(Outcome::emit(rendered(field.1)))
}

/// The fields, in the order given; `first` says whether the block opens here.
pub open spec fn fields_outcome(fields: Seq<(Seq<char>, FieldContent)>, first: bool) -> Outcome
    decreases fields.len(),
{
    if fields.len() == 0 {
        Outcome::emit(Seq::empty())
    } else {
        field_outcome(first, fields[0]).followed_by(fields_outcome(fields.drop_first(), false))
    }
}

/// The field block, which needs at least one field.
pub open spec fn field_block_outcome(fields: Seq<(Seq<char>, FieldContent)>) -> Outcome {
    if fields.len() == 0 {
        Outcome::stop(Error::EmptyFieldSet)
    } else {
        fields_outcome(fields, true)
    }
}

/// The timestamp, if there is one: a space and the number.
pub open spec fn timestamp_outcome(timestamp: Option<i64>) -> Outcome {
    match timestamp {
        None => Outcome::emit(Seq::empty()),
        Some(t) => Outcome::emit(seq![' '] + signed_decimal(t as int)),
    }
}

/// A whole line: measurement name, tags, field block, timestamp, newline.
pub open spec fn line_outcome(
    measurement: Seq<char>,
    tags: Seq<(Seq<char>, Seq<char>)>,
    fields: Seq<(Seq<char>, FieldContent)>,
    timestamp: Option<i64>,
) -> Outcome {
    name_outcome(measurement, false).followed_by(tags_outcome(tags)).followed_by(
        field_block_outcome(fields),
    ).followed_by(timestamp_outcome(timestamp)).followed_by(Outcome::emit(seq!['\n']))
}

/// Writes the one character `c`.
fn put<W: Sink>(writer: &mut W, c: char) -> (r: Result<(), Error>)
    ensures
        delivers(*old(writer), *final(writer), r, Outcome::emit(seq![c])),
{
    match writer.write_char(c) {
        Ok(()) => {
            assert(old(writer).text().push(c) =~= old(writer).text() + seq![c]);
            Ok(())
        },
        Err(e) => Err(Error::from(e)),
    }
}

/// Whether `name` begins with an underscore.
fn begins_with_underscore(name: &str) -> (b: bool)
    ensures
        b == starts_with_underscore(name@),
{
    let mut chars = name.chars();
    match chars.next() {
        Some(c) => c == '_',
        None => false,
    }
}

/// Checks and writes a measurement name, tag key or field key.
fn write_name<W: Sink>(writer: &mut W, name: &str, equals: bool) -> (r: Result<(), Error>)
    ensures
        delivers(*old(writer), *final(writer), r, name_outcome(name@, equals)),
{
    match check_string_length(name) {
        Ok(()) => {},
        Err(e) => {
            return Err(e);
        },
    }
    if begins_with_underscore(name) {
        return Err(Error::NamingRestrictions);
    }
    escape_with(writer, name, equals)
}

/// Checks and writes a tag value.
fn write_tag_value<W: Sink>(writer: &mut W, value: &str) -> (r: Result<(), Error>)
    ensures
        delivers(*old(writer), *final(writer), r, tag_value_outcome(value@)),
{
    match check_string_length(value) {
        Ok(()) => {},
        Err(e) => {
            return Err(e);
        },
    }
    escape_with(writer, value, true)
}

/// Writes one tag.
fn write_tag<W: Sink>(writer: &mut W, key: &str, value: &str) -> (r: Result<(), Error>)
    ensures
        delivers(*old(writer), *final(writer), r, tag_outcome((key@, value@))),
{
    let ghost comma = Outcome::emit(seq![',']);
    let ghost with_key = comma.followed_by(name_outcome(key@, true));
    let ghost with_equals = with_key.followed_by(Outcome::emit(seq!['=']));
    let ghost rest = tag_value_outcome(value@);

    match put(writer, ',') {
        Ok(()) => {},
        Err(e) => {
            proof {
                lemma_delivers_stop(*old(writer), *writer, e, comma, name_outcome(key@, true));
                lemma_delivers_stop(*old(writer), *writer, e, with_key, Outcome::emit(seq!['=']));
                lemma_delivers_stop(*old(writer), *writer, e, with_equals, rest);
            }
            return Err(e);
        },
    }
    let ghost after_comma = *writer;
    let named = write_name(writer, key, true);
    proof {
        lemma_delivers_both(
            *old(writer),
            after_comma,
            *writer,
            named,
            comma,
            name_outcome(key@, true),
        );
    }
    match named {
        Ok(()) => {},
        Err(e) => {
            proof {
                lemma_delivers_stop(*old(writer), *writer, e, with_key, Outcome::emit(seq!['=']));
                lemma_delivers_stop(*old(writer), *writer, e, with_equals, rest);
            }
            return Err(e);
        },
    }
    let ghost after_key = *writer;
    let equals = put(writer, '=');
    proof {
        lemma_delivers_both(
            *old(writer),
            after_key,
            *writer,
            equals,
            with_key,
            Outcome::emit(seq!['=']),
        );
    }
    match equals {
        Ok(()) => {},
        Err(e) => {
            proof {
                lemma_delivers_stop(*old(writer), *writer, e, with_equals, rest);
            }
            return Err(e);
        },
    }
    let ghost after_equals = *writer;
    let r = write_tag_value(writer, value);
    proof {
        lemma_delivers_both(*old(writer), after_equals, *writer, r, with_equals, rest);
    }
    r
}

/// Writes the tags, in the order given.
fn write_tags<W: Sink>(writer: &mut W, tag_set: &[(&str, &str)]) -> (r: Result<(), Error>)
    ensures
        delivers(*old(writer), *final(writer), r, tags_outcome(tag_set.deep_view())),
{
    let ghost tags = tag_set.deep_view();
    let ghost mut done = Outcome::emit(Seq::empty());
    proof {
        assert(tags.skip(0) =~= tags);
        assert(old(writer).text() + Seq::<char>::empty() =~= old(writer).text());
        assert(done.followed_by(tags_outcome(tags)) == tags_outcome(tags)) by {
            assert(Seq::<char>::empty() + tags_outcome(tags).text =~= tags_outcome(tags).text);
        }
    }
    let mut i: usize = 0;
    while i < tag_set.len()
        invariant
            i <= tag_set.len(),
            tags == tag_set.deep_view(),
            done.fault is None,
            delivers(*old(writer), *writer, Ok(()), done),
            done.followed_by(tags_outcome(tags.skip(i as int))) == tags_outcome(tags),
        decreases tag_set.len() - i,
    {
        let (key, value) = tag_set[i];
        let ghost before = *writer;
        let ghost step = tag_outcome(tags[i as int]);
        let ghost rest = tags_outcome(tags.skip(i + 1));
        proof {
            assert(tags[i as int] == (key@, value@));
            assert(tags.skip(i as int).drop_first() =~= tags.skip(i + 1));
            assert(tags_outcome(tags.skip(i as int)) == step.followed_by(rest));
            assert(done.followed_by(step).followed_by(rest) == done.followed_by(
                step.followed_by(rest),
            )) by {
                assert((done.text + step.text) + rest.text =~= done.text + (step.text
                    + rest.text));
            }
        }
        let r = write_tag(writer, key, value);
        proof {
            lemma_delivers_both(*old(writer), before, *writer, r, done, step);
        }
        match r {
            Ok(()) => {},
            Err(e) => {
                proof {
                    lemma_delivers_stop(*old(writer), *writer, e, done.followed_by(step), rest);
                }
                return Err(e);
            },
        }
        proof {
            done = done.followed_by(step);
        }
        i = i + 1;
    }
    proof {
        assert(tags.skip(i as int).len() == 0);
        assert(done.text + Seq::<char>::empty() =~= done.text);
    }
    Ok(())
}

/// Writes a field value.
fn write_field_value<W: Sink>(writer: &mut W, value: &FieldValue<'_>) -> (r: Result<(), Error>)
    ensures
        delivers(*old(writer), *final(writer), r, Outcome::emit(rendered(value@))),
{
    match value.to_writer(writer) {
        Ok(()) => Ok(()),
        Err(e) => Err(Error::from(e)),
    }
}

/// Writes one field, after a space if it is the first and a comma if not.
fn write_field<W: Sink>(writer: &mut W, first: bool, key: &str, value: &FieldValue<'_>) -> (r:
    Result<(), Error>)
    ensures
        delivers(*old(writer), *final(writer), r, field_outcome(first, (key@, value@))),
{
    let separator = if first {
        ' '
    } else {
        ','
    };
    let ghost opened = Outcome::emit(seq![separator]);
    let ghost with_key = opened.followed_by(name_outcome(key@, true));
    let ghost with_equals = with_key.followed_by(Outcome::emit(seq!['=']));
    let ghost rest = Outcome::emit(rendered(value@));

    match put(writer, separator) {
        Ok(()) => {},
        Err(e) => {
            proof {
                lemma_delivers_stop(*old(writer), *writer, e, opened, name_outcome(key@, true));
                lemma_delivers_stop(*old(writer), *writer, e, with_key, Outcome::emit(seq!['=']));
                lemma_delivers_stop(*old(writer), *writer, e, with_equals, rest);
            }
            return Err(e);
        },
    }
    let ghost after_separator = *writer;
    let named = write_name(writer, key, true);
    proof {
        lemma_delivers_both(
            *old(writer),
            after_separator,
            *writer,
            named,
            opened,
            name_outcome(key@, true),
        );
    }
    match named {
        Ok(()) => {},
        Err(e) => {
            proof {
                lemma_delivers_stop(*old(writer), *writer, e, with_key, Outcome::emit(seq!['=']));
                lemma_delivers_stop(*old(writer), *writer, e, with_equals, rest);
            }
            return Err(e);
        },
    }
    let ghost after_key = *writer;
    let equals = put(writer, '=');
    proof {
        lemma_delivers_both(
            *old(writer),
            after_key,
            *writer,
            equals,
            with_key,
            Outcome::emit(seq!['=']),
        );
    }
    match equals {
        Ok(()) => {},
        Err(e) => {
            proof {
                lemma_delivers_stop(*old(writer), *writer, e, with_equals, rest);
            }
            return Err(e);
        },
    }
    let ghost after_equals = *writer;
    let r = write_field_value(writer, value);
    proof {
        lemma_delivers_both(*old(writer), after_equals, *writer, r, with_equals, rest);
    }
    r
}

/// Writes the field block, and refuses an empty one.
fn write_fields<W: Sink>(writer: &mut W, field_set: &[(&str, FieldValue<'_>)]) -> (r: Result<
    (),
    Error,
>)
    ensures
        delivers(*old(writer), *final(writer), r, field_block_outcome(field_set.deep_view())),
{
    let ghost fields = field_set.deep_view();
    let ghost mut done = Outcome::emit(Seq::empty());
    proof {
        assert(fields.skip(0) =~= fields);
        assert(old(writer).text() + Seq::<char>::empty() =~= old(writer).text());
        assert(done.followed_by(fields_outcome(fields, true)) == fields_outcome(fields, true)) by {
            assert(Seq::<char>::empty() + fields_outcome(fields, true).text =~= fields_outcome(
                fields,
                true,
            ).text);
        }
    }
    let mut count: usize = 0;
    while count < field_set.len()
        invariant
            count <= field_set.len(),
            fields == field_set.deep_view(),
            done.fault is None,
            delivers(*old(writer), *writer, Ok(()), done),
            done.followed_by(fields_outcome(fields.skip(count as int), count == 0))
                == fields_outcome(fields, true),
        decreases field_set.len() - count,
    {
        let (key, value) = field_set[count];
        let ghost before = *writer;
        let ghost step = field_outcome(count == 0, fields[count as int]);
        let ghost rest = fields_outcome(fields.skip(count + 1), false);
        proof {
            assert(fields[count as int] == (key@, value@));
            assert(fields.skip(count as int).drop_first() =~= fields.skip(count + 1));
            assert(fields_outcome(fields.skip(count as int), count == 0) == step.followed_by(
                rest,
            ));
            assert(done.followed_by(step).followed_by(rest) == done.followed_by(
                step.followed_by(rest),
            )) by {
                assert((done.text + step.text) + rest.text =~= done.text + (step.text
                    + rest.text));
            }
        }
        let r = write_field(writer, count == 0, key, &value);
        proof {
            lemma_delivers_both(*old(writer), before, *writer, r, done, step);
        }
        match r {
            Ok(()) => {},
            Err(e) => {
                proof {
                    lemma_delivers_stop(*old(writer), *writer, e, done.followed_by(step), rest);
                }
                return Err(e);
            },
        }
        proof {
            done = done.followed_by(step);
        }
        count = count + 1;
    }
    if count == 0 {
        return Err(Error::EmptyFieldSet);
    }
    proof {
        assert(fields.skip(count as int).len() == 0);
        assert(done.text + Seq::<char>::empty() =~= done.text);
    }
    Ok(())
}

/// Writes the timestamp, if there is one, after a space.
fn write_timestamp<W: Sink>(writer: &mut W, timestamp: Option<i64>) -> (r: Result<(), Error>)
    ensures
        delivers(*old(writer), *final(writer), r, timestamp_outcome(timestamp)),
{
    match timestamp {
        None => {
            assert(old(writer).text() + Seq::<char>::empty() =~= old(writer).text());
            Ok(())
        },
        Some(t) => {
            match put(writer, ' ') {
                Ok(()) => {},
                Err(e) => {
                    return Err(e);
                },
            }
            let ghost spaced = *writer;
            match write_signed_decimal(writer, t) {
                Ok(()) => {
                    assert((old(writer).text() + seq![' ']) + signed_decimal(t as int)
                        =~= old(writer).text() + (seq![' '] + signed_decimal(t as int)));
                    Ok(())
                },
                Err(e) => Err(Error::from(e)),
            }
        },
    }
}

/// Encodes one point as a line and writes it to `writer`.
///
/// The parts are checked and written in order: measurement name, tags, fields,
/// timestamp, and a newline at the end. The first rule that is broken ends the
/// call with its error; what was written before stays in the sink.
pub fn to_writer<W: Sink>(
    writer: &mut W,
    measurement: &str,
    tag_set: &[(&str, &str)],
    field_set: &[(&str, FieldValue<'_>)],
    timestamp: Option<i64>,
) -> (r: Result<(), Error>)
    ensures
        delivers(
            *old(writer),
            *final(writer),
            r,
            line_outcome(measurement@, tag_set.deep_view(), field_set.deep_view(), timestamp),
        ),
{
    let ghost name = name_outcome(measurement@, false);
    let ghost tags = tags_outcome(tag_set.deep_view());
    let ghost fields = field_block_outcome(field_set.deep_view());
    let ghost time = timestamp_outcome(timestamp);
    let ghost end = Outcome::emit(seq!['\n']);
    let ghost with_tags = name.followed_by(tags);
    let ghost with_fields = with_tags.followed_by(fields);
    let ghost with_time = with_fields.followed_by(time);

    match write_name(writer, measurement, false) {
        Ok(()) => {},
        Err(e) => {
            proof {
                lemma_delivers_stop(*old(writer), *writer, e, name, tags);
                lemma_delivers_stop(*old(writer), *writer, e, with_tags, fields);
                lemma_delivers_stop(*old(writer), *writer, e, with_fields, time);
                lemma_delivers_stop(*old(writer), *writer, e, with_time, end);
            }
            return Err(e);
        },
    }
    let ghost named = *writer;
    let tagged = write_tags(writer, tag_set);
    proof {
        lemma_delivers_both(*old(writer), named, *writer, tagged, name, tags);
    }
    match tagged {
        Ok(()) => {},
        Err(e) => {
            proof {
                lemma_delivers_stop(*old(writer), *writer, e, with_tags, fields);
                lemma_delivers_stop(*old(writer), *writer, e, with_fields, time);
                lemma_delivers_stop(*old(writer), *writer, e, with_time, end);
            }
            return Err(e);
        },
    }
    let ghost after_tags = *writer;
    let fielded = write_fields(writer, field_set);
    proof {
        lemma_delivers_both(*old(writer), after_tags, *writer, fielded, with_tags, fields);
    }
    match fielded {
        Ok(()) => {},
        Err(e) => {
            proof {
                lemma_delivers_stop(*old(writer), *writer, e, with_fields, time);
                lemma_delivers_stop(*old(writer), *writer, e, with_time, end);
            }
            return Err(e);
        },
    }
    let ghost after_fields = *writer;
    let timed = write_timestamp(writer, timestamp);
    proof {
        lemma_delivers_both(*old(writer), after_fields, *writer, timed, with_fields, time);
    }
    match timed {
        Ok(()) => {},
        Err(e) => {
            proof {
                lemma_delivers_stop(*old(writer), *writer, e, with_time, end);
            }
            return Err(e);
        },
    }
    let ghost after_time = *writer;
    let r = put(writer, '\n');
    proof {
        lemma_delivers_both(*old(writer), after_time, *writer, r, with_time, end);
    }
    r
}

/// Encodes one point as a line.
///
/// The line is returned whole or not at all: on an error nothing of it is
/// handed out.
pub fn to_string(
    measurement: &str,
    tag_set: &[(&str, &str)],
    field_set: &[(&str, FieldValue<'_>)],
    timestamp: Option<i64>,
) -> (r: Result<String, Error>)
    ensures
        match r {
            Ok(line) => line_outcome(
                measurement@,
                tag_set.deep_view(),
                field_set.deep_view(),
                timestamp,
            ) == Outcome::emit(line@),
            Err(e) => line_outcome(
                measurement@,
                tag_set.deep_view(),
                field_set.deep_view(),
                timestamp,
            ).fault == Some(e),
        },
{
    let mut string = String::new();
    match to_writer(&mut string, measurement, tag_set, field_set, timestamp) {
        Ok(()) => {
            assert(Seq::<char>::empty() + string@ =~= string@);
            Ok(string)
        },
        Err(e) => Err(e),
    }
}

} // verus!

use crate::error::Error;
use crate::escape::{byte_len, escaped, is_delimiter, MAX_STRING_LENGTH};
use crate::field_value::FieldContent;
use crate::line::{
    field_outcome, fields_outcome, line_outcome, name_outcome, starts_with_underscore,
    tag_outcome, tag_value_outcome, tags_outcome,
};
use crate::outcome::{delivers, lemma_followed_by_assoc, Outcome};
use crate::sink::Sink;
use vstd::prelude::*;

verus! {

/// Encoding is a function of its arguments: two runs of a step with the same
/// outcome, on reliable recorded sinks that held the same text, end with the
/// same result and the same text.
pub proof fn lemma_same_arguments_same_line<W: Sink, V: Sink>(
    before: W,
    after: W,
    r: Result<(), Error>,
    other_before: V,
    other_after: V,
    other_r: Result<(), Error>,
    o: Outcome,
)
    requires
        before.reliable(),
        before.recorded(),
        other_before.reliable(),
        other_before.recorded(),
        before.text() == other_before.text(),
        delivers(before, after, r, o),
        delivers(other_before, other_after, other_r, o),
    ensures
        r == other_r,
        after.text() == other_after.text(),
{
}

/// Number of characters of `s` that get a backslash.
pub open spec fn delimiter_count(s: Seq<char>, equals: bool) -> nat
    decreases s.len(),
{
    if s.len() == 0 {
        0
    } else {
        delimiter_count(s.drop_last(), equals) + if is_delimiter(s.last(), equals) {
            1nat
        } else {
            0nat
        }
    }
}

/// Where the character at `i` of `s` stands in `escaped(s, equals)`: behind
/// the characters before it and the backslashes put in up to it.
pub open spec fn place(s: Seq<char>, equals: bool, i: int) -> int {
    i + delimiter_count(s.take(i + 1), equals)
}

/// Escaping adds one character for each delimiter and none else.
pub proof fn lemma_escaped_len(s: Seq<char>, equals: bool)
    ensures
        escaped(s, equals).len() == s.len() + delimiter_count(s, equals),
    decreases s.len(),
{
    if s.len() > 0 {
        lemma_escaped_len(s.drop_last(), equals);
    }
}

/// Each character of `s` stands unaltered in the escaped text, right behind
/// the place of the character before it, but for one backslash in between if
/// it is a comma, a space or (where `equals` holds) an equals sign.
pub proof fn lemma_escaped_place(s: Seq<char>, equals: bool, i: int)
    requires
        0 <= i < s.len(),
    ensures
        0 <= place(s, equals, i) < escaped(s, equals).len(),
        escaped(s, equals)[place(s, equals, i)] == s[i],
        place(s, equals, i) == (if i == 0 {
            0
        } else {
            place(s, equals, i - 1) + 1
        }) + (if is_delimiter(s[i], equals) {
            1int
        } else {
            0int
        }),
        is_delimiter(s[i], equals) ==> escaped(s, equals)[place(s, equals, i) - 1] == '\\',
        i == s.len() - 1 ==> place(s, equals, i) == escaped(s, equals).len() - 1,
    decreases s.len(),
{
    let front = s.drop_last();
    lemma_escaped_len(s, equals);
    lemma_escaped_len(front, equals);
    assert(s.take(i + 1).drop_last() =~= s.take(i));
    if i > 0 {
        assert(s.take(i).last() == s[i - 1]);
    }
    if i < s.len() - 1 {
        lemma_escaped_place(front, equals, i);
        assert(front.take(i + 1) =~= s.take(i + 1));
        assert(front.take(i) =~= s.take(i));
    } else {
        assert(s.take(i + 1) =~= s);
    }
}

/// The length limit is checked first and is the only source of its error: a
/// measurement name, tag key or field key is refused for its length exactly
/// if it takes more than 65536 bytes.
pub proof fn lemma_name_length_ceiling(name: Seq<char>, equals: bool)
    ensures
        byte_len(name) > MAX_STRING_LENGTH <==> name_outcome(name, equals).fault == Some(
            Error::StringLengthLimit,
        ),
        byte_len(name) > MAX_STRING_LENGTH ==> name_outcome(name, equals).text.len() == 0,
{
}

/// A tag value is refused for its length exactly if it takes more than 65536
/// bytes.
pub proof fn lemma_tag_value_length_ceiling(value: Seq<char>)
    ensures
        byte_len(value) > MAX_STRING_LENGTH <==> tag_value_outcome(value).fault == Some(
            Error::StringLengthLimit,
        ),
        byte_len(value) > MAX_STRING_LENGTH ==> tag_value_outcome(value).text.len() == 0,
{
}

/// The tags up to `i`, and then those from `i` on, are all the tags.
pub proof fn lemma_tags_split(tags: Seq<(Seq<char>, Seq<char>)>, i: int)
    requires
        0 <= i <= tags.len(),
    ensures
        tags_outcome(tags) == tags_outcome(tags.take(i)).followed_by(
            tags_outcome(tags.skip(i)),
        ),
    decreases i,
{
    if i == 0 {
        assert(tags.skip(0) =~= tags);
        assert(Seq::<char>::empty() + tags_outcome(tags).text =~= tags_outcome(tags).text);
    } else {
        let rest = tags.drop_first();
        lemma_tags_split(rest, i - 1);
        assert(tags.take(i).drop_first() =~= rest.take(i - 1));
        assert(rest.skip(i - 1) =~= tags.skip(i));
        lemma_followed_by_assoc(
            tag_outcome(tags[0]),
            tags_outcome(rest.take(i - 1)),
            tags_outcome(tags.skip(i)),
        );
    }
}

/// The fields up to `i`, and then those from `i` on, are all the fields; the
/// block opens at the first of them.
pub proof fn lemma_fields_split(fields: Seq<(Seq<char>, FieldContent)>, first: bool, i: int)
    requires
        0 <= i <= fields.len(),
    ensures
        fields_outcome(fields, first) == fields_outcome(fields.take(i), first).followed_by(
            fields_outcome(fields.skip(i), first && i == 0),
        ),
    decreases i,
{
    if i == 0 {
        assert(fields.skip(0) =~= fields);
        assert(Seq::<char>::empty() + fields_outcome(fields, first).text =~= fields_outcome(
            fields,
            first,
        ).text);
    } else {
        let rest = fields.drop_first();
        lemma_fields_split(rest, false, i - 1);
        assert(fields.take(i).drop_first() =~= rest.take(i - 1));
        assert(rest.skip(i - 1) =~= fields.skip(i));
        lemma_followed_by_assoc(
            field_outcome(first, fields[0]),
            fields_outcome(rest.take(i - 1), false),
            fields_outcome(fields.skip(i), false),
        );
    }
}

/// A point without fields is never encoded, whatever its tags: where the
/// measurement name and the tags break no rule, the error is `EmptyFieldSet`
/// and the name and the tags are all that was emitted.
pub proof fn lemma_empty_field_set(
    measurement: Seq<char>,
    tags: Seq<(Seq<char>, Seq<char>)>,
    fields: Seq<(Seq<char>, FieldContent)>,
    timestamp: Option<i64>,
)
    requires
        fields.len() == 0,
    ensures
        line_outcome(measurement, tags, fields, timestamp).fault is Some,
        name_outcome(measurement, false).fault is None && tags_outcome(tags).fault is None
            ==> line_outcome(measurement, tags, fields, timestamp) == (Outcome {
            text: name_outcome(measurement, false).text + tags_outcome(tags).text,
            fault: Some(Error::EmptyFieldSet),
        }),
{
    let name = name_outcome(measurement, false);
    let tagged = tags_outcome(tags);
    if name.fault is None && tagged.fault is None {
        assert((name.text + tagged.text) + Seq::<char>::empty() =~= name.text + tagged.text);
    }
}

/// A measurement name that begins with an underscore, and is not too long, is
/// refused with `NamingRestrictions` before anything is emitted.
pub proof fn lemma_underscore_in_measurement(
    measurement: Seq<char>,
    tags: Seq<(Seq<char>, Seq<char>)>,
    fields: Seq<(Seq<char>, FieldContent)>,
    timestamp: Option<i64>,
)
    requires
        starts_with_underscore(measurement),
        byte_len(measurement) <= MAX_STRING_LENGTH,
    ensures
        line_outcome(measurement, tags, fields, timestamp) == Outcome::stop(
            Error::NamingRestrictions,
        ),
{
}

/// A tag key that begins with an underscore, and is not too long, is refused
/// with `NamingRestrictions` if nothing before it broke a rule. Emitted are
/// the measurement name, the tags before it and the comma that opens it.
pub proof fn lemma_underscore_in_tag_key(
    measurement: Seq<char>,
    tags: Seq<(Seq<char>, Seq<char>)>,
    fields: Seq<(Seq<char>, FieldContent)>,
    timestamp: Option<i64>,
    i: int,
)
    requires
        0 <= i < tags.len(),
        starts_with_underscore(tags[i].0),
        byte_len(tags[i].0) <= MAX_STRING_LENGTH,
        name_outcome(measurement, false).fault is None,
        tags_outcome(tags.take(i)).fault is None,
    ensures
        line_outcome(measurement, tags, fields, timestamp) == (Outcome {
            text: name_outcome(measurement, false).text + tags_outcome(tags.take(i)).text
                + seq![','],
            fault: Some(Error::NamingRestrictions),
        }),
{
    let name = name_outcome(measurement, false);
    let before = tags_outcome(tags.take(i));
    lemma_tags_split(tags, i);
    assert(tags.skip(i)[0] == tags[i]);
    assert(tag_outcome(tags[i]) == (Outcome {
        text: seq![','],
        fault: Some(Error::NamingRestrictions),
    })) by {
        assert(seq![','] + Seq::<char>::empty() =~= seq![',']);
    }
    assert(name.text + (before.text + seq![',']) =~= name.text + before.text + seq![',']);
}

/// A field key that begins with an underscore, and is not too long, is
/// refused with `NamingRestrictions` if nothing before it broke a rule.
/// Emitted are the measurement name, the tags, the fields before it and the
/// separator that opens it: a space before the first field, a comma before
/// any other.
pub proof fn lemma_underscore_in_field_key(
    measurement: Seq<char>,
    tags: Seq<(Seq<char>, Seq<char>)>,
    fields: Seq<(Seq<char>, FieldContent)>,
    timestamp: Option<i64>,
    i: int,
)
    requires
        0 <= i < fields.len(),
        starts_with_underscore(fields[i].0),
        byte_len(fields[i].0) <= MAX_STRING_LENGTH,
        name_outcome(measurement, false).fault is None,
        tags_outcome(tags).fault is None,
        fields_outcome(fields.take(i), true).fault is None,
    ensures
        line_outcome(measurement, tags, fields, timestamp) == (Outcome {
            text: name_outcome(measurement, false).text + tags_outcome(tags).text
                + fields_outcome(fields.take(i), true).text + seq![if i == 0 {
                ' '
            } else {
                ','
            }],
            fault: Some(Error::NamingRestrictions),
        }),
{
    let name = name_outcome(measurement, false);
    let tagged = tags_outcome(tags);
    let before = fields_outcome(fields.take(i), true);
    let separator = if i == 0 {
        ' '
    } else {
        ','
    };
    lemma_fields_split(fields, true, i);
    assert(fields.skip(i)[0] == fields[i]);
    assert(field_outcome(i == 0, fields[i]) == (Outcome {
        text: seq![separator],
        fault: Some(Error::NamingRestrictions),
    })) by {
        assert(seq![separator] + Seq::<char>::empty() =~= seq![separator]);
    }
    assert((name.text + tagged.text) + (before.text + seq![separator]) =~= name.text
        + tagged.text + before.text + seq![separator]);
}

} // verus!

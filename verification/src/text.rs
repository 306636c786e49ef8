//! Lines of text and the fields on a line.
//!
//! Text is a sequence of bytes. A line ends with a newline byte or with the
//! text; a field is a maximal run of bytes that are not whitespace.

use vstd::prelude::*;
use vstd::slice::{slice_subrange, slice_to_vec};

verus! {

/// The byte that ends a line.
pub const NEWLINE: u8 = 0x0a;

/// Whether `byte` separates fields: a space, a tab, a newline, a vertical
/// tab, a form feed or a carriage return.
pub open spec fn is_space(byte: u8) -> bool {
    byte == 0x20 || (0x09 <= byte && byte <= 0x0d)
}

/// Whether every byte of `text` is whitespace.
pub open spec fn is_blank(text: Seq<u8>) -> bool {
    forall|i: int| 0 <= i < text.len() ==> is_space(#[trigger] text[i])
}

/// Whether `text` holds no newline.
pub open spec fn is_line(text: Seq<u8>) -> bool {
    forall|i: int| 0 <= i < text.len() ==> #[trigger] text[i] != NEWLINE
}

/// The length of the first line of `text`, its newline included.
pub open spec fn line_len(text: Seq<u8>) -> nat
    decreases text.len(),
{
    if text.len() == 0 {
        0
    } else if text[0] == NEWLINE {
        1
    } else {
        1 + line_len(text.skip(1))
    }
}

/// The number of bytes at the start of `text` before the first whitespace.
pub open spec fn word_len(text: Seq<u8>) -> nat
    decreases text.len(),
{
    if text.len() == 0 || is_space(text[0]) {
        0
    } else {
        1 + word_len(text.skip(1))
    }
}

/// The fields of `text`, in order.
pub open spec fn fields_of(text: Seq<u8>) -> Seq<Seq<u8>>
    decreases text.len(),
    via fields_of_terminates
{
    if text.len() == 0 {
        Seq::empty()
    } else if is_space(text[0]) {
        fields_of(text.skip(1))
    } else {
        seq![text.take(word_len(text) as int)] + fields_of(text.skip(word_len(text) as int))
    }
}

#[via_fn]
proof fn fields_of_terminates(text: Seq<u8>) {
    lemma_word_len_bounds(text);
}

/// A word is no longer than its text, and is not empty where the text
/// begins with a byte that is no whitespace.
pub proof fn lemma_word_len_bounds(text: Seq<u8>)
    ensures
        word_len(text) <= text.len(),
        text.len() > 0 && !is_space(text[0]) ==> word_len(text) >= 1,
    decreases text.len(),
{
    if text.len() > 0 && !is_space(text[0]) {
        lemma_word_len_bounds(text.skip(1));
    }
}

/// A line is no longer than its text, and is not empty where the text is
/// not.
pub proof fn lemma_line_len_bounds(text: Seq<u8>)
    ensures
        line_len(text) <= text.len(),
        text.len() > 0 ==> line_len(text) >= 1,
    decreases text.len(),
{
    if text.len() > 0 && text[0] != NEWLINE {
        lemma_line_len_bounds(text.skip(1));
    }
}

/// Text has no field exactly if it is blank.
pub proof fn lemma_no_field_iff_blank(text: Seq<u8>)
    ensures
        fields_of(text).len() == 0 <==> is_blank(text),
    decreases text.len(),
{
    if text.len() > 0 && is_space(text[0]) {
        let rest = text.skip(1);
        lemma_no_field_iff_blank(rest);
        if is_blank(rest) {
            assert forall|i: int| 0 <= i < text.len() implies is_space(#[trigger] text[i]) by {
                if i > 0 {
                    assert(text[i] == rest[i - 1]);
                }
            }
        }
        if is_blank(text) {
            assert forall|i: int| 0 <= i < rest.len() implies is_space(#[trigger] rest[i]) by {
                assert(rest[i] == text[i + 1]);
            }
        }
    }
}

/// Whether `text` can be a field: it is not empty and holds no whitespace.
pub open spec fn is_word(text: Seq<u8>) -> bool {
    &&& text.len() > 0
    &&& forall|i: int| 0 <= i < text.len() ==> !is_space(#[trigger] text[i])
}

/// The first word of a text holds no whitespace.
proof fn lemma_word_is_solid(text: Seq<u8>)
    ensures
        forall|i: int| 0 <= i < word_len(text) ==> !is_space(#[trigger] text[i]),
    decreases text.len(),
{
    if text.len() > 0 && !is_space(text[0]) {
        lemma_word_is_solid(text.skip(1));
        lemma_word_len_bounds(text);
        assert forall|i: int| 0 <= i < word_len(text) implies !is_space(#[trigger] text[i]) by {
            if i > 0 {
                assert(text[i] == text.skip(1)[i - 1]);
            }
        }
    }
}

/// Each field of a text is a word.
pub proof fn lemma_fields_are_words(text: Seq<u8>)
    ensures
        forall|k: int| 0 <= k < fields_of(text).len() ==> is_word(#[trigger] fields_of(text)[k]),
    decreases text.len(),
{
    if text.len() == 0 {
        assert(fields_of(text).len() == 0);
    } else if is_space(text[0]) {
        lemma_fields_are_words(text.skip(1));
        assert(fields_of(text) == fields_of(text.skip(1)));
    } else {
        let n = word_len(text) as int;
        lemma_word_len_bounds(text);
        lemma_word_is_solid(text);
        lemma_fields_are_words(text.skip(n));
        let later = fields_of(text.skip(n));
        assert forall|k: int| 0 <= k < fields_of(text).len() implies is_word(
            #[trigger] fields_of(text)[k],
        ) by {
            if k > 0 {
                assert(fields_of(text)[k] == later[k - 1]);
            } else {
                let first = text.take(n);
                assert(fields_of(text)[0] == first);
                assert forall|i: int| 0 <= i < first.len() implies !is_space(
                    #[trigger] first[i],
                ) by {
                    assert(first[i] == text[i]);
                }
            }
        }
    }
}

/// The text of `lines`, each with a newline after it.
pub open spec fn join_lines(lines: Seq<Seq<u8>>) -> Seq<u8>
    decreases lines.len(),
{
    if lines.len() == 0 {
        Seq::empty()
    } else {
        lines[0] + seq![NEWLINE] + join_lines(lines.skip(1))
    }
}

/// The first line of a text is what stands before its first newline, and
/// that newline.
pub proof fn lemma_first_line(line: Seq<u8>, rest: Seq<u8>)
    requires
        is_line(line),
    ensures
        line_len(line + seq![NEWLINE] + rest) == line.len() + 1,
    decreases line.len(),
{
    let text = line + seq![NEWLINE] + rest;
    if line.len() > 0 {
        assert(text[0] == line[0]);
        assert(text.skip(1) =~= line.skip(1) + seq![NEWLINE] + rest);
        assert forall|i: int| 0 <= i < line.skip(1).len() implies #[trigger] line.skip(1)[i]
            != NEWLINE by {
            assert(line.skip(1)[i] == line[i + 1]);
        }
        lemma_first_line(line.skip(1), rest);
    }
}

/// Whitespace after a text does not lengthen its first word.
proof fn lemma_word_len_push(text: Seq<u8>, byte: u8)
    requires
        is_space(byte),
    ensures
        word_len(text.push(byte)) == word_len(text),
    decreases text.len(),
{
    if text.len() > 0 && !is_space(text[0]) {
        assert(text.push(byte).skip(1) =~= text.skip(1).push(byte));
        lemma_word_len_push(text.skip(1), byte);
    }
}

/// Whitespace after a text adds no field to it.
pub proof fn lemma_trailing_space(text: Seq<u8>, byte: u8)
    requires
        is_space(byte),
    ensures
        fields_of(text.push(byte)) == fields_of(text),
    decreases text.len(),
{
    let longer = text.push(byte);
    if text.len() == 0 {
        assert(longer.skip(1) =~= Seq::<u8>::empty());
        assert(fields_of(longer.skip(1)) =~= Seq::<Seq<u8>>::empty());
    } else if is_space(text[0]) {
        assert(longer.skip(1) =~= text.skip(1).push(byte));
        lemma_trailing_space(text.skip(1), byte);
    } else {
        let n = word_len(text) as int;
        lemma_word_len_bounds(text);
        lemma_word_len_push(text, byte);
        assert(longer.take(n) =~= text.take(n));
        assert(longer.skip(n) =~= text.skip(n).push(byte));
        lemma_trailing_space(text.skip(n), byte);
    }
}

fn is_space_byte(byte: u8) -> (space: bool)
    ensures
        space == is_space(byte),
{
    byte == 0x20 || (0x09 <= byte && byte <= 0x0d)
}

/// The end of the line that begins at `from`: the index after its newline,
/// or the end of the text.
pub(crate) fn line_end(source: &[u8], from: usize) -> (end: usize)
    requires
        from <= source@.len(),
    ensures
        from <= end <= source@.len(),
        end == from + line_len(source@.skip(from as int)),
{
    let mut i = from;
    while i < source.len() && source[i] != NEWLINE
        invariant
            from <= i <= source@.len(),
            line_len(source@.skip(from as int)) == (i - from) + line_len(source@.skip(i as int)),
        decreases source@.len() - i,
    {
        assert(source@.skip(i as int).skip(1) =~= source@.skip(i + 1));
        i += 1;
    }
    if i < source.len() {
        i + 1
    } else {
        i
    }
}

/// The bounds of the first field of `source[from..end]`, or `None` where
/// that text is blank.
pub(crate) fn next_field(source: &[u8], from: usize, end: usize) -> (found: Option<(usize, usize)>)
    requires
        from <= end <= source@.len(),
    ensures
        match found {
            None => fields_of(source@.subrange(from as int, end as int)).len() == 0,
            Some((start, stop)) => {
                &&& from <= start < stop <= end
                &&& fields_of(source@.subrange(from as int, end as int)) == seq![
                    source@.subrange(start as int, stop as int),
                ] + fields_of(source@.subrange(stop as int, end as int))
            },
        },
{
    let mut start = from;
    while start < end && is_space_byte(source[start])
        invariant
            from <= start <= end <= source@.len(),
            fields_of(source@.subrange(from as int, end as int)) == fields_of(
                source@.subrange(start as int, end as int),
            ),
        decreases end - start,
    {
        assert(source@.subrange(start as int, end as int).skip(1) =~= source@.subrange(
            start + 1,
            end as int,
        ));
        start += 1;
    }
    if start == end {
        return None;
    }
    let ghost tail = source@.subrange(start as int, end as int);
    let mut stop = start + 1;
    assert(tail.skip(1) =~= source@.subrange(stop as int, end as int));
    while stop < end && !is_space_byte(source[stop])
        invariant
            start < stop <= end <= source@.len(),
            tail == source@.subrange(start as int, end as int),
            word_len(tail) == (stop - start) + word_len(source@.subrange(stop as int, end as int)),
        decreases end - stop,
    {
        assert(source@.subrange(stop as int, end as int).skip(1) =~= source@.subrange(
            stop + 1,
            end as int,
        ));
        stop += 1;
    }
    assert(word_len(tail) == stop - start);
    assert(tail.take(stop - start) =~= source@.subrange(start as int, stop as int));
    assert(tail.skip(stop - start) =~= source@.subrange(stop as int, end as int));
    Some((start, stop))
}

/// The views of a vector of fields.
pub open spec fn field_views(fields: Seq<Vec<u8>>) -> Seq<Seq<u8>> {
    fields.map_values(|field: Vec<u8>| field@)
}

/// The fields of `source[from..end]`.
pub(crate) fn split_fields(source: &[u8], from: usize, end: usize) -> (fields: Vec<Vec<u8>>)
    requires
        from <= end <= source@.len(),
    ensures
        field_views(fields@) == fields_of(source@.subrange(from as int, end as int)),
{
    let mut fields: Vec<Vec<u8>> = Vec::new();
    let mut at = from;
    loop
        invariant
            from <= at <= end <= source@.len(),
            field_views(fields@) + fields_of(source@.subrange(at as int, end as int)) == fields_of(
                source@.subrange(from as int, end as int),
            ),
        ensures
            field_views(fields@) == fields_of(source@.subrange(from as int, end as int)),
        decreases end - at,
    {
        match next_field(source, at, end) {
            None => {
                assert(field_views(fields@) =~= field_views(fields@) + fields_of(
                    source@.subrange(at as int, end as int),
                ));
                break ;
            },
            Some((start, stop)) => {
                let ghost before = field_views(fields@);
                fields.push(slice_to_vec(slice_subrange(source, start, stop)));
                assert(field_views(fields@) =~= before + seq![
                    source@.subrange(start as int, stop as int),
                ]);
                assert(field_views(fields@) + fields_of(source@.subrange(stop as int, end as int))
                    =~= before + (seq![source@.subrange(start as int, stop as int)] + fields_of(
                    source@.subrange(stop as int, end as int),
                )));
                at = stop;
            },
        }
    }
    fields
}

/// The number of fields of `source[from..end]`.
pub(crate) fn count_fields(source: &[u8], from: usize, end: usize) -> (count: usize)
    requires
        from <= end <= source@.len(),
    ensures
        count == fields_of(source@.subrange(from as int, end as int)).len(),
{
    let mut count: usize = 0;
    let mut at = from;
    loop
        invariant
            from <= at <= end <= source@.len(),
            count <= at - from,
            count + fields_of(source@.subrange(at as int, end as int)).len() == fields_of(
                source@.subrange(from as int, end as int),
            ).len(),
        ensures
            count == fields_of(source@.subrange(from as int, end as int)).len(),
        decreases end - at,
    {
        match next_field(source, at, end) {
            None => {
                break ;
            },
            Some((_, stop)) => {
                count += 1;
                at = stop;
            },
        }
    }
    count
}

} // verus!

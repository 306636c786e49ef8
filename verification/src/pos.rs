//! The POS format: one text record on each line.
//!
//! The first line of a source is a header, which is skipped whatever it
//! holds. Each line after it is one record: time, latitude, longitude,
//! altitude, roll, pitch and yaw, separated by whitespace, the angles in
//! degrees. A line without a field, or the end of the source, ends the
//! records.
//!
//! The reader finds the records and their fields and decides what a read
//! returns. What number a field holds it asks of its caller: the caller looks
//! at the fields of the next record, hands their values to `read_point`, and
//! gets the sample or the error back.

use crate::error::Error;
use crate::point::Point;
use crate::text::{
    count_fields, field_views, fields_of, is_blank, is_line, join_lines, lemma_first_line,
    lemma_line_len_bounds, lemma_no_field_iff_blank, lemma_trailing_space, line_end, line_len,
    split_fields, NEWLINE,
};
use crate::units::{Binary64, Radians};
use vstd::prelude::*;

verus! {

/// The fields that a record must have.
pub const FIELD_COUNT: usize = 7;

/// Whether the field at `index` of a record is an angle, which the source
/// holds in degrees and a sample holds in radians.
pub open spec fn is_angle(index: int) -> bool {
    index == 1 || index == 2 || index == 4 || index == 5 || index == 6
}

/// Whether the field at `index` of a record is an angle.
pub fn is_angle_field(index: usize) -> (angle: bool)
    ensures
        angle == is_angle(index as int),
{
    index == 1 || index == 2 || index == 4 || index == 5 || index == 6
}

/// The records of `text`, which begins where a line begins: the fields of
/// each line, up to the first line without a field.
pub open spec fn records(text: Seq<u8>) -> Seq<Seq<Seq<u8>>>
    decreases text.len(),
    via records_terminates
{
    let line = text.take(line_len(text) as int);
    if fields_of(line).len() == 0 {
        Seq::empty()
    } else {
        seq![fields_of(line)] + records(text.skip(line_len(text) as int))
    }
}

#[via_fn]
proof fn records_terminates(text: Seq<u8>) {
    lemma_line_len_bounds(text);
    if text.len() == 0 {
        assert(text.take(line_len(text) as int) =~= Seq::<u8>::empty());
    }
}

/// The records of a source: those of the text after its header line.
pub open spec fn data_records(source: Seq<u8>) -> Seq<Seq<Seq<u8>>> {
    records(source.skip(line_len(source) as int))
}

/// A line with a field, and its newline, is one record before the records of
/// what follows.
proof fn lemma_records_step(line: Seq<u8>, rest: Seq<u8>)
    requires
        is_line(line),
        !is_blank(line),
    ensures
        records(line + seq![NEWLINE] + rest) == seq![fields_of(line)] + records(rest),
{
    let text = line + seq![NEWLINE] + rest;
    lemma_first_line(line, rest);
    assert(text.take(line.len() as int + 1) =~= line.push(NEWLINE));
    assert(text.skip(line.len() as int + 1) =~= rest);
    lemma_trailing_space(line, NEWLINE);
    lemma_no_field_iff_blank(line);
}

/// The records of lines that each hold a field, and of a text after them,
/// are the fields of each line, in order, and then the records of that text.
pub proof fn lemma_records_after_lines(lines: Seq<Seq<u8>>, tail: Seq<u8>)
    requires
        forall|k: int| 0 <= k < lines.len() ==> is_line(#[trigger] lines[k]) && !is_blank(lines[k]),
    ensures
        records(join_lines(lines) + tail) == lines.map_values(|line: Seq<u8>| fields_of(line))
            + records(tail),
    decreases lines.len(),
{
    let mapped = lines.map_values(|line: Seq<u8>| fields_of(line));
    if lines.len() == 0 {
        assert(join_lines(lines) + tail =~= tail);
        assert(mapped + records(tail) =~= records(tail));
    } else {
        let later = lines.skip(1);
        assert forall|k: int| 0 <= k < later.len() implies is_line(#[trigger] later[k])
            && !is_blank(later[k]) by {
            assert(later[k] == lines[k + 1]);
        }
        lemma_records_after_lines(later, tail);
        lemma_records_step(lines[0], join_lines(later) + tail);
        assert(join_lines(lines) + tail =~= lines[0] + seq![NEWLINE] + (join_lines(later) + tail));
        assert(mapped =~= seq![fields_of(lines[0])] + later.map_values(
            |line: Seq<u8>| fields_of(line),
        ));
        assert(mapped + records(tail) =~= seq![fields_of(lines[0])] + (later.map_values(
            |line: Seq<u8>| fields_of(line),
        ) + records(tail)));
    }
}

/// A source made of a header line and of data lines that each hold a field
/// has one record for each data line, in the order of the source, with the
/// fields of that line.
pub proof fn lemma_records_in_file_order(header: Seq<u8>, lines: Seq<Seq<u8>>)
    requires
        is_line(header),
        forall|k: int| 0 <= k < lines.len() ==> is_line(#[trigger] lines[k]) && !is_blank(lines[k]),
    ensures
        data_records(header + seq![NEWLINE] + join_lines(lines)).len() == lines.len(),
        forall|k: int|
            0 <= k < lines.len() ==> #[trigger] data_records(
                header + seq![NEWLINE] + join_lines(lines),
            )[k] == fields_of(lines[k]),
{
    let source = header + seq![NEWLINE] + join_lines(lines);
    lemma_first_line(header, join_lines(lines));
    assert(source.skip(header.len() as int + 1) =~= join_lines(lines) + Seq::<u8>::empty());
    lemma_records_after_lines(lines, Seq::empty());
    assert(records(Seq::<u8>::empty()) =~= Seq::empty()) by {
        assert(Seq::<u8>::empty().take(line_len(Seq::<u8>::empty()) as int) =~= Seq::<u8>::empty());
    }
}

/// Whether a record with the fields `fields`, for which the caller found the
/// values `values`, has a number in the field at `index`.
pub open spec fn present(fields: Seq<Seq<u8>>, values: Seq<Option<Binary64>>, index: int) -> bool {
    &&& 0 <= index < fields.len()
    &&& index < values.len()
    &&& values[index] is Some
}

/// The sample that a record with the values `values` holds. Only time,
/// position and attitude are there.
pub open spec fn point_of(values: Seq<Option<Binary64>>) -> Point {
    Point {
        time: values[0]->Some_0,
        latitude: Radians(values[1]->Some_0),
        longitude: Radians(values[2]->Some_0),
        altitude: values[3]->Some_0,
        roll: Radians(values[4]->Some_0),
        pitch: Radians(values[5]->Some_0),
        yaw: Radians(values[6]->Some_0),
        x_velocity: None,
        y_velocity: None,
        z_velocity: None,
        wander_angle: None,
        x_acceleration: None,
        y_acceleration: None,
        z_acceleration: None,
        x_angular_rate: None,
        y_angular_rate: None,
        z_angular_rate: None,
    }
}

/// Whether `result` is what reading a record gives: the sample where all
/// fields are present, else the error that names the record's line and its
/// first field that is missing or is no number.
pub open spec fn reads_as(
    fields: Seq<Seq<u8>>,
    values: Seq<Option<Binary64>>,
    line: nat,
    result: Result<Point, Error>,
) -> bool {
    match result {
        Ok(point) => {
            &&& forall|index: int| 0 <= index < FIELD_COUNT ==> present(fields, values, index)
            &&& point == point_of(values)
        },
        Err(Error::FieldParse { line: at, field }) => {
            &&& at == line
            &&& field < FIELD_COUNT
            &&& !present(fields, values, field as int)
            &&& forall|index: int| 0 <= index < field ==> present(fields, values, index)
        },
        Err(_) => false,
    }
}

/// A record reads as one result only.
pub proof fn lemma_one_result(
    fields: Seq<Seq<u8>>,
    values: Seq<Option<Binary64>>,
    line: nat,
    first: Result<Point, Error>,
    second: Result<Point, Error>,
)
    requires
        reads_as(fields, values, line, first),
        reads_as(fields, values, line, second),
    ensures
        first == second,
{
    if let Err(Error::FieldParse { field: a, .. }) = first {
        if let Err(Error::FieldParse { field: b, .. }) = second {
            assert(a == b) by {
                assert(!present(fields, values, a as int));
                assert(!present(fields, values, b as int));
            }
        } else {
            assert(!present(fields, values, a as int));
        }
    } else if let Err(Error::FieldParse { field: b, .. }) = second {
        assert(!present(fields, values, b as int));
    }
}

/// A record with fewer fields than a record must have reads as an error,
/// whatever values are given for it. The error names a field no later than
/// the first that the line lacks, and that very field where a number was
/// found in each field that the line has.
pub proof fn lemma_short_record_is_an_error(
    fields: Seq<Seq<u8>>,
    values: Seq<Option<Binary64>>,
    line: nat,
    result: Result<Point, Error>,
)
    requires
        fields.len() < FIELD_COUNT,
        reads_as(fields, values, line, result),
    ensures
        result matches Err(Error::FieldParse { line: at, field }) && at == line && field
            <= fields.len() && ((forall|index: int|
            0 <= index < fields.len() ==> present(fields, values, index)) ==> field
            == fields.len()),
{
    let missing = fields.len() as int;
    assert(!present(fields, values, missing));
}

/// A line without a field ends the records: what follows it is not read.
pub proof fn lemma_blank_line_ends_records(line: Seq<u8>, rest: Seq<u8>)
    requires
        is_line(line),
        is_blank(line),
    ensures
        records(line + seq![NEWLINE] + rest).len() == 0,
{
    let text = line + seq![NEWLINE] + rest;
    lemma_first_line(line, rest);
    assert(text.take(line.len() as int + 1) =~= line.push(NEWLINE));
    lemma_trailing_space(line, NEWLINE);
    lemma_no_field_iff_blank(line);
}

/// A reader of POS records from a source held in memory.
///
/// The reader is either ready, at the start of a line, or exhausted. It
/// becomes exhausted when it reports the end of the records or an error, and
/// then stays so.
#[derive(Debug)]
pub struct Reader {
    source: Vec<u8>,
    position: usize,
    line: usize,
    exhausted: bool,
}

impl Reader {
    #[verifier::type_invariant]
    spec fn within_source(self) -> bool {
        &&& self.position <= self.source@.len()
        &&& (self.line <= self.position || self.source@.len() == 0)
    }

    /// The records that the reader has yet to deliver, in order, each as its
    /// fields.
    pub closed spec fn pending(self) -> Seq<Seq<Seq<u8>>> {
        if self.exhausted {
            Seq::empty()
        } else {
            records(self.source@.skip(self.position as int))
        }
    }

    /// The line of the next record, counted from the header, which is line 0.
    pub closed spec fn line(self) -> nat {
        self.line as nat
    }

    /// A reader of the records of `source`, past its header line.
    pub fn new(source: Vec<u8>) -> (reader: Reader)
        ensures
            reader.pending() == data_records(source@),
            reader.line() == 1,
    {
        let position = line_end(source.as_slice(), 0);
        proof {
            lemma_line_len_bounds(source@);
            assert(source@.skip(0) =~= source@);
        }
        Reader { source, position, line: 1, exhausted: false }
    }

    /// The fields of the next record, or no field where no record is left.
    pub fn fields(&self) -> (fields: Vec<Vec<u8>>)
        ensures
            field_views(fields@) == (if self.pending().len() > 0 {
                self.pending()[0]
            } else {
                Seq::empty()
            }),
    {
        proof {
            use_type_invariant(self);
        }
        if self.exhausted {
            let fields: Vec<Vec<u8>> = Vec::new();
            assert(field_views(fields@) =~= Seq::empty());
            return fields;
        }
        let end = line_end(self.source.as_slice(), self.position);
        assert(self.source@.subrange(self.position as int, end as int) =~= self.source@.skip(
            self.position as int,
        ).take(end - self.position));
        split_fields(self.source.as_slice(), self.position, end)
    }

    /// Reads the next record, given in `values` the number in each of its
    /// fields, in order: `None` for a field that is not a number, and the
    /// angles in radians.
    ///
    /// `Ok(None)` says that no record is left. A field that the line lacks
    /// counts as missing whatever `values` holds for it.
    pub fn read_point(&mut self, values: &[Option<Binary64>]) -> (result: Result<
        Option<Point>,
        Error,
    >)
        ensures
            old(self).pending().len() == 0 ==> result == Ok::<Option<Point>, Error>(None)
                && final(self).pending().len() == 0,
            old(self).pending().len() > 0 ==> match result {
                Ok(Some(point)) => {
                    &&& reads_as(
                        old(self).pending()[0],
                        values@,
                        old(self).line(),
                        Ok(point),
                    )
                    &&& final(self).pending() == old(self).pending().skip(1)
                    &&& final(self).line() == old(self).line() + 1
                },
                Ok(None) => false,
                Err(error) => {
                    &&& reads_as(
                        old(self).pending()[0],
                        values@,
                        old(self).line(),
                        Err(error),
                    )
                    &&& final(self).pending().len() == 0
                },
            },
            result is Ok && result->Ok_0 is Some ==> result->Ok_0->Some_0.lacks_kinematics(),
            !(result is Ok && result->Ok_0 is Some) ==> final(self).pending().len() == 0,
    {
        proof {
            use_type_invariant(&*self);
        }
        if self.exhausted {
            return Ok(None);
        }
        let end = line_end(self.source.as_slice(), self.position);
        let count = count_fields(self.source.as_slice(), self.position, end);
        let ghost rest = self.source@.skip(self.position as int);
        let ghost fields = fields_of(rest.take(line_len(rest) as int));
        proof {
            assert(self.source@.subrange(self.position as int, end as int) =~= rest.take(
                line_len(rest) as int,
            ));
            assert(rest.skip(line_len(rest) as int) =~= self.source@.skip(end as int));
            lemma_line_len_bounds(rest);
            assert(count == fields.len());
            assert(old(self).pending() == records(rest));
        }
        if count == 0 {
            self.exhausted = true;
            return Ok(None);
        }
        assert(records(rest)[0] == fields);
        assert(records(rest).skip(1) =~= records(self.source@.skip(end as int)));
        let absent = first_absent(count, values);
        assert forall|i: int| 0 <= i < absent implies present(fields, values@, i) by {
            assert(has_value(count as int, values@, i));
        }
        if absent < FIELD_COUNT {
            self.exhausted = true;
            return Err(Error::FieldParse { line: self.line, field: absent });
        }
        assert(has_value(count as int, values@, 0));
        assert(has_value(count as int, values@, 1));
        assert(has_value(count as int, values@, 2));
        assert(has_value(count as int, values@, 3));
        assert(has_value(count as int, values@, 4));
        assert(has_value(count as int, values@, 5));
        assert(has_value(count as int, values@, 6));
        let point = Point {
            time: values[0].unwrap(),
            latitude: Radians(values[1].unwrap()),
            longitude: Radians(values[2].unwrap()),
            altitude: values[3].unwrap(),
            roll: Radians(values[4].unwrap()),
            pitch: Radians(values[5].unwrap()),
            yaw: Radians(values[6].unwrap()),
            x_velocity: None,
            y_velocity: None,
            z_velocity: None,
            wander_angle: None,
            x_acceleration: None,
            y_acceleration: None,
            z_acceleration: None,
            x_angular_rate: None,
            y_angular_rate: None,
            z_angular_rate: None,
        };
        self.position = end;
        self.line = self.line + 1;
        Ok(Some(point))
    }

    /// The sequence of what is left to read.
    pub fn into_iter(self) -> (iter: ReaderIterator)
        ensures
            iter.pending() == self.pending(),
            iter.line() == self.line(),
    {
        ReaderIterator { reader: self }
    }
}

/// The samples of a reader as a sequence, from where the reader stood.
///
/// An error is an item of the sequence, the last one: it is handed to the
/// consumer, not turned into an early end.
#[derive(Debug)]
pub struct ReaderIterator {
    reader: Reader,
}

impl ReaderIterator {
    /// The records that the sequence has yet to go through, in order, each as
    /// its fields.
    pub closed spec fn pending(self) -> Seq<Seq<Seq<u8>>> {
        self.reader.pending()
    }

    /// The line of the next record, counted from the header, which is line 0.
    pub closed spec fn line(self) -> nat {
        self.reader.line()
    }

    /// The fields of the next record, or no field where no record is left.
    pub fn fields(&self) -> (fields: Vec<Vec<u8>>)
        ensures
            field_views(fields@) == (if self.pending().len() > 0 {
                self.pending()[0]
            } else {
                Seq::empty()
            }),
    {
        self.reader.fields()
    }

    /// Yields the next item, given in `values` the number in each field of
    /// the next record as `Reader::read_point` takes them, or `None` once
    /// the sequence has ended.
    pub fn next(&mut self, values: &[Option<Binary64>]) -> (item: Option<Result<Point, Error>>)
        ensures
            old(self).pending().len() == 0 ==> item is None && final(self).pending().len() == 0,
            old(self).pending().len() > 0 ==> match item {
                Some(outcome) => {
                    &&& reads_as(old(self).pending()[0], values@, old(self).line(), outcome)
                    &&& outcome is Ok ==> final(self).pending() == old(self).pending().skip(1)
                        && final(self).line() == old(self).line() + 1
                    &&& outcome is Err ==> final(self).pending().len() == 0
                },
                None => false,
            },
            item is Some && item->Some_0 is Ok ==> item->Some_0->Ok_0.lacks_kinematics(),
            !(item is Some && item->Some_0 is Ok) ==> final(self).pending().len() == 0,
    {
        match self.reader.read_point(values) {
            Ok(None) => None,
            Ok(Some(point)) => Some(Ok(point)),
            Err(error) => Some(Err(error)),
        }
    }
}

/// Whether a record of `count` fields with the values `values` has a number
/// in the field at `index`.
spec fn has_value(count: int, values: Seq<Option<Binary64>>, index: int) -> bool {
    &&& 0 <= index < count
    &&& index < values.len()
    &&& values[index] is Some
}

/// The first of the required fields that has no number, or `FIELD_COUNT`
/// where each has one.
fn first_absent(count: usize, values: &[Option<Binary64>]) -> (absent: usize)
    ensures
        absent <= FIELD_COUNT,
        forall|i: int| 0 <= i < absent ==> has_value(count as int, values@, i),
        absent < FIELD_COUNT ==> !has_value(count as int, values@, absent as int),
{
    let mut index: usize = 0;
    while index < FIELD_COUNT
        invariant
            index <= FIELD_COUNT,
            forall|i: int| 0 <= i < index ==> has_value(count as int, values@, i),
        decreases FIELD_COUNT - index,
    {
        if index >= count || index >= values.len() || values[index].is_none() {
            return index;
        }
        index += 1;
    }
    index
}

} // verus!

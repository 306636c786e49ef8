//! The SBET format: a flat run of fixed-size binary records.
//!
//! A source has no header, no footer and no record count. Each record is
//! seventeen binary64 numbers, least significant byte first; angles are in
//! radians on disk. The source ends cleanly only between two records.

use crate::endian::{le_bytes, le_u64, lemma_encode_decode, read_u64};
use crate::error::Error;
use crate::point::Point;
use crate::units::{Binary64, Radians};
use vstd::prelude::*;
use vstd::slice::slice_subrange;

verus! {

/// The bytes of one field.
pub const FIELD_SIZE: usize = 8;

/// The fields of one record.
pub const FIELD_COUNT: usize = 17;

/// The bytes of one record.
pub const RECORD_SIZE: usize = 136;

/// The number in field `index` of `record`.
pub open spec fn field(record: Seq<u8>, index: int) -> Binary64 {
    Binary64 { bits: le_u64(record.subrange(FIELD_SIZE * index, FIELD_SIZE * index + FIELD_SIZE)) }
}

/// The sample that the `RECORD_SIZE` bytes of `record` hold.
pub open spec fn record_point(record: Seq<u8>) -> Point
    recommends
        record.len() == RECORD_SIZE,
{
    Point {
        time: field(record, 0),
        latitude: Radians(field(record, 1)),
        longitude: Radians(field(record, 2)),
        altitude: field(record, 3),
        x_velocity: Some(field(record, 4)),
        y_velocity: Some(field(record, 5)),
        z_velocity: Some(field(record, 6)),
        roll: Radians(field(record, 7)),
        pitch: Radians(field(record, 8)),
        yaw: Radians(field(record, 9)),
        wander_angle: Some(Radians(field(record, 10))),
        x_acceleration: Some(field(record, 11)),
        y_acceleration: Some(field(record, 12)),
        z_acceleration: Some(field(record, 13)),
        x_angular_rate: Some(Radians(field(record, 14))),
        y_angular_rate: Some(Radians(field(record, 15))),
        z_angular_rate: Some(Radians(field(record, 16))),
    }
}

/// What reading `source` from `position` on delivers, in order: one sample
/// for each whole record, and after them one error if bytes are left that do
/// not fill a record.
pub open spec fn outcomes(source: Seq<u8>, position: int) -> Seq<Result<Point, Error>>
    decreases source.len() - position,
{
    if position < 0 || position >= source.len() {
        Seq::empty()
    } else if source.len() - position < RECORD_SIZE {
        seq![Err(Error::Truncated { offset: position as usize })]
    } else {
        seq![Ok(record_point(source.subrange(position, position + RECORD_SIZE)))] + outcomes(
            source,
            position + RECORD_SIZE,
        )
    }
}

/// What reading all of `source` delivers.
pub open spec fn decode(source: Seq<u8>) -> Seq<Result<Point, Error>> {
    outcomes(source, 0)
}

/// What `read_point` returns for the next outcome.
pub open spec fn delivered(outcome: Result<Point, Error>) -> Result<Option<Point>, Error> {
    match outcome {
        Ok(point) => Ok(Some(point)),
        Err(error) => Err(error),
    }
}

/// The start of record `index` in a source.
pub open spec fn record_start(index: int) -> int {
    RECORD_SIZE * index
}

/// The number of whole records in `source`.
pub open spec fn record_count(source: Seq<u8>) -> int {
    source.len() as int / RECORD_SIZE as int
}

/// Whether `source` is made of whole records.
pub open spec fn is_whole(source: Seq<u8>) -> bool {
    source.len() as int % RECORD_SIZE as int == 0
}

/// Record `index` of `source`.
pub open spec fn record(source: Seq<u8>, index: int) -> Seq<u8> {
    source.subrange(record_start(index), record_start(index) + RECORD_SIZE)
}

/// From a record boundary on, reading delivers the whole records that
/// follow, and then an error exactly if bytes are left over.
proof fn lemma_outcomes(source: Seq<u8>, first: int)
    requires
        0 <= first,
        record_start(first) <= source.len(),
    ensures
        outcomes(source, record_start(first)).len() == record_count(source) - first + (if is_whole(
            source,
        ) {
            0int
        } else {
            1int
        }),
        forall|j: int|
            0 <= j < record_count(source) - first ==> #[trigger] outcomes(
                source,
                record_start(first),
            )[j] == Ok::<Point, Error>(record_point(record(source, first + j))),
        !is_whole(source) ==> outcomes(source, record_start(first)).last() == Err::<Point, Error>(
            Error::Truncated { offset: record_start(record_count(source)) as usize },
        ),
    decreases source.len() - record_start(first),
{
    let all = outcomes(source, record_start(first));
    if source.len() - record_start(first) >= RECORD_SIZE {
        lemma_outcomes(source, first + 1);
        let rest = outcomes(source, record_start(first + 1));
        assert(all == seq![Ok::<Point, Error>(record_point(record(source, first)))] + rest);
        assert forall|j: int| 0 <= j < record_count(source) - first implies #[trigger] all[j]
            == Ok::<Point, Error>(record_point(record(source, first + j))) by {
            if j > 0 {
                assert(all[j] == rest[j - 1]);
            }
        }
        if !is_whole(source) {
            assert(all.last() == rest.last());
        }
    }
}

/// A source made of whole records decodes to one sample for each record, in
/// the order of the source, and to nothing else.
pub proof fn lemma_whole_records(source: Seq<u8>)
    requires
        is_whole(source),
    ensures
        decode(source).len() == record_count(source),
        forall|k: int|
            0 <= k < record_count(source) ==> #[trigger] decode(source)[k] == Ok::<Point, Error>(
                record_point(record(source, k)),
            ),
{
    assert(record_start(0) == 0);
    lemma_outcomes(source, 0);
}

/// Encoding the time of a decoded sample gives back the first eight bytes of
/// its record.
pub proof fn lemma_time_round_trip(source: Seq<u8>, k: int)
    requires
        0 <= k < record_count(source),
    ensures
        decode(source)[k] is Ok,
        le_bytes(decode(source)[k]->Ok_0.time.bits) == source.subrange(
            record_start(k),
            record_start(k) + FIELD_SIZE,
        ),
{
    assert(record_start(0) == 0);
    lemma_outcomes(source, 0);
    let point = record_point(record(source, k));
    assert(decode(source)[k] == Ok::<Point, Error>(point));
    let first = record(source, k).subrange(0, FIELD_SIZE as int);
    assert(first =~= source.subrange(record_start(k), record_start(k) + FIELD_SIZE));
    assert(point.time.bits == le_u64(first));
    lemma_encode_decode(first);
}

/// A source that stops inside a record decodes to the samples of the whole
/// records before it and then to one error, which names the offset at which
/// the incomplete record begins.
pub proof fn lemma_truncated_source(source: Seq<u8>)
    requires
        !is_whole(source),
    ensures
        decode(source).len() == record_count(source) + 1,
        forall|k: int|
            0 <= k < record_count(source) ==> #[trigger] decode(source)[k] == Ok::<Point, Error>(
                record_point(record(source, k)),
            ),
        decode(source)[record_count(source)] == Err::<Point, Error>(
            Error::Truncated { offset: record_start(record_count(source)) as usize },
        ),
{
    assert(record_start(0) == 0);
    lemma_outcomes(source, 0);
}

/// Field `index` of `record`.
fn read_field(record: &[u8], index: usize) -> (value: Binary64)
    requires
        record@.len() == RECORD_SIZE,
        index < FIELD_COUNT,
    ensures
        value == field(record@, index as int),
{
    let from = FIELD_SIZE * index;
    let bytes = slice_subrange(record, from, from + FIELD_SIZE);
    Binary64 { bits: read_u64(bytes) }
}

/// The sample that `record` holds.
fn read_record(record: &[u8]) -> (point: Point)
    requires
        record@.len() == RECORD_SIZE,
    ensures
        point == record_point(record@),
{
    Point {
        time: read_field(record, 0),
        latitude: Radians(read_field(record, 1)),
        longitude: Radians(read_field(record, 2)),
        altitude: read_field(record, 3),
        x_velocity: Some(read_field(record, 4)),
        y_velocity: Some(read_field(record, 5)),
        z_velocity: Some(read_field(record, 6)),
        roll: Radians(read_field(record, 7)),
        pitch: Radians(read_field(record, 8)),
        yaw: Radians(read_field(record, 9)),
        wander_angle: Some(Radians(read_field(record, 10))),
        x_acceleration: Some(read_field(record, 11)),
        y_acceleration: Some(read_field(record, 12)),
        z_acceleration: Some(read_field(record, 13)),
        x_angular_rate: Some(Radians(read_field(record, 14))),
        y_angular_rate: Some(Radians(read_field(record, 15))),
        z_angular_rate: Some(Radians(read_field(record, 16))),
    }
}

/// A reader of SBET records from a source held in memory.
///
/// The reader is either ready, at the start of the next record or at the end
/// of the source, or exhausted. It becomes exhausted when it reports the end
/// of the source or an error, and then stays so.
#[derive(Debug)]
pub struct Reader {
    source: Vec<u8>,
    position: usize,
    exhausted: bool,
}

impl Reader {
    #[verifier::type_invariant]
    spec fn within_source(self) -> bool {
        self.position <= self.source@.len()
    }

    /// The outcomes that the reader has yet to deliver, in order.
    pub closed spec fn pending(self) -> Seq<Result<Point, Error>> {
        if self.exhausted {
            Seq::empty()
        } else {
            outcomes(self.source@, self.position as int)
        }
    }

    /// A reader at the start of `source`. Nothing is read yet.
    pub fn new(source: Vec<u8>) -> (reader: Reader)
        ensures
            reader.pending() == decode(source@),
    {
        Reader { source, position: 0, exhausted: false }
    }

    /// Reads the next record.
    ///
    /// `Ok(None)` says that the source ended where a record would begin. Bytes
    /// that do not fill a record are an error, never an end.
    pub fn read_point(&mut self) -> (result: Result<Option<Point>, Error>)
        ensures
            old(self).pending().len() == 0 ==> result == Ok::<Option<Point>, Error>(None)
                && final(self).pending().len() == 0,
            old(self).pending().len() > 0 ==> result == delivered(old(self).pending()[0])
                && final(self).pending() == old(self).pending().skip(1),
            result is Ok && result->Ok_0 is Some ==> result->Ok_0->Some_0.has_kinematics(),
            !(result is Ok && result->Ok_0 is Some) ==> final(self).pending().len() == 0,
    {
        proof {
            use_type_invariant(&*self);
        }
        if self.exhausted {
            return Ok(None);
        }
        let left = self.source.len() - self.position;
        if left == 0 {
            self.exhausted = true;
            Ok(None)
        } else if left < RECORD_SIZE {
            self.exhausted = true;
            assert(old(self).pending().skip(1) =~= Seq::empty());
            Err(Error::Truncated { offset: self.position })
        } else {
            let record = slice_subrange(
                self.source.as_slice(),
                self.position,
                self.position + RECORD_SIZE,
            );
            let point = read_record(record);
            self.position = self.position + RECORD_SIZE;
            assert(old(self).pending().skip(1) =~= final(self).pending());
            Ok(Some(point))
        }
    }

    /// The sequence of what is left to read.
    pub fn into_iter(self) -> (iter: ReaderIterator)
        ensures
            iter.pending() == self.pending(),
    {
        ReaderIterator { reader: self }
    }
}

/// The outcomes of a reader as a sequence, from where the reader stood.
///
/// An error is an item of the sequence, the last one: it is handed to the
/// consumer, not turned into an early end.
#[derive(Debug)]
pub struct ReaderIterator {
    reader: Reader,
}

impl ReaderIterator {
    /// The items that the sequence has yet to yield, in order.
    pub closed spec fn pending(self) -> Seq<Result<Point, Error>> {
        self.reader.pending()
    }

    /// Yields the next item, or `None` once the sequence has ended.
    pub fn next(&mut self) -> (item: Option<Result<Point, Error>>)
        ensures
            old(self).pending().len() == 0 ==> item is None && final(self).pending().len() == 0,
            old(self).pending().len() > 0 ==> item == Some(old(self).pending()[0])
                && final(self).pending() == old(self).pending().skip(1),
            item is Some && item->Some_0 is Ok ==> item->Some_0->Ok_0.has_kinematics(),
            !(item is Some && item->Some_0 is Ok) ==> final(self).pending().len() == 0,
    {
        match self.reader.read_point() {
            Ok(None) => None,
            Ok(Some(point)) => Some(Ok(point)),
            Err(error) => Some(Err(error)),
        }
    }

    /// Yields all remaining items at once.
    pub fn collect(self) -> (items: Vec<Result<Point, Error>>)
        ensures
            items@ == self.pending(),
    {
        let mut iter = self;
        let mut items: Vec<Result<Point, Error>> = Vec::new();
        loop
            invariant
                items@ + iter.pending() == self.pending(),
            ensures
                iter.pending().len() == 0,
            decreases iter.pending().len(),
        {
            let ghost before = iter.pending();
            match iter.next() {
                None => {
                    break ;
                },
                Some(item) => {
                    items.push(item);
                    assert(items@ + iter.pending() =~= (items@.drop_last() + before));
                },
            }
        }
        assert(items@ =~= items@ + iter.pending());
        items
    }
}

} // verus!

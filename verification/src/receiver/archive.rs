//! The measurement archive: the rows it keeps, what is read back from them, and
//! the one-time import of the older line-by-line file.

use std::collections::hash_map::DefaultHasher;
use std::hash::{Hash, Hasher};

use vstd::prelude::*;
use vstd::string::*;

use crate::binary32::Binary32;
use crate::clock;
use crate::clock::{parse_time, time_text, Span, Timestamp};
use crate::json;
use crate::json::{source_of, Field, Found, Json, Source};
use crate::receiver::encoding;
use crate::receiver::encoding::reading_json;
use crate::receiver::history;
use crate::receiver::history::{History, HistoryEntry};
use crate::receiver::input;
use crate::receiver::input::{decode_typed, MeterReading};
use crate::text;
use crate::text::{decimal, hex, same_text};

verus! {

/// The most rows that a look at the recent past takes from the archive.
pub const RECENT_LIMIT: usize = 600;

/// Why the archive, or the file it takes over, could not be used.
#[derive(Clone, Copy, Debug, PartialEq, Eq, Structural)]
pub enum ArchiveError {
    /// The line that begins at this byte is not a batch.
    InvalidBatch(u64),
    UnsupportedSchema,
    EmptyBatch,
    InvalidTimestamp,
    OutOfOrder,
    SourceChanged,
    NothingToArchive,
    InvalidStoredTimestamp,
    InvalidStoredMeasurement,
}

impl ArchiveError {
    pub open spec fn text(self) -> Seq<char> {
        match self {
            ArchiveError::InvalidBatch(byte) => "invalid history batch at byte "@
                + text::decimal_digits(byte as nat),
            ArchiveError::UnsupportedSchema => "unsupported history schema version"@,
            ArchiveError::EmptyBatch => "empty history batch"@,
            ArchiveError::InvalidTimestamp => "invalid history timestamp"@,
            ArchiveError::OutOfOrder => "history timestamps are out of order"@,
            ArchiveError::SourceChanged =>
                "legacy history file changed after migration; refusing duplicate import"@,
            ArchiveError::NothingToArchive => "cannot archive an empty batch"@,
            ArchiveError::InvalidStoredTimestamp => "invalid stored history timestamp"@,
            ArchiveError::InvalidStoredMeasurement => "invalid stored measurement"@,
        }
    }

    /// The error in words.
    pub fn message(self) -> (message: String)
        ensures
            message@ == self.text(),
    {
        match self {
            ArchiveError::InvalidBatch(byte) => {
                let mut message: String = "invalid history batch at byte ".to_owned();
                message.append(decimal(byte).as_str());
                message
            },
            ArchiveError::UnsupportedSchema => "unsupported history schema version".to_owned(),
            ArchiveError::EmptyBatch => "empty history batch".to_owned(),
            ArchiveError::InvalidTimestamp => "invalid history timestamp".to_owned(),
            ArchiveError::OutOfOrder => "history timestamps are out of order".to_owned(),
            ArchiveError::SourceChanged =>
                "legacy history file changed after migration; refusing duplicate import".to_owned(),
            ArchiveError::NothingToArchive => "cannot archive an empty batch".to_owned(),
            ArchiveError::InvalidStoredTimestamp => "invalid stored history timestamp".to_owned(),
            ArchiveError::InvalidStoredMeasurement => "invalid stored measurement".to_owned(),
        }
    }
}

/// A row of the archive.
pub struct ArchiveRow {
    pub received_at: String,
    /// Milliseconds since the epoch.
    pub received_at_epoch: i64,
    pub total_power: Binary32,
    pub heartbeat: bool,
    /// The complete reading.
    pub reading: Json,
}

impl ArchiveRow {
    /// The row that a reading becomes.
    pub open spec fn archives(&self, reading: MeterReading, at: Timestamp) -> bool {
        &&& self.received_at@ == clock::rfc3339_text(at.secs, at.nanos)
        &&& self.received_at_epoch == at.millis()
        &&& self.total_power == reading.total_power
        &&& self.heartbeat == reading.heartbeat
        &&& encoding::writes(self.reading, reading, encoding::mark_of(reading))
    }
}

/// A time that its text gives back.
pub open spec fn plain_time(at: Timestamp) -> bool {
    -62_167_219_200 <= at.secs <= 253_402_300_799 && at.nanos < 1_000_000_000
}

/// The rows that a batch becomes, in the order of its readings.
pub fn archive_rows(readings: &Vec<MeterReading>, at: Timestamp) -> (result: Result<
    Vec<ArchiveRow>,
    ArchiveError,
>)
    requires
        at.wf(),
    ensures
        match result {
            Ok(rows) => {
                &&& readings@.len() > 0
                &&& rows@.len() == readings@.len()
                &&& forall|i: int|
                    0 <= i < rows@.len() ==> (#[trigger] rows@[i]).archives(readings@[i], at)
                &&& plain_time(at) ==> forall|i: int|
                    0 <= i < rows@.len() ==> clock::rfc3339_time(
                        (#[trigger] rows@[i]).received_at@,
                    ) == Some((at.secs, at.nanos))
            },
            Err(error) => readings@.len() == 0 && error == ArchiveError::NothingToArchive,
        },
{
    if readings.len() == 0 {
        return Err(ArchiveError::NothingToArchive);
    }
    let mut rows: Vec<ArchiveRow> = Vec::new();
    let mut index: usize = 0;
    while index < readings.len()
        invariant
            index <= readings@.len(),
            rows@.len() == index,
            at.wf(),
            forall|i: int| 0 <= i < index ==> (#[trigger] rows@[i]).archives(readings@[i], at),
            plain_time(at) ==> forall|i: int|
                0 <= i < index ==> clock::rfc3339_time((#[trigger] rows@[i]).received_at@) == Some(
                    (at.secs, at.nanos),
                ),
        decreases readings@.len() - index,
    {
        let reading: MeterReading = readings[index];
        rows.push(
            ArchiveRow {
                received_at: time_text(at),
                received_at_epoch: at.to_millis(),
                total_power: reading.total_power,
                heartbeat: reading.heartbeat,
                reading: reading_json(&reading),
            },
        );
        index = index + 1;
    }
    Ok(rows)
}

/// A row as the archive hands it back.
pub struct StoredRow {
    pub received_at: String,
    /// Milliseconds since the epoch.
    pub received_at_epoch: i64,
    pub reading: Json,
}

/// The reading that a stored value is.
pub open spec fn stored_reading(value: Json) -> Option<MeterReading> {
    match json::shape_of(value) {
        Some(shape) => input::typed_reading(shape),
        None => None,
    }
}

/// What a row is read back as.
pub open spec fn restored(row: StoredRow) -> Result<HistoryEntry<MeterReading>, ArchiveError> {
    match clock::time_of(clock::rfc3339_time(row.received_at@)) {
        None => Err(ArchiveError::InvalidStoredTimestamp),
        Some(timestamp) => match stored_reading(row.reading) {
            None => Err(ArchiveError::InvalidStoredMeasurement),
            Some(data) => Ok(HistoryEntry { timestamp, data }),
        },
    }
}

/// What rows are read back as, in their order, or the first thing wrong.
pub open spec fn all_restored(rows: Seq<StoredRow>) -> Result<
    Seq<HistoryEntry<MeterReading>>,
    ArchiveError,
>
    decreases rows.len(),
{
    if rows.len() == 0 {
        Ok(Seq::empty())
    } else {
        match all_restored(rows.drop_last()) {
            Err(error) => Err(error),
            Ok(entries) => match restored(rows.last()) {
                Err(error) => Err(error),
                Ok(entry) => Ok(entries.push(entry)),
            },
        }
    }
}

/// A reading that was accepted, archived and read back is the reading that was
/// archived, at the time it was archived.
pub proof fn lemma_archived_readings_come_back(
    row: ArchiveRow,
    stored: StoredRow,
    reading: MeterReading,
    at: Timestamp,
)
    requires
        row.archives(reading, at),
        input::value_error(reading) is None,
        clock::rfc3339_time(row.received_at@) == Some((at.secs, at.nanos)),
        stored.received_at@ == row.received_at@,
        stored.reading == row.reading,
    ensures
        restored(stored) == Ok::<HistoryEntry<MeterReading>, ArchiveError>(
            HistoryEntry { timestamp: at, data: reading },
        ),
{
    encoding::lemma_what_is_written_is_read(row.reading, reading, encoding::mark_of(reading));
}

fn read_stored(value: &Json) -> (reading: Option<MeterReading>)
    ensures
        reading == stored_reading(*value),
{
    match source_of(value) {
        Some(source) => decode_typed(source),
        None => None,
    }
}

fn restore_row(row: &StoredRow) -> (result: Result<HistoryEntry<MeterReading>, ArchiveError>)
    ensures
        result == restored(*row),
        result matches Ok(entry) ==> entry.timestamp.wf(),
{
    let timestamp: Timestamp = match parse_time(row.received_at.as_str()) {
        Some(timestamp) => timestamp,
        None => return Err(ArchiveError::InvalidStoredTimestamp),
    };
    match read_stored(&row.reading) {
        Some(data) => Ok(HistoryEntry { timestamp, data }),
        None => Err(ArchiveError::InvalidStoredMeasurement),
    }
}

/// After an error nothing that follows is read.
proof fn lemma_restore_error_stays(rows: Seq<StoredRow>, count: int, error: ArchiveError)
    requires
        0 <= count <= rows.len(),
        all_restored(rows.take(count)) == Err::<Seq<HistoryEntry<MeterReading>>, ArchiveError>(
            error,
        ),
    ensures
        all_restored(rows) == Err::<Seq<HistoryEntry<MeterReading>>, ArchiveError>(error),
    decreases rows.len(),
{
    if count == rows.len() {
        assert(rows.take(count) =~= rows);
    } else {
        assert(rows.drop_last().take(count) =~= rows.take(count));
        lemma_restore_error_stays(rows.drop_last(), count, error);
    }
}

fn restore_rows(rows: &Vec<StoredRow>, count: usize) -> (result: Result<
    Vec<HistoryEntry<MeterReading>>,
    ArchiveError,
>)
    requires
        count <= rows@.len(),
    ensures
        match result {
            Ok(entries) => {
                &&& all_restored(rows@.take(count as int)) == Ok::<
                    Seq<HistoryEntry<MeterReading>>,
                    ArchiveError,
                >(entries@)
                &&& entries@.len() == count
                &&& forall|i: int|
                    0 <= i < entries@.len() ==> (#[trigger] entries@[i]).timestamp.wf()
            },
            Err(error) => all_restored(rows@.take(count as int)) == Err::<
                Seq<HistoryEntry<MeterReading>>,
                ArchiveError,
            >(error),
        },
{
    let mut entries: Vec<HistoryEntry<MeterReading>> = Vec::new();
    let mut index: usize = 0;
    let ghost taken = rows@.take(count as int);
    assert(taken.take(0) =~= Seq::<StoredRow>::empty());
    while index < count
        invariant
            index <= count,
            count <= rows@.len(),
            taken == rows@.take(count as int),
            entries@.len() == index,
            all_restored(taken.take(index as int)) == Ok::<
                Seq<HistoryEntry<MeterReading>>,
                ArchiveError,
            >(entries@),
            forall|i: int| 0 <= i < entries@.len() ==> (#[trigger] entries@[i]).timestamp.wf(),
        decreases count - index,
    {
        assert(taken.take(index + 1).drop_last() =~= taken.take(index as int));
        match restore_row(&rows[index]) {
            Ok(entry) => {
                entries.push(entry);
            },
            Err(error) => {
                proof {
                    lemma_restore_error_stays(taken, index + 1, error);
                }
                return Err(error);
            },
        }
        index = index + 1;
    }
    assert(taken.take(index as int) =~= taken);
    Ok(entries)
}

/// The entries of a record after others were pushed into it.
pub open spec fn pushed(
    entries: Seq<HistoryEntry<MeterReading>>,
    limit: Option<usize>,
    more: Seq<HistoryEntry<MeterReading>>,
) -> Seq<HistoryEntry<MeterReading>>
    decreases more.len(),
{
    if more.len() == 0 {
        entries
    } else {
        history::newest(pushed(entries, limit, more.drop_last()).push(more.last()), limit)
    }
}

/// Fills a record with every row of the archive, oldest first, and counts them.
/// Where a row cannot be read, the record stays as it is.
pub fn load_cache(rows: &Vec<StoredRow>, history: &mut History<MeterReading>) -> (result: Result<
    u64,
    ArchiveError,
>)
    requires
        old(history).wf(),
    ensures
        final(history).wf(),
        final(history).bound() == old(history).bound(),
        match result {
            Ok(count) => {
                &&& count == rows@.len()
                &&& all_restored(rows@) matches Ok(entries)
                &&& final(history)@ == pushed(old(history)@, old(history).bound(), entries)
                &&& (forall|i: int|
                    0 <= i < old(history)@.len() ==> (
                    #[trigger] old(history)@[i]).timestamp.wf()) ==> forall|i: int|
                    0 <= i < final(history)@.len() ==> (
                    #[trigger] final(history)@[i]).timestamp.wf()
            },
            Err(error) => {
                &&& all_restored(rows@) == Err::<Seq<HistoryEntry<MeterReading>>, ArchiveError>(
                    error,
                )
                &&& final(history)@ == old(history)@
            },
        },
{
    let ghost before = history@;
    let ghost limit = history.bound();
    let count: usize = rows.len();
    assert(rows@.take(count as int) =~= rows@);
    let entries: Vec<HistoryEntry<MeterReading>> = match restore_rows(rows, count) {
        Ok(entries) => entries,
        Err(error) => return Err(error),
    };
    let mut index: usize = 0;
    assert(entries@.take(0) =~= Seq::<HistoryEntry<MeterReading>>::empty());
    while index < count
        invariant
            index <= count,
            count == entries@.len(),
            history.wf(),
            history.bound() == limit,
            history@ == pushed(before, limit, entries@.take(index as int)),
            forall|i: int| 0 <= i < entries@.len() ==> (#[trigger] entries@[i]).timestamp.wf(),
            (forall|i: int| 0 <= i < before.len() ==> (#[trigger] before[i]).timestamp.wf())
                ==> forall|i: int|
                0 <= i < history@.len() ==> (#[trigger] history@[i]).timestamp.wf(),
        decreases count - index,
    {
        let ghost kept = history@;
        let timestamp: Timestamp = entries[index].timestamp;
        let data: MeterReading = entries[index].data;
        history.push(data, timestamp);
        proof {
            let entry = HistoryEntry { timestamp, data };
            assert(entry == entries@[index as int]);
            assert(entries@.take(index + 1).drop_last() =~= entries@.take(index as int));
            if forall|i: int| 0 <= i < before.len() ==> (#[trigger] before[i]).timestamp.wf() {
                assert forall|i: int| 0 <= i < history@.len() implies (
                #[trigger] history@[i]).timestamp.wf() by {
                    let all = kept.push(entry);
                    let from = all.len() - history@.len();
                    assert(history@[i] == all[from + i]);
                }
            }
        }
        index = index + 1;
    }
    assert(entries@.take(index as int) =~= entries@);
    Ok(count as u64)
}

/// The first millisecond of a window that ends at another.
pub open spec fn window_start(newest: i64, window: Span) -> int {
    let millis = window.nanos as int / 1_000_000;
    let length = if millis <= i64::MAX {
        millis
    } else {
        i64::MAX as int
    };
    if newest - length < i64::MIN {
        i64::MIN as int
    } else {
        newest - length
    }
}

/// The first millisecond of a window that ends at another.
pub fn cutoff(newest: i64, window: Span) -> (start: i64)
    ensures
        start == window_start(newest, window),
{
    let millis: u128 = window.nanos / 1_000_000;
    let length: i64 = if millis <= i64::MAX as u128 {
        millis as i64
    } else {
        i64::MAX
    };
    if newest as i128 - length as i128 >= i64::MIN as i128 {
        newest - length
    } else {
        i64::MIN
    }
}

/// How many rows at the front are not older than a time, up to a limit.
pub open spec fn recent_rows(rows: Seq<StoredRow>, start: int, limit: int) -> int
    decreases rows.len(),
{
    if rows.len() == 0 || limit <= 0 || rows[0].received_at_epoch < start {
        0
    } else {
        1 + recent_rows(rows.drop_first(), start, limit - 1)
    }
}

proof fn lemma_recent_rows(rows: Seq<StoredRow>, start: int, limit: int, count: int)
    requires
        0 <= count <= rows.len(),
        0 <= count <= limit,
        forall|i: int| 0 <= i < count ==> (#[trigger] rows[i]).received_at_epoch >= start,
        count < rows.len() && count < limit ==> rows[count].received_at_epoch < start,
    ensures
        recent_rows(rows, start, limit) == count,
    decreases count,
{
    if count > 0 {
        let rest = rows.drop_first();
        assert(rows[0].received_at_epoch >= start);
        assert forall|i: int| 0 <= i < count - 1 implies (
        #[trigger] rest[i]).received_at_epoch >= start by {
            assert(rest[i] == rows[i + 1]);
        }
        lemma_recent_rows(rest, start, limit - 1, count - 1);
    }
}

/// The rows taken for a look at the recent past: those at the front that fall in
/// the window which ends at the newest.
pub open spec fn taken_rows(rows: Seq<StoredRow>, window: Span) -> Seq<StoredRow> {
    if rows.len() == 0 {
        Seq::empty()
    } else {
        rows.take(
            recent_rows(
                rows,
                window_start(rows[0].received_at_epoch, window),
                RECENT_LIMIT as int,
            ),
        )
    }
}

/// The latest recorded window, oldest first, out of rows that come newest first.
pub fn recent(rows: &Vec<StoredRow>, window: Span) -> (result: Result<
    Vec<HistoryEntry<MeterReading>>,
    ArchiveError,
>)
    ensures
        match result {
            Ok(entries) => {
                &&& all_restored(taken_rows(rows@, window)) == Ok::<
                    Seq<HistoryEntry<MeterReading>>,
                    ArchiveError,
                >(entries@.reverse())
                &&& forall|i: int|
                    0 <= i < entries@.len() ==> (#[trigger] entries@[i]).timestamp.wf()
            },
            Err(error) => all_restored(taken_rows(rows@, window)) == Err::<
                Seq<HistoryEntry<MeterReading>>,
                ArchiveError,
            >(error),
        },
{
    if rows.len() == 0 {
        let entries: Vec<HistoryEntry<MeterReading>> = Vec::new();
        assert(entries@.reverse() =~= Seq::<HistoryEntry<MeterReading>>::empty());
        return Ok(entries);
    }
    let start: i64 = cutoff(rows[0].received_at_epoch, window);
    let mut count: usize = 0;
    while count < rows.len() && count < RECENT_LIMIT && rows[count].received_at_epoch >= start
        invariant
            count <= rows@.len(),
            count <= RECENT_LIMIT,
            forall|i: int| 0 <= i < count ==> (#[trigger] rows@[i]).received_at_epoch >= start,
        decreases rows@.len() - count,
    {
        count = count + 1;
    }
    proof {
        lemma_recent_rows(rows@, start as int, RECENT_LIMIT as int, count as int);
    }
    let newest_first: Vec<HistoryEntry<MeterReading>> = match restore_rows(rows, count) {
        Ok(entries) => entries,
        Err(error) => return Err(error),
    };
    let mut entries: Vec<HistoryEntry<MeterReading>> = Vec::new();
    let mut left: usize = count;
    while left > 0
        invariant
            left <= count,
            count == newest_first@.len(),
            entries@.len() == count - left,
            forall|i: int|
                0 <= i < count - left ==> #[trigger] entries@[i] == newest_first@[count - 1 - i],
            forall|i: int|
                0 <= i < newest_first@.len() ==> (#[trigger] newest_first@[i]).timestamp.wf(),
        decreases left,
    {
        left = left - 1;
        let timestamp: Timestamp = newest_first[left].timestamp;
        let data: MeterReading = newest_first[left].data;
        entries.push(HistoryEntry { timestamp, data });
    }
    assert(entries@.reverse() =~= newest_first@);
    Ok(entries)
}

/// Where rows come newest first, the ones taken are exactly those in the window,
/// unless there are more than the limit.
pub proof fn lemma_the_window_is_taken(rows: Seq<StoredRow>, start: int, limit: int, index: int)
    requires
        limit >= rows.len(),
        forall|i: int, j: int|
            0 <= i < j < rows.len() ==> (#[trigger] rows[i]).received_at_epoch >= (
            #[trigger] rows[j]).received_at_epoch,
        0 <= index < rows.len(),
    ensures
        rows[index].received_at_epoch >= start <==> index < recent_rows(rows, start, limit),
    decreases rows.len(),
{
    let rest = rows.drop_first();
    assert forall|i: int, j: int| 0 <= i < j < rest.len() implies (
    #[trigger] rest[i]).received_at_epoch >= (#[trigger] rest[j]).received_at_epoch by {
        assert(rest[i] == rows[i + 1]);
        assert(rest[j] == rows[j + 1]);
    }
    lemma_recent_rows_are_some(rest, start, limit - 1);
    if index > 0 {
        assert(rows[0].received_at_epoch >= rows[index].received_at_epoch);
        assert(rest[index - 1] == rows[index]);
        lemma_the_window_is_taken(rest, start, limit - 1, index - 1);
    }
}

proof fn lemma_recent_rows_are_some(rows: Seq<StoredRow>, start: int, limit: int)
    ensures
        recent_rows(rows, start, limit) >= 0,
    decreases rows.len(),
{
    if rows.len() > 0 && limit > 0 {
        lemma_recent_rows_are_some(rows.drop_first(), start, limit - 1);
    }
}

/// Calls `Hash::hash` of a byte slice, which feeds the bytes into the hasher.
/// What it writes to the hasher is left to the implementation and differs
/// between machines, so nothing is said of the hasher afterwards.
#[verifier::external_body]
fn feed(bytes: &[u8], hasher: &mut DefaultHasher) {
    bytes.hash(hasher);
}

/// A digest as it is kept: sixteen hexadecimal digits.
pub fn digest_text(digest: u64) -> (text: String)
    ensures
        text@ == text::hex_digits(digest as nat, 16),
{
    hex(digest, 16)
}

/// The digest by which a file is known again.
pub fn hash_bytes(bytes: &[u8]) -> (text: String)
    ensures
        exists|digest: u64| text@ == #[trigger] text::hex_digits(digest as nat, 16),
{
    let mut hasher: DefaultHasher = DefaultHasher::new();
    feed(bytes, &mut hasher);
    let digest: u64 = hasher.finish();
    digest_text(digest)
}

/// Whether a file still has to be imported, given the digest it was imported
/// under, if it was.  A file that changed since is refused.
pub fn migration_due(imported: Option<&str>, source_hash: &str) -> (result: Result<
    bool,
    ArchiveError,
>)
    ensures
        match imported {
            None => result == Ok::<bool, ArchiveError>(true),
            Some(earlier) => if earlier@ == source_hash@ {
                result == Ok::<bool, ArchiveError>(false)
            } else {
                result == Err::<bool, ArchiveError>(ArchiveError::SourceChanged)
            },
        },
{
    match imported {
        None => Ok(true),
        Some(earlier) => {
            if same_text(earlier, source_hash) {
                Ok(false)
            } else {
                Err(ArchiveError::SourceChanged)
            }
        },
    }
}

/// The complete lines of a file, and what follows the last of them.
pub open spec fn split(bytes: Seq<u8>) -> (Seq<Seq<u8>>, Seq<u8>)
    decreases bytes.len(),
{
    if bytes.len() == 0 {
        (Seq::empty(), Seq::empty())
    } else {
        let (lines, rest) = split(bytes.drop_last());
        let line = rest.push(bytes.last());
        if bytes.last() == 10 {
            (lines.push(line), Seq::empty())
        } else {
            (lines, line)
        }
    }
}

/// The bytes of several lines, one after another.
pub open spec fn joined_lines(lines: Seq<Seq<u8>>) -> Seq<u8>
    decreases lines.len(),
{
    if lines.len() == 0 {
        Seq::empty()
    } else {
        joined_lines(lines.drop_last()) + lines.last()
    }
}

/// A complete line: it ends where its only line break stands.
pub open spec fn is_line(line: Seq<u8>) -> bool {
    &&& line.len() > 0
    &&& forall|i: int| 0 <= i < line.len() ==> (#[trigger] line[i] == 10 <==> i == line.len() - 1)
}

/// Splitting a file loses nothing: its lines and the rest make up the file, each
/// line is complete, and the rest holds no line break.
pub proof fn lemma_splitting_loses_nothing(bytes: Seq<u8>)
    ensures
        joined_lines(split(bytes).0) + split(bytes).1 == bytes,
        forall|i: int| 0 <= i < split(bytes).0.len() ==> is_line(#[trigger] split(bytes).0[i]),
        forall|i: int| 0 <= i < split(bytes).1.len() ==> #[trigger] split(bytes).1[i] != 10,
    decreases bytes.len(),
{
    if bytes.len() > 0 {
        let (lines, rest) = split(bytes.drop_last());
        let line = rest.push(bytes.last());
        lemma_splitting_loses_nothing(bytes.drop_last());
        assert(bytes =~= bytes.drop_last().push(bytes.last()));
        if bytes.last() == 10 {
            assert(lines.push(line).drop_last() =~= lines);
            assert(joined_lines(lines.push(line)) =~= joined_lines(lines) + line);
            assert(joined_lines(lines) + line + Seq::<u8>::empty() =~= (joined_lines(lines)
                + rest).push(bytes.last()));
            assert(is_line(line));
        } else {
            assert(joined_lines(lines) + line =~= (joined_lines(lines) + rest).push(bytes.last()));
        }
    } else {
        assert(joined_lines(split(bytes).0) + split(bytes).1 =~= bytes);
    }
}

/// A complete line of a file.
pub struct Line {
    /// The byte the line begins at.
    pub start: usize,
    pub bytes: Vec<u8>,
}

/// The bytes of several lines.
pub open spec fn line_bytes(lines: Seq<Line>) -> Seq<Seq<u8>> {
    lines.map_values(|line: Line| line.bytes@)
}

/// The complete lines of a file.  What follows the last of them is an
/// interrupted write, and is left out.
pub fn complete_lines(bytes: &[u8]) -> (lines: Vec<Line>)
    ensures
        line_bytes(lines@) == split(bytes@).0,
        forall|i: int|
            0 <= i < lines@.len() ==> (#[trigger] lines@[i]).start == joined_lines(
                line_bytes(lines@.take(i)),
            ).len(),
{
    let mut lines: Vec<Line> = Vec::new();
    let mut line: Vec<u8> = Vec::new();
    let mut start: usize = 0;
    let mut index: usize = 0;
    assert(bytes@.take(0) =~= Seq::<u8>::empty());
    assert(line_bytes(lines@) =~= Seq::<Seq<u8>>::empty());
    while index < bytes.len()
        invariant
            index <= bytes@.len(),
            line_bytes(lines@) == split(bytes@.take(index as int)).0,
            line@ == split(bytes@.take(index as int)).1,
            start == joined_lines(line_bytes(lines@)).len(),
            start + line@.len() == index,
            forall|i: int|
                0 <= i < lines@.len() ==> (#[trigger] lines@[i]).start == joined_lines(
                    line_bytes(lines@.take(i)),
                ).len(),
        decreases bytes@.len() - index,
    {
        let byte: u8 = bytes[index];
        assert(bytes@.take(index + 1).drop_last() =~= bytes@.take(index as int));
        line.push(byte);
        index = index + 1;
        if byte == 10 {
            let ghost before = lines@;
            let ghost whole = line@;
            lines.push(Line { start, bytes: line });
            proof {
                assert(line_bytes(lines@) =~= line_bytes(before).push(whole));
                assert(line_bytes(before).push(whole).drop_last() =~= line_bytes(before));
                assert forall|i: int| 0 <= i < lines@.len() implies (
                #[trigger] lines@[i]).start == joined_lines(line_bytes(lines@.take(i))).len() by {
                    if i < before.len() {
                        assert(lines@.take(i) =~= before.take(i));
                        assert(before[i].start == lines@[i].start);
                    } else {
                        assert(lines@.take(i) =~= before);
                    }
                }
            }
            start = index;
            line = Vec::new();
        }
    }
    assert(bytes@.take(index as int) =~= bytes@);
    lines
}

/// A line of the file, as far as it could be read.
pub struct ParsedLine {
    /// The byte the line begins at.
    pub start: u64,
    pub value: Option<Json>,
}

/// A batch as a line of the file writes it out.
pub struct StoredBatch {
    pub schema_version: u8,
    pub received_at: String,
    pub readings: Vec<MeterReading>,
}

/// The readings in a list, if every one of them is one.
pub open spec fn stored_readings(values: Seq<Json>) -> Option<Seq<MeterReading>>
    decreases values.len(),
{
    if values.len() == 0 {
        Some(Seq::empty())
    } else {
        match (stored_readings(values.drop_last()), stored_reading(values.last())) {
            (Some(earlier), Some(reading)) => Some(earlier.push(reading)),
            _ => None,
        }
    }
}

/// The version, the time and the readings that a value writes out, if it is a
/// batch.
pub open spec fn batch_parts(value: Json) -> Option<(u8, Seq<char>, Seq<MeterReading>)> {
    match json::shape_of(value) {
        Some(shape) => {
            let version = shape.at("schema_version"@, 0);
            let received = shape.at("received_at"@, 1);
            let readings = shape.at("readings"@, 2);
            match (version, received, readings) {
                (
                    Field::Present(Json::Integer(version)),
                    Field::Present(Json::Text { text, .. }),
                    Field::Present(Json::List(values)),
                ) => match stored_readings(values@) {
                    Some(readings) => if 0 <= version <= 255 && shape.fits(3) {
                        Some((version as u8, text@, readings))
                    } else {
                        None
                    },
                    None => None,
                },
                _ => None,
            }
        },
        None => None,
    }
}

/// A list that fails early fails.
proof fn lemma_failure_stays(values: Seq<Json>, count: int)
    requires
        0 <= count <= values.len(),
        stored_readings(values.take(count)) is None,
    ensures
        stored_readings(values) is None,
    decreases values.len(),
{
    if count == values.len() {
        assert(values.take(count) =~= values);
    } else {
        assert(values.drop_last().take(count) =~= values.take(count));
        lemma_failure_stays(values.drop_last(), count);
    }
}

fn read_list(values: &Vec<Json>) -> (result: Option<Vec<MeterReading>>)
    ensures
        match result {
            Some(readings) => stored_readings(values@) == Some(readings@),
            None => stored_readings(values@) is None,
        },
{
    let mut readings: Vec<MeterReading> = Vec::new();
    let mut index: usize = 0;
    assert(values@.take(0) =~= Seq::<Json>::empty());
    while index < values.len()
        invariant
            index <= values@.len(),
            stored_readings(values@.take(index as int)) == Some(readings@),
        decreases values@.len() - index,
    {
        assert(values@.take(index + 1).drop_last() =~= values@.take(index as int));
        match read_stored(&values[index]) {
            Some(reading) => {
                readings.push(reading);
            },
            None => {
                proof {
                    lemma_failure_stays(values@, index + 1);
                }
                return None;
            },
        }
        index = index + 1;
    }
    assert(values@.take(index as int) =~= values@);
    Some(readings)
}

/// Reads a batch.
pub fn decode_batch(value: &Json) -> (batch: Option<StoredBatch>)
    ensures
        match batch {
            Some(batch) => batch_parts(*value) == Some(
                (batch.schema_version, batch.received_at@, batch.readings@),
            ),
            None => batch_parts(*value) is None,
        },
{
    let source: Source<'_> = match source_of(value) {
        Some(source) => source,
        None => return None,
    };
    if !source.has_place(3) {
        return None;
    }
    let schema_version: u8 = match source.find("schema_version", 0) {
        Found::Present(value) => match value {
            Json::Integer(version) => {
                if 0 <= *version && *version <= 255 {
                    *version as u8
                } else {
                    return None;
                }
            },
            _ => return None,
        },
        _ => return None,
    };
    let received_at: String = match source.find("received_at", 1) {
        Found::Present(value) => match value {
            Json::Text { text, number: _ } => text.clone(),
            _ => return None,
        },
        _ => return None,
    };
    match source.find("readings", 2) {
        Found::Present(value) => match value {
            Json::List(values) => match read_list(values) {
                Some(readings) => Some(StoredBatch { schema_version, received_at, readings }),
                None => None,
            },
            _ => None,
        },
        _ => None,
    }
}

/// The readings of a line, with the time they were received at.
pub struct ImportedBatch {
    pub at: Timestamp,
    pub readings: Vec<MeterReading>,
}

/// The time and the readings that a line holds, or what is wrong with it.
pub open spec fn line_batch(line: ParsedLine) -> Result<
    (Timestamp, Seq<MeterReading>),
    ArchiveError,
> {
    let parts = match line.value {
        Some(value) => batch_parts(value),
        None => None,
    };
    match parts {
        None => Err(ArchiveError::InvalidBatch(line.start)),
        Some((version, received_at, readings)) => if version != 1 {
            Err(ArchiveError::UnsupportedSchema)
        } else if readings.len() == 0 {
            Err(ArchiveError::EmptyBatch)
        } else {
            match clock::time_of(clock::rfc3339_time(received_at)) {
                None => Err(ArchiveError::InvalidTimestamp),
                Some(at) => Ok((at, readings)),
            }
        },
    }
}

/// What a file is imported as: its batches in order, or the first thing wrong.
pub open spec fn imported(lines: Seq<ParsedLine>) -> Result<
    Seq<(Timestamp, Seq<MeterReading>)>,
    ArchiveError,
>
    decreases lines.len(),
{
    if lines.len() == 0 {
        Ok(Seq::empty())
    } else {
        match imported(lines.drop_last()) {
            Err(error) => Err(error),
            Ok(batches) => match line_batch(lines.last()) {
                Err(error) => Err(error),
                Ok(batch) => if batches.len() > 0 && batch.0.earlier(batches.last().0) {
                    Err(ArchiveError::OutOfOrder)
                } else {
                    Ok(batches.push(batch))
                },
            },
        }
    }
}

/// The times and the readings of imported batches.
pub open spec fn batch_views(batches: Seq<ImportedBatch>) -> Seq<(Timestamp, Seq<MeterReading>)> {
    batches.map_values(|batch: ImportedBatch| (batch.at, batch.readings@))
}

/// What a file is imported as keeps the order of its times.
pub proof fn lemma_imported_times_never_go_back(lines: Seq<ParsedLine>, i: int, j: int)
    requires
        imported(lines) is Ok,
        0 <= i < j < imported(lines)->Ok_0.len(),
    ensures
        !imported(lines)->Ok_0[j].0.earlier(imported(lines)->Ok_0[i].0),
    decreases lines.len(),
{
    let batches = imported(lines)->Ok_0;
    let earlier = imported(lines.drop_last())->Ok_0;
    assert(batches == earlier.push(batches.last()));
    if j < earlier.len() {
        lemma_imported_times_never_go_back(lines.drop_last(), i, j);
    } else if i < earlier.len() - 1 {
        lemma_imported_times_never_go_back(lines.drop_last(), i, earlier.len() - 1);
    }
}

/// After an error no line that follows is read.
proof fn lemma_import_error_stays(lines: Seq<ParsedLine>, count: int, error: ArchiveError)
    requires
        0 <= count <= lines.len(),
        imported(lines.take(count)) == Err::<Seq<(Timestamp, Seq<MeterReading>)>, ArchiveError>(
            error,
        ),
    ensures
        imported(lines) == Err::<Seq<(Timestamp, Seq<MeterReading>)>, ArchiveError>(error),
    decreases lines.len(),
{
    if count == lines.len() {
        assert(lines.take(count) =~= lines);
    } else {
        assert(lines.drop_last().take(count) =~= lines.take(count));
        lemma_import_error_stays(lines.drop_last(), count, error);
    }
}

fn read_line(line: &ParsedLine) -> (result: Result<ImportedBatch, ArchiveError>)
    ensures
        match result {
            Ok(batch) => line_batch(*line) == Ok::<(Timestamp, Seq<MeterReading>), ArchiveError>(
                (batch.at, batch.readings@),
            ) && batch.at.wf(),
            Err(error) => line_batch(*line) == Err::<
                (Timestamp, Seq<MeterReading>),
                ArchiveError,
            >(error),
        },
{
    let decoded: Option<StoredBatch> = match &line.value {
        Some(value) => decode_batch(value),
        None => None,
    };
    let batch: StoredBatch = match decoded {
        Some(batch) => batch,
        None => return Err(ArchiveError::InvalidBatch(line.start)),
    };
    if batch.schema_version != 1 {
        return Err(ArchiveError::UnsupportedSchema);
    }
    if batch.readings.len() == 0 {
        return Err(ArchiveError::EmptyBatch);
    }
    match parse_time(batch.received_at.as_str()) {
        Some(at) => Ok(ImportedBatch { at, readings: batch.readings }),
        None => Err(ArchiveError::InvalidTimestamp),
    }
}

/// Reads every line of a file before anything of it is stored.
pub fn import_batches(lines: &Vec<ParsedLine>) -> (result: Result<
    Vec<ImportedBatch>,
    ArchiveError,
>)
    ensures
        match result {
            Ok(batches) => {
                &&& imported(lines@) == Ok::<
                    Seq<(Timestamp, Seq<MeterReading>)>,
                    ArchiveError,
                >(batch_views(batches@))
                &&& forall|i: int| 0 <= i < batches@.len() ==> (#[trigger] batches@[i]).at.wf()
            },
            Err(error) => imported(lines@) == Err::<
                Seq<(Timestamp, Seq<MeterReading>)>,
                ArchiveError,
            >(error),
        },
{
    let mut batches: Vec<ImportedBatch> = Vec::new();
    let mut last: Option<Timestamp> = None;
    let mut index: usize = 0;
    assert(lines@.take(0) =~= Seq::<ParsedLine>::empty());
    assert(batch_views(batches@) =~= Seq::<(Timestamp, Seq<MeterReading>)>::empty());
    while index < lines.len()
        invariant
            index <= lines@.len(),
            imported(lines@.take(index as int)) == Ok::<
                Seq<(Timestamp, Seq<MeterReading>)>,
                ArchiveError,
            >(batch_views(batches@)),
            last == if batches@.len() > 0 {
                Some(batches@.last().at)
            } else {
                None
            },
            forall|i: int| 0 <= i < batches@.len() ==> (#[trigger] batches@[i]).at.wf(),
        decreases lines@.len() - index,
    {
        assert(lines@.take(index + 1).drop_last() =~= lines@.take(index as int));
        let batch: ImportedBatch = match read_line(&lines[index]) {
            Ok(batch) => batch,
            Err(error) => {
                proof {
                    lemma_import_error_stays(lines@, index + 1, error);
                }
                return Err(error);
            },
        };
        if let Some(last) = last {
            if batch.at.is_before(last) {
                proof {
                    lemma_import_error_stays(lines@, index + 1, ArchiveError::OutOfOrder);
                }
                return Err(ArchiveError::OutOfOrder);
            }
        }
        last = Some(batch.at);
        let ghost before = batches@;
        let ghost view = (batch.at, batch.readings@);
        batches.push(batch);
        assert(batch_views(batches@) =~= batch_views(before).push(view));
        index = index + 1;
    }
    assert(lines@.take(index as int) =~= lines@);
    Ok(batches)
}

/// The readings of batches in order, each with the time of its batch.
pub open spec fn entries_of(batches: Seq<(Timestamp, Seq<MeterReading>)>) -> Seq<
    (MeterReading, Timestamp),
>
    decreases batches.len(),
{
    if batches.len() == 0 {
        Seq::empty()
    } else {
        let (at, readings) = batches.last();
        entries_of(batches.drop_last()) + Seq::new(readings.len(), |i: int| (readings[i], at))
    }
}

/// What the older file adds to the archive, given the digest it was imported
/// under, if it was: nothing where it was imported before, and otherwise all of
/// its readings, or an error.
pub open spec fn migration(
    imported_as: Option<Seq<char>>,
    source_hash: Seq<char>,
    lines: Seq<ParsedLine>,
) -> Result<Option<Seq<(MeterReading, Timestamp)>>, ArchiveError> {
    match imported_as {
        Some(earlier) => if earlier == source_hash {
            Ok(None)
        } else {
            Err(ArchiveError::SourceChanged)
        },
        None => match imported(lines) {
            Ok(batches) => Ok(Some(entries_of(batches))),
            Err(error) => Err(error),
        },
    }
}

/// Decides what the older file adds to the archive: `None` where it was imported
/// before, and otherwise every batch of it, to be stored with its digest in one
/// go.
pub fn plan_import(
    imported_as: Option<&str>,
    source_hash: &str,
    lines: &Vec<ParsedLine>,
) -> (result: Result<Option<Vec<ImportedBatch>>, ArchiveError>)
    ensures
        ({
            let described = migration(
                match imported_as {
                    Some(earlier) => Some(earlier@),
                    None => None,
                },
                source_hash@,
                lines@,
            );
            match result {
                Ok(Some(batches)) => {
                    &&& described matches Ok(Some(entries))
                    &&& entries == entries_of(batch_views(batches@))
                    &&& imported(lines@) == Ok::<
                        Seq<(Timestamp, Seq<MeterReading>)>,
                        ArchiveError,
                    >(batch_views(batches@))
                    &&& forall|i: int| 0 <= i < batches@.len() ==> (#[trigger] batches@[i]).at.wf()
                },
                Ok(None) => described matches Ok(None),
                Err(error) => described == Err::<
                    Option<Seq<(MeterReading, Timestamp)>>,
                    ArchiveError,
                >(error),
            }
        }),
{
    match migration_due(imported_as, source_hash) {
        Ok(due) => {
            if !due {
                return Ok(None);
            }
            match import_batches(lines) {
                Ok(batches) => Ok(Some(batches)),
                Err(error) => Err(error),
            }
        },
        Err(error) => Err(error),
    }
}

/// The archive: its rows in order, and the digest that the older file was
/// imported under, if it was.
#[verifier::ext_equal]
pub struct Database {
    pub rows: Seq<(MeterReading, Timestamp)>,
    pub imported_as: Option<Seq<char>>,
}

/// The lines of a file, read one by one by `parse`.
pub open spec fn parsed_lines(bytes: Seq<u8>, parse: spec_fn(Seq<u8>) -> Option<Json>) -> Seq<
    ParsedLine,
> {
    let lines = split(bytes).0;
    Seq::new(
        lines.len(),
        |i: int|
            ParsedLine {
                start: joined_lines(lines.take(i)).len() as u64,
                value: parse(lines[i]),
            },
    )
}

impl Database {
    /// The archive after a file with these bytes was to be imported, and what
    /// was wrong, if anything.  `parse` reads a line, `digest` is what a file is
    /// known by.
    pub open spec fn after_import(
        self,
        bytes: Seq<u8>,
        parse: spec_fn(Seq<u8>) -> Option<Json>,
        digest: spec_fn(Seq<u8>) -> Seq<char>,
    ) -> (Database, Option<ArchiveError>) {
        match migration(self.imported_as, digest(bytes), parsed_lines(bytes, parse)) {
            Ok(Some(entries)) => (
                Database { rows: self.rows + entries, imported_as: Some(digest(bytes)) },
                None,
            ),
            Ok(None) => (self, None),
            Err(error) => (self, Some(error)),
        }
    }
}

/// An import goes through as a whole or changes nothing.  The first one adds the
/// readings of every complete line behind what is there, or fails on the first
/// line that is wrong; once the file was imported, nothing is added any more, and
/// a file that is known by another digest is refused.
pub proof fn lemma_imports_are_whole(
    database: Database,
    bytes: Seq<u8>,
    parse: spec_fn(Seq<u8>) -> Option<Json>,
    digest: spec_fn(Seq<u8>) -> Seq<char>,
)
    ensures
        ({
            let (after, error) = database.after_import(bytes, parse, digest);
            &&& error is Some ==> after == database
            &&& database.imported_as matches Some(earlier) ==> after == database && (error is None
                <==> earlier == digest(bytes)) && (error matches Some(error)
                ==> error == ArchiveError::SourceChanged)
            &&& database.imported_as is None ==> match imported(parsed_lines(bytes, parse)) {
                Ok(batches) => {
                    &&& error is None
                    &&& after.rows == database.rows + entries_of(batches)
                    &&& after.imported_as == Some(digest(bytes))
                },
                Err(wrong) => error == Some(wrong),
            }
        }),
{
}

/// Importing a file again changes nothing, and a file with another digest is
/// refused ever after, whatever it holds.
pub proof fn lemma_imports_happen_once(
    database: Database,
    bytes: Seq<u8>,
    later: Seq<u8>,
    parse: spec_fn(Seq<u8>) -> Option<Json>,
    digest: spec_fn(Seq<u8>) -> Seq<char>,
)
    requires
        database.after_import(bytes, parse, digest).1 is None,
    ensures
        ({
            let first = database.after_import(bytes, parse, digest).0;
            &&& first.after_import(bytes, parse, digest) == (first, None::<ArchiveError>)
            &&& first.after_import(later, parse, digest) == (
                first,
                if digest(later) == digest(bytes) {
                    None
                } else {
                    Some(ArchiveError::SourceChanged)
                },
            )
        }),
{
}

/// Bytes behind the last complete line, left by a write that was cut off, make no
/// difference to what a file is imported as.
pub proof fn lemma_unfinished_lines_are_left_out(
    bytes: Seq<u8>,
    rest: Seq<u8>,
    parse: spec_fn(Seq<u8>) -> Option<Json>,
)
    requires
        split(bytes).1.len() == 0,
        forall|i: int| 0 <= i < rest.len() ==> #[trigger] rest[i] != 10,
    ensures
        parsed_lines(bytes + rest, parse) == parsed_lines(bytes, parse),
        split(bytes + rest).1 == rest,
    decreases rest.len(),
{
    if rest.len() == 0 {
        assert(bytes + rest =~= bytes);
        assert(split(bytes).1 =~= rest);
    } else {
        lemma_unfinished_lines_are_left_out(bytes, rest.drop_last(), parse);
        assert((bytes + rest).drop_last() =~= bytes + rest.drop_last());
        assert(rest.drop_last().push(rest.last()) =~= rest);
        lemma_lines_stay(bytes, rest);
        lemma_lines_stay(bytes, rest.drop_last());
    }
}

proof fn lemma_lines_stay(bytes: Seq<u8>, rest: Seq<u8>)
    requires
        forall|i: int| 0 <= i < rest.len() ==> #[trigger] rest[i] != 10,
    ensures
        split(bytes + rest).0 == split(bytes).0,
    decreases rest.len(),
{
    if rest.len() == 0 {
        assert(bytes + rest =~= bytes);
    } else {
        lemma_lines_stay(bytes, rest.drop_last());
        assert((bytes + rest).drop_last() =~= bytes + rest.drop_last());
        assert(rest.last() == rest[rest.len() - 1]);
    }
}

/// A row says when its reading came and what it said, and whether it was a
/// keepalive.
pub proof fn lemma_what_a_row_says(row: ArchiveRow, reading: MeterReading, at: Timestamp)
    requires
        row.archives(reading, at),
    ensures
        row.received_at@ == clock::rfc3339_text(at.secs, at.nanos),
        row.received_at_epoch == at.secs * 1000 + at.nanos as int / 1_000_000,
        row.total_power == reading.total_power,
        row.heartbeat == reading.heartbeat,
        input::value_error(reading) is None ==> input::typed_reading(
            json::Shape::Members(row.reading->Object_0@),
        ) == Some(reading),
{
    if input::value_error(reading) is None {
        encoding::lemma_what_is_written_is_read(
            row.reading,
            reading,
            encoding::mark_of(reading),
        );
    }
}

/// Rows are read back one for one and in their order; the first that cannot be
/// read is what is complained of.
#[verifier::rlimit(40)]
pub proof fn lemma_rows_come_back_in_order(rows: Seq<StoredRow>)
    ensures
        match all_restored(rows) {
            Ok(entries) => entries.len() == rows.len() && forall|i: int|
                0 <= i < rows.len() ==> restored(#[trigger] rows[i]) == Ok::<
                    HistoryEntry<MeterReading>,
                    ArchiveError,
                >(entries[i]),
            Err(error) => exists|i: int|
                0 <= i < rows.len() && restored(#[trigger] rows[i]) == Err::<
                    HistoryEntry<MeterReading>,
                    ArchiveError,
                >(error) && forall|j: int| 0 <= j < i ==> restored(#[trigger] rows[j]) is Ok,
        },
    decreases rows.len(),
{
    if rows.len() > 0 {
        let fewer = rows.drop_last();
        let last = rows.len() - 1;
        lemma_rows_come_back_in_order(fewer);
        assert(forall|i: int| 0 <= i < fewer.len() ==> fewer[i] == #[trigger] rows[i]);
        assert(rows[last] == rows.last());
        match all_restored(fewer) {
            Err(error) => {
                let i = choose|i: int|
                    0 <= i < fewer.len() && restored(#[trigger] fewer[i]) == Err::<
                        HistoryEntry<MeterReading>,
                        ArchiveError,
                    >(error) && forall|j: int|
                        0 <= j < i ==> restored(#[trigger] fewer[j]) is Ok;
                assert(restored(rows[i]) is Err);
                assert forall|j: int| 0 <= j < i implies restored(#[trigger] rows[j]) is Ok by {
                    assert(restored(fewer[j]) is Ok);
                }
            },
            Ok(entries) => {
                assert forall|j: int| 0 <= j < last implies restored(#[trigger] rows[j]) is Ok by {
                    assert(restored(fewer[j]) is Ok);
                }
            },
        }
    }
}

/// What is read of a row is its time and its reading, each as it was written;
/// the time is looked at first.
pub proof fn lemma_what_is_read_of_a_row(row: StoredRow)
    ensures
        match restored(row) {
            Ok(entry) => {
                &&& clock::rfc3339_time(row.received_at@) == Some(
                    (entry.timestamp.secs, entry.timestamp.nanos),
                )
                &&& json::shape_of(row.reading) is Some
                &&& input::typed_reading(json::shape_of(row.reading)->0) == Some(entry.data)
            },
            Err(ArchiveError::InvalidStoredTimestamp) => clock::rfc3339_time(row.received_at@)
                 is None,
            Err(ArchiveError::InvalidStoredMeasurement) => clock::rfc3339_time(row.received_at@)
                 is Some && (json::shape_of(row.reading) is None || input::typed_reading(
                json::shape_of(row.reading)->0,
            ) is None),
            Err(_) => false,
        },
{
}

/// A record that is filled holds the newest of what it held and what was added,
/// in their order, as many as there is room for.
#[verifier::rlimit(40)]
pub proof fn lemma_a_filled_record_holds_the_newest(
    entries: Seq<HistoryEntry<MeterReading>>,
    limit: usize,
    more: Seq<HistoryEntry<MeterReading>>,
)
    requires
        entries.len() <= limit,
    ensures
        ({
            let all = entries + more;
            let held = pushed(entries, Some(limit), more);
            &&& held.len() == if all.len() <= limit {
                all.len()
            } else {
                limit as nat
            }
            &&& forall|i: int|
                0 <= i < held.len() ==> #[trigger] held[i] == all[all.len() - held.len() + i]
        }),
        pushed(entries, None, more) == entries + more,
    decreases more.len(),
{
    if more.len() > 0 {
        let fewer = more.drop_last();
        lemma_a_filled_record_holds_the_newest(entries, limit, fewer);
        assert(entries + more =~= (entries + fewer).push(more.last()));
        let before = pushed(entries, Some(limit), fewer);
        let held = pushed(entries, Some(limit), more);
        let all = entries + more;
        assert forall|i: int| 0 <= i < held.len() implies #[trigger] held[i] == all[all.len()
            - held.len() + i] by {
            let place = before.len() + 1 - held.len() + i;
            if place < before.len() {
                assert(held[i] == before[place]);
            } else {
                assert(held[i] == more.last());
            }
        }
    } else {
        assert(entries + more =~= entries);
    }
}

/// A window of so many milliseconds ends with the newest row and reaches back as
/// far as its length, or as far as the clock does.
pub proof fn lemma_where_a_window_begins(newest: i64, window: Span)
    ensures
        ({
            let millis = window.nanos as int / 1_000_000;
            &&& millis <= i64::MAX && newest - millis >= i64::MIN ==> window_start(newest, window)
                == newest - millis
            &&& millis <= i64::MAX && newest - millis < i64::MIN ==> window_start(newest, window)
                == i64::MIN
            &&& i64::MIN <= window_start(newest, window) <= newest
        }),
{
}

/// Of rows that come newest first, those in the window are taken from the front,
/// at most 600 of them, the newest always among them; the first that is not
/// taken lies before the window, unless 600 were taken.
pub proof fn lemma_the_recent_past_is_taken(rows: Seq<StoredRow>, window: Span)
    requires
        rows.len() > 0,
    ensures
        ({
            let taken = taken_rows(rows, window);
            let start = window_start(rows[0].received_at_epoch, window);
            &&& 1 <= taken.len() <= 600
            &&& taken.len() <= rows.len()
            &&& forall|i: int| 0 <= i < taken.len() ==> #[trigger] taken[i] == rows[i]
            &&& forall|i: int|
                0 <= i < taken.len() ==> (#[trigger] taken[i]).received_at_epoch >= start
            &&& taken.len() < 600 && taken.len() < rows.len() ==> rows[
            taken.len() as int].received_at_epoch < start
        }),
{
    let start = window_start(rows[0].received_at_epoch, window);
    lemma_where_a_window_begins(rows[0].received_at_epoch, window);
    lemma_rows_are_counted(rows, start, 600);
    lemma_recent_rows_are_some(rows.drop_first(), start, 599);
}

proof fn lemma_rows_are_counted(rows: Seq<StoredRow>, start: int, limit: int)
    requires
        limit >= 0,
    ensures
        ({
            let count = recent_rows(rows, start, limit);
            &&& 0 <= count <= rows.len()
            &&& count <= limit
            &&& forall|i: int|
                0 <= i < count ==> (#[trigger] rows[i]).received_at_epoch >= start
            &&& count < limit && count < rows.len() ==> rows[count].received_at_epoch < start
        }),
    decreases rows.len(),
{
    if rows.len() > 0 && limit > 0 && rows[0].received_at_epoch >= start {
        let rest = rows.drop_first();
        lemma_rows_are_counted(rest, start, limit - 1);
        assert forall|i: int| 0 <= i < recent_rows(rows, start, limit) implies (
        #[trigger] rows[i]).received_at_epoch >= start by {
            if i > 0 {
                assert(rest[i - 1] == rows[i]);
            }
        }
    }
}

/// A file is imported line by line: every line becomes its batch, in its order,
/// and none is earlier than the one before it.  The first line that is wrong, or
/// that goes back in time, is what is complained of.
#[verifier::rlimit(40)]
pub proof fn lemma_every_line_is_imported(lines: Seq<ParsedLine>)
    ensures
        match imported(lines) {
            Ok(batches) => batches.len() == lines.len() && forall|i: int|
                0 <= i < lines.len() ==> line_batch(#[trigger] lines[i]) == Ok::<
                    (Timestamp, Seq<MeterReading>),
                    ArchiveError,
                >(batches[i]),
            Err(error) => exists|i: int|
                0 <= i < lines.len() && imported(lines.take(i)) is Ok && {
                    ||| line_batch(#[trigger] lines[i]) == Err::<
                        (Timestamp, Seq<MeterReading>),
                        ArchiveError,
                    >(error)
                    ||| {
                        &&& error == ArchiveError::OutOfOrder
                        &&& i > 0
                        &&& line_batch(lines[i]) is Ok
                        &&& line_batch(lines[i - 1]) is Ok
                        &&& line_batch(lines[i])->Ok_0.0.earlier(line_batch(lines[i - 1])->Ok_0.0)
                    }
                },
        },
    decreases lines.len(),
{
    if lines.len() > 0 {
        let fewer = lines.drop_last();
        let last = lines.len() - 1;
        lemma_every_line_is_imported(fewer);
        assert(forall|i: int| 0 <= i < fewer.len() ==> fewer[i] == #[trigger] lines[i]);
        assert(lines[last] == lines.last());
        assert(lines.take(last) =~= fewer);
        match imported(fewer) {
            Err(error) => {
                let i = choose|i: int|
                    0 <= i < fewer.len() && imported(fewer.take(i)) is Ok && {
                        ||| line_batch(#[trigger] fewer[i]) == Err::<
                            (Timestamp, Seq<MeterReading>),
                            ArchiveError,
                        >(error)
                        ||| {
                            &&& error == ArchiveError::OutOfOrder
                            &&& i > 0
                            &&& line_batch(fewer[i]) is Ok
                            &&& line_batch(fewer[i - 1]) is Ok
                            &&& line_batch(fewer[i])->Ok_0.0.earlier(
                                line_batch(fewer[i - 1])->Ok_0.0,
                            )
                        }
                    };
                assert(fewer.take(i) =~= lines.take(i));
                assert(fewer[i] == lines[i]);
                if i > 0 {
                    assert(fewer[i - 1] == lines[i - 1]);
                }
            },
            Ok(batches) => {
                if batches.len() > 0 {
                    assert(line_batch(fewer[last - 1]) == Ok::<
                        (Timestamp, Seq<MeterReading>),
                        ArchiveError,
                    >(batches[last - 1]));
                    assert(batches.last() == batches[last - 1]);
                    assert(fewer[last - 1] == lines[last - 1]);
                }
            },
        }
    }
}

/// A line is a batch of version 1 with at least one reading and a time; what is
/// wrong with any other line is told by where it begins, its version, its
/// emptiness or its time, in this order.
pub proof fn lemma_what_a_line_holds(line: ParsedLine)
    ensures
        ({
            let parts = if line.value is Some {
                batch_parts(line.value->0)
            } else {
                None
            };
            match parts {
                None => line_batch(line) == Err::<(Timestamp, Seq<MeterReading>), ArchiveError>(
                    ArchiveError::InvalidBatch(line.start),
                ),
                Some((version, received_at, readings)) => match line_batch(line) {
                    Ok(batch) => version == 1 && readings.len() > 0 && batch.1 == readings
                        && clock::rfc3339_time(received_at) == Some((batch.0.secs, batch.0.nanos)),
                    Err(ArchiveError::UnsupportedSchema) => version != 1,
                    Err(ArchiveError::EmptyBatch) => version == 1 && readings.len() == 0,
                    Err(ArchiveError::InvalidTimestamp) => version == 1 && readings.len() > 0
                        && clock::rfc3339_time(received_at) is None,
                    Err(_) => false,
                },
            }
        }),
{
}

/// The readings of a line are those of its list, one for one and in order, and
/// there are none where one of them is none.
pub proof fn lemma_a_list_is_read_whole(values: Seq<Json>)
    ensures
        match stored_readings(values) {
            Some(readings) => readings.len() == values.len() && forall|i: int|
                0 <= i < values.len() ==> json::shape_of(#[trigger] values[i]) is Some
                    && input::typed_reading(json::shape_of(values[i])->0) == Some(readings[i]),
            None => exists|i: int|
                0 <= i < values.len() && (json::shape_of(#[trigger] values[i]) is None
                    || input::typed_reading(json::shape_of(values[i])->0) is None),
        },
    decreases values.len(),
{
    if values.len() > 0 {
        let fewer = values.drop_last();
        let last = values.len() - 1;
        lemma_a_list_is_read_whole(fewer);
        assert(forall|i: int| 0 <= i < fewer.len() ==> fewer[i] == #[trigger] values[i]);
        assert(values[last] == values.last());
        if stored_readings(fewer) is None {
            let i = choose|i: int|
                0 <= i < fewer.len() && (json::shape_of(#[trigger] fewer[i]) is None
                    || input::typed_reading(json::shape_of(fewer[i])->0) is None);
            assert(json::shape_of(values[i]) is None || input::typed_reading(
                json::shape_of(values[i])->0,
            ) is None);
        } else if stored_reading(values.last()) is None {
            assert(json::shape_of(values[last]) is None || input::typed_reading(
                json::shape_of(values[last])->0,
            ) is None);
        }
    }
}

/// A batch is written with its version, its time and its readings, under their
/// names or in this order.
pub proof fn lemma_what_a_batch_is_written_with(value: Json)
    ensures
        batch_parts(value) matches Some((version, received_at, readings)) ==> {
            &&& json::shape_of(value) is Some
            &&& {
                let shape = json::shape_of(value)->0;
                &&& shape.fits(3)
                &&& shape.at("schema_version"@, 0) matches Field::Present(Json::Integer(given))
                    && given == version
                &&& shape.at("received_at"@, 1) matches Field::Present(Json::Text { text, .. })
                    && text@ == received_at
                &&& shape.at("readings"@, 2) matches Field::Present(Json::List(values))
                    && stored_readings(values@) == Some(readings)
            }
        },
{
}

/// What a file adds is the readings of its batches, batch after batch, each with
/// the time of its batch.
pub proof fn lemma_batches_are_added_one_after_another(
    first: Seq<(Timestamp, Seq<MeterReading>)>,
    second: Seq<(Timestamp, Seq<MeterReading>)>,
    at: Timestamp,
    readings: Seq<MeterReading>,
)
    ensures
        entries_of(first + second) == entries_of(first) + entries_of(second),
        entries_of(seq![(at, readings)]).len() == readings.len(),
        forall|i: int|
            0 <= i < readings.len() ==> #[trigger] entries_of(seq![(at, readings)])[i] == (
                readings[i],
                at,
            ),
    decreases second.len(),
{
    reveal_with_fuel(entries_of, 2);
    let single = seq![(at, readings)];
    assert(single.drop_last() =~= Seq::<(Timestamp, Seq<MeterReading>)>::empty());
    if second.len() > 0 {
        lemma_batches_are_added_one_after_another(first, second.drop_last(), at, readings);
        assert((first + second).drop_last() =~= first + second.drop_last());
        assert((first + second).last() == second.last());
        let (time, more) = second.last();
        let added = Seq::new(more.len(), |i: int| (more[i], time));
        assert(entries_of(first) + entries_of(second.drop_last()) + added =~= entries_of(first) + (
        entries_of(second.drop_last()) + added));
    } else {
        assert(first + second =~= first);
        assert(entries_of(first) + entries_of(second) =~= entries_of(first));
    }
}

/// What is said of each error.
pub proof fn lemma_what_is_said_of_errors(byte: u64)
    ensures
        ArchiveError::InvalidBatch(byte).text() == "invalid history batch at byte "@
            + text::decimal_digits(byte as nat),
        ArchiveError::UnsupportedSchema.text() == "unsupported history schema version"@,
        ArchiveError::EmptyBatch.text() == "empty history batch"@,
        ArchiveError::InvalidTimestamp.text() == "invalid history timestamp"@,
        ArchiveError::OutOfOrder.text() == "history timestamps are out of order"@,
        ArchiveError::SourceChanged.text()
            == "legacy history file changed after migration; refusing duplicate import"@,
        ArchiveError::NothingToArchive.text() == "cannot archive an empty batch"@,
        ArchiveError::InvalidStoredTimestamp.text() == "invalid stored history timestamp"@,
        ArchiveError::InvalidStoredMeasurement.text() == "invalid stored measurement"@,
{
}

/// Imported batches are what their times and readings say, and lines what their
/// bytes say.
pub proof fn lemma_batches_and_lines_are_what_they_say(
    batches: Seq<ImportedBatch>,
    lines: Seq<Line>,
    at: int,
)
    ensures
        batch_views(batches).len() == batches.len(),
        line_bytes(lines).len() == lines.len(),
        0 <= at < batches.len() ==> batch_views(batches)[at] == (
            batches[at].at,
            batches[at].readings@,
        ),
        0 <= at < lines.len() ==> line_bytes(lines)[at] == lines[at].bytes@,
{
}

} // verus!

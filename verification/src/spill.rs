//! Spilling sorted lines to temporary storage.
//!
//! A spill is an unnamed, auto-deleted temporary file holding newline-joined
//! lines. It is written once, front to back, through a [`SpillWriter`], then
//! turned into a [`SpillReader`] that hands the same lines back in order.
//! The two uninterpreted functions [`spill_writer_lines`] and
//! [`spill_reader_lines`] name what such a file holds; the trusted wrappers
//! below state how each call moves those contents.

use vstd::prelude::*;
use crate::line::{line_ok, Line, DELIMITER};
use std::io::{BufRead, Seek, Write};

verus! {

#[verifier::external_type_specification]
#[verifier::external_body]
pub struct ExIoError(std::io::Error);

/// Write handle of a spill in progress: a buffered, unnamed temporary file.
#[verifier::external_body]
pub struct SpillWriter {
    out: std::io::BufWriter<tempfile::SpooledTempFile>,
}

/// Read handle of a finished spill: its remaining lines, front to back.
#[verifier::external_body]
pub struct SpillReader {
    lines: std::io::Split<std::io::BufReader<tempfile::SpooledTempFile>>,
}

/// The lines written to the spill so far.
pub uninterp spec fn spill_writer_lines(w: SpillWriter) -> Seq<Seq<u8>>;

/// The lines not yet read back from the spill.
pub uninterp spec fn spill_reader_lines(r: SpillReader) -> Seq<Seq<u8>>;

/// Open a fresh, empty spill.
///
/// Relies on tempfile::SpooledTempFile::new, which starts empty and rolls
/// over to an unnamed temporary file on the first write; creation itself
/// cannot fail.
#[verifier::external_body]
pub(crate) fn spill_writer_new() -> (w: SpillWriter)
    ensures
        spill_writer_lines(w) == Seq::<Seq<u8>>::empty(),
{
    SpillWriter { out: std::io::BufWriter::new(tempfile::SpooledTempFile::new(0)) }
}

/// Append one line and its delimiter to the spill.
///
/// Relies on std::io::Write::write_all through BufWriter into
/// tempfile::SpooledTempFile: on success exactly the given bytes follow what
/// was written before. The writer is consumed and handed back only when
/// both writes fully succeeded: a failed write may leave the stream
/// mid-segment, and such a writer must never be pushed to again, so it is
/// dropped here instead.
#[verifier::external_body]
pub(crate) fn spill_push(w: SpillWriter, line: &Line) -> (r: Result<SpillWriter, std::io::Error>)
    requires
        line_ok(line@),
    ensures
        r matches Ok(w2) ==> spill_writer_lines(w2) == spill_writer_lines(w).push(line@),
{
    let mut w = w;
    w.out.write_all(line)?;
    w.out.write_all(&[DELIMITER])?;
    Ok(w)
}

/// Close the spill for writing and reopen it for reading.
///
/// Relies on std::io::BufWriter::into_inner (which flushes),
/// std::io::Seek::seek back to the start, and std::io::BufRead::split on the
/// delimiter, which yields exactly the delimiter-free segments that were
/// written.
#[verifier::external_body]
pub(crate) fn spill_finish(w: SpillWriter) -> (r: Result<SpillReader, std::io::Error>)
    ensures
        r matches Ok(rd) ==> spill_reader_lines(rd) == spill_writer_lines(w),
{
    let mut file = w.out.into_inner().map_err(|e| e.into_error())?;
    file.seek(std::io::SeekFrom::Start(0))?;
    let lines = std::io::BufReader::new(file).split(DELIMITER);
    Ok(SpillReader { lines })
}

/// Read the next line back from the spill.
///
/// Relies on std::io::Split::next: the segment up to the next delimiter,
/// without the delimiter, or None once the file is drained.
#[verifier::external_body]
pub(crate) fn spill_next(r: &mut SpillReader) -> (o: Result<Option<Line>, std::io::Error>)
    ensures
        match o {
            Ok(Some(l)) => spill_reader_lines(*old(r)).len() > 0 && l@ == spill_reader_lines(
                *old(r),
            ).first() && spill_reader_lines(*final(r)) == spill_reader_lines(*old(r)).drop_first(),
            Ok(None) => spill_reader_lines(*old(r)).len() == 0 && spill_reader_lines(*final(r)).len()
                == 0,
            Err(_) => true,
        },
{
    match r.lines.next() {
        None => Ok(None),
        Some(res) => res.map(Some),
    }
}

} // verus!

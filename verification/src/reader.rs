//! Records, the line sources they are read from, and the reader that couples
//! the two.

use vstd::prelude::*;

use crate::error::ReaderError;
use crate::tokenize::{lemma_ranges_well_formed, ranges_from};

verus! {

/// One parsed line: the line's text and one character range per declared
/// width, in declaration order. A record is immutable and owns its text.
#[derive(Debug)]
pub struct Record {
    line: String,
    ranges: Vec<(usize, usize)>,
}

impl Record {
    /// The characters of the owned line.
    pub closed spec fn spec_line(&self) -> Seq<char> {
        self.line@
    }

    /// The field ranges, as half-open pairs of character positions.
    pub closed spec fn spec_ranges(&self) -> Seq<(usize, usize)> {
        self.ranges@
    }

    #[verifier::type_invariant]
    closed spec fn wf(&self) -> bool {
        &&& self.line@.len() <= usize::MAX
        &&& forall|i: int|
            #![trigger self.ranges@[i]]
            0 <= i < self.ranges@.len() ==> self.ranges@[i].0 <= self.ranges@[i].1
                && self.ranges@[i].1 <= self.line@.len()
    }

    /// The record is what splitting its own line under the given declaration
    /// yields: the line is not empty and the ranges are exactly the
    /// tokenizer's successful output.
    pub open spec fn parsed_with(&self, widths: Seq<usize>, sep_len: usize, flexible: bool) -> bool {
        &&& self.spec_line().len() > 0
        &&& self.spec_line().len() <= usize::MAX
        &&& ranges_from(self.spec_line().len() as usize, widths, sep_len, flexible, 0) == Ok::<
            Seq<(usize, usize)>,
            (usize, usize),
        >(self.spec_ranges())
    }

    /// Splits `line` under the given widths. An empty line is rejected as
    /// `EmptyLine` before any width is examined; a shortage with flexible
    /// widths disabled is rejected as `WidthMismatch` carrying the cursor
    /// position and the width that could not be satisfied; otherwise the
    /// record holds exactly the ranges the tokenizer model assigns.
    pub fn try_new(line: String, widths: &Vec<usize>, sep_len: usize, flexible_widths: bool) -> (r:
        Result<Record, ReaderError>)
        ensures
            line@.len() <= usize::MAX,
            line@.len() == 0 ==> (r matches Err(e) && e is EmptyLine),
            line@.len() > 0 ==> match ranges_from(
                line@.len() as usize,
                widths@,
                sep_len,
                flexible_widths,
                0,
            ) {
                Ok(ranges) => r matches Ok(rec) && rec.spec_line() == line@ && rec.spec_ranges()
                    == ranges,
                Err(pw) => r matches Err(e) && e == ReaderError::WidthMismatch(pw.0, pw.1),
            },
    {
        let line_len = line.as_str().unicode_len();
        if line_len == 0 {
            return Err(ReaderError::EmptyLine);
        }
        let mut ranges: Vec<(usize, usize)> = Vec::new();
        let mut cursor: usize = 0;
        let mut i: usize = 0;
        proof {
            assert(widths@.skip(0) =~= widths@);
            match ranges_from(line_len, widths@, sep_len, flexible_widths, 0) {
                Ok(rest) => {
                    assert(Seq::<(usize, usize)>::empty() + rest =~= rest);
                },
                Err(_) => {},
            }
        }
        while i < widths.len()
            invariant
                line_len == line@.len(),
                0 < line_len,
                cursor <= line_len,
                i <= widths@.len(),
                ranges@.len() == i,
                forall|k: int|
                    #![trigger ranges@[k]]
                    0 <= k < i ==> ranges@[k].0 <= ranges@[k].1 && ranges@[k].1 <= line_len,
                ranges_from(line_len, widths@, sep_len, flexible_widths, 0) == (match ranges_from(
                    line_len,
                    widths@.skip(i as int),
                    sep_len,
                    flexible_widths,
                    cursor,
                ) {
                    Ok(rest) => Ok::<Seq<(usize, usize)>, (usize, usize)>(ranges@ + rest),
                    Err(e) => Err::<Seq<(usize, usize)>, (usize, usize)>(e),
                }),
            decreases widths@.len() - i,
        {
            let w = widths[i];
            let rem = line_len - cursor;
            proof {
                assert(widths@.skip(i as int)[0] == widths@[i as int]);
                assert(widths@.skip(i as int).skip(1) =~= widths@.skip(i as int + 1));
            }
            let ghost prev_ranges = ranges@;
            if rem < w {
                if flexible_widths {
                    ranges.push((cursor, line_len));
                    cursor = line_len;
                } else {
                    return Err(ReaderError::WidthMismatch(cursor, w));
                }
            } else if rem == w {
                ranges.push((cursor, line_len));
                cursor = line_len;
            } else {
                let end = cursor + w;
                ranges.push((cursor, end));
                cursor = if sep_len <= line_len - end {
                    end + sep_len
                } else {
                    line_len
                };
            }
            proof {
                let first = ranges@[i as int];
                assert(ranges@ =~= prev_ranges + seq![first]);
                match ranges_from(
                    line_len,
                    widths@.skip(i as int + 1),
                    sep_len,
                    flexible_widths,
                    cursor,
                ) {
                    Ok(rest) => {
                        assert(prev_ranges + (seq![first] + rest) =~= ranges@ + rest);
                    },
                    Err(_) => {},
                }
            }
            i = i + 1;
        }
        proof {
            assert(widths@.skip(i as int) =~= Seq::<usize>::empty());
            assert(ranges@ + Seq::<(usize, usize)>::empty() =~= ranges@);
        }
        Ok(Record { line, ranges })
    }

    /// The text of field `index`: the slice of the line its range selects, or
    /// nothing when `index` is at or past the field count.
    pub fn get<'a>(&'a self, index: usize) -> (r: Option<&'a str>)
        ensures
            self.spec_ranges().len() <= usize::MAX,
            index < self.spec_ranges().len() ==> (r matches Some(s) && s@
                == self.spec_line().subrange(
                self.spec_ranges()[index as int].0 as int,
                self.spec_ranges()[index as int].1 as int,
            )),
            index >= self.spec_ranges().len() ==> r is None,
    {
        proof {
            use_type_invariant(self);
        }
        let n = self.ranges.len();
        if index < n {
            let (start, end) = self.ranges[index];
            Some(self.line.as_str().substring_char(start, end))
        } else {
            None
        }
    }

    /// A fresh pass over the fields, visiting `get(0)`, `get(1)`, … in order.
    pub fn iter<'a>(&'a self) -> (r: FwrFieldIter<'a>)
        ensures
            r.spec_record() == *self,
            r.spec_position() == 0,
    {
        FwrFieldIter { fwr: self, next: 0 }
    }

    /// The owned line this record was parsed from.
    pub fn line(&self) -> (r: &str)
        ensures
            r@ == self.spec_line(),
    {
        self.line.as_str()
    }

    /// The field ranges, one half-open pair of character positions per
    /// declared width.
    pub fn ranges(&self) -> (r: &Vec<(usize, usize)>)
        ensures
            r@ == self.spec_ranges(),
    {
        &self.ranges
    }
}

impl Clone for Record {
    /// A clone carries the same line and the same ranges.
    fn clone(&self) -> (r: Self)
        ensures
            r.spec_line() == self.spec_line(),
            r.spec_ranges() == self.spec_ranges(),
    {
        proof {
            use_type_invariant(self);
        }
        let mut ranges: Vec<(usize, usize)> = Vec::new();
        let mut i: usize = 0;
        while i < self.ranges.len()
            invariant
                i <= self.ranges@.len(),
                ranges@ == self.ranges@.subrange(0, i as int),
            decreases self.ranges@.len() - i,
        {
            ranges.push(self.ranges[i]);
            proof {
                assert(ranges@ =~= self.ranges@.subrange(0, i as int + 1));
            }
            i = i + 1;
        }
        proof {
            assert(self.ranges@.subrange(0, self.ranges@.len() as int) =~= self.ranges@);
        }
        Record { line: self.line.clone(), ranges }
    }
}

/// A pass over one record's fields, handing them out in declaration order.
#[derive(Debug, Clone)]
pub struct FwrFieldIter<'a> {
    fwr: &'a Record,
    next: usize,
}

impl<'a> FwrFieldIter<'a> {
    /// The record whose fields are handed out.
    pub closed spec fn spec_record(&self) -> Record {
        *self.fwr
    }

    /// The position of the next field to hand out.
    pub closed spec fn spec_position(&self) -> usize {
        self.next
    }

    /// The next field's text, or nothing once every field has been handed
    /// out; the position advances only while fields remain.
    pub fn next(&mut self) -> (r: Option<&'a str>)
        ensures
            final(self).spec_record() == old(self).spec_record(),
            old(self).spec_position() < old(self).spec_record().spec_ranges().len() ==> {
                &&& final(self).spec_position() == old(self).spec_position() + 1
                &&& r matches Some(s) && s@ == old(self).spec_record().spec_line().subrange(
                    old(self).spec_record().spec_ranges()[old(self).spec_position() as int].0
                        as int,
                    old(self).spec_record().spec_ranges()[old(self).spec_position() as int].1
                        as int,
                )
            },
            old(self).spec_position() >= old(self).spec_record().spec_ranges().len() ==> {
                &&& final(self).spec_position() == old(self).spec_position()
                &&& r is None
            },
    {
        match self.fwr.get(self.next) {
            Some(s) => {
                self.next = self.next + 1;
                Some(s)
            },
            None => None,
        }
    }
}

/// Law: whatever the line, the declaration and the width policy, a parsed
/// record's ranges are one per width, well formed, within the line, and
/// non-decreasing and non-overlapping; and since ranges are character
/// positions, every bound falls on a character boundary.
pub proof fn lemma_record_ranges_well_formed(
    rec: Record,
    widths: Seq<usize>,
    sep_len: usize,
    flexible: bool,
)
    requires
        rec.parsed_with(widths, sep_len, flexible),
    ensures
        rec.spec_ranges().len() == widths.len(),
        crate::tokenize::ranges_within(rec.spec_ranges(), 0, rec.spec_line().len() as usize),
        crate::tokenize::ranges_ordered(rec.spec_ranges()),
{
    lemma_ranges_well_formed(rec.spec_line().len() as usize, widths, sep_len, flexible, 0);
}

/// A collaborator yielding successive terminator-stripped lines of text,
/// `None` at end of input, or the I/O failure that kept a line from being
/// read. What comes back depends on the outside world, so nothing is promised
/// of it.
pub trait LineSource {
    fn next_line(&mut self) -> Option<Result<String, std::io::Error>>;
}

/// An in-memory line source: hands out an owned list of lines in order, then
/// signals end of input forever.
#[derive(Debug)]
pub struct VecSource {
    lines: Vec<String>,
    pos: usize,
}

impl VecSource {
    /// The characters of each line held, in order.
    pub closed spec fn spec_lines(&self) -> Seq<Seq<char>> {
        self.lines@.map_values(|l: String| l@)
    }

    /// How many lines have been handed out already.
    pub closed spec fn spec_position(&self) -> usize {
        self.pos
    }

    pub fn new(lines: Vec<String>) -> (r: VecSource)
        ensures
            r.spec_lines() == lines@.map_values(|l: String| l@),
            r.spec_position() == 0,
    {
        VecSource { lines, pos: 0 }
    }
}

impl LineSource for VecSource {
    /// Hands out the next held line, in order, and never fails; once the
    /// lines are exhausted every further pull stays empty.
    fn next_line(&mut self) -> (r: Option<Result<String, std::io::Error>>)
        ensures
            final(self).spec_lines() == old(self).spec_lines(),
            old(self).spec_position() >= old(self).spec_lines().len() ==> {
                &&& r is None
                &&& final(self).spec_position() == old(self).spec_position()
            },
            old(self).spec_position() < old(self).spec_lines().len() ==> {
                &&& final(self).spec_position() == old(self).spec_position() + 1
                &&& r matches Some(one) && one matches Ok(line) && line@ == old(
                    self,
                ).spec_lines()[old(self).spec_position() as int]
            },
    {
        let n = self.lines.len();
        if self.pos < n {
            let line = self.lines[self.pos].clone();
            self.pos = self.pos + 1;
            Some(Ok(line))
        } else {
            None
        }
    }
}

/// An error a single line can produce under the given declaration: an I/O
/// failure of the source, an empty line, or a width mismatch that the
/// tokenizer model yields on a line of some length.
pub open spec fn line_error(
    e: ReaderError,
    widths: Seq<usize>,
    sep_len: usize,
    flexible: bool,
) -> bool {
    match e {
        ReaderError::Io(_) => true,
        ReaderError::EmptyLine => true,
        ReaderError::WidthMismatch(p, w) => exists|n: usize|
            n > 0 && #[trigger] ranges_from(n, widths, sep_len, flexible, 0) == Err::<
                Seq<(usize, usize)>,
                (usize, usize),
            >((p, w)),
    }
}

/// Law: with flexible widths enabled, no line ever produces a width
/// mismatch, so the only failures a reader can yield are an I/O failure of
/// the source and an empty line.
pub proof fn lemma_flexible_error_is_never_mismatch(
    e: ReaderError,
    widths: Seq<usize>,
    sep_len: usize,
)
    requires
        line_error(e, widths, sep_len, true),
    ensures
        !(e is WidthMismatch),
{
    if e is WidthMismatch {
        let (p, w) = (e->WidthMismatch_0, e->WidthMismatch_1);
        let n = choose|n: usize|
            n > 0 && #[trigger] ranges_from(n, widths, sep_len, true, 0) == Err::<
                Seq<(usize, usize)>,
                (usize, usize),
            >((p, w));
        crate::tokenize::lemma_flexible_never_fails(n, widths, sep_len, 0);
    }
}

/// Couples a line source with the parse parameters: the declared widths, the
/// separator length, the flexible-width flag, and the header record split off
/// at construction, if one was asked for.
#[derive(Debug)]
pub struct Reader<S> {
    source: S,
    widths: Vec<usize>,
    separator_length: usize,
    flexible_width: bool,
    header: Option<Record>,
}

impl<S> Reader<S> {
    /// The declared field widths, in characters.
    pub closed spec fn spec_widths(&self) -> Seq<usize> {
        self.widths@
    }

    /// The characters skipped between consecutive fields.
    pub closed spec fn spec_separator_length(&self) -> usize {
        self.separator_length
    }

    /// Whether a field may be shorter than declared when the line runs out.
    pub closed spec fn spec_flexible_width(&self) -> bool {
        self.flexible_width
    }

    /// The header record split off at construction, if any.
    pub closed spec fn spec_header(&self) -> Option<Record> {
        self.header
    }
}

impl<S> Reader<S> where S: LineSource {
    /// Takes ownership of the line source. With `has_header` the first line
    /// is pulled at once and parsed like any record; whatever failure that
    /// produces — end of input or an I/O failure of the source, an empty
    /// line, or a width mismatch — is returned here and no reader is built.
    /// Without a header nothing is pulled and construction always succeeds.
    pub fn new(
        source: S,
        widths: Vec<usize>,
        separator_length: usize,
        flexible_width: bool,
        has_header: bool,
    ) -> (r: Result<Self, ReaderError>)
        ensures
            !has_header ==> (r matches Ok(rd) && rd.spec_widths() == widths@
                && rd.spec_separator_length() == separator_length && rd.spec_flexible_width()
                == flexible_width && rd.spec_header() is None),
            has_header ==> match r {
                Ok(rd) => {
                    &&& rd.spec_widths() == widths@
                    &&& rd.spec_separator_length() == separator_length
                    &&& rd.spec_flexible_width() == flexible_width
                    &&& rd.spec_header() matches Some(h) && h.parsed_with(
                        widths@,
                        separator_length,
                        flexible_width,
                    )
                },
                Err(e) => line_error(e, widths@, separator_length, flexible_width),
            },
    {
        let mut source = source;
        let header = if has_header {
            match source.next_line() {
                None => {
                    return Err(ReaderError::EmptyLine);
                },
                Some(Err(e)) => {
                    return Err(ReaderError::from(e));
                },
                Some(Ok(line)) => {
                    let ghost line_chars = line@;
                    match Record::try_new(line, &widths, separator_length, flexible_width) {
                        Ok(rec) => Some(rec),
                        Err(e) => {
                            proof {
                                lemma_line_error(
                                    line_chars,
                                    widths@,
                                    separator_length,
                                    flexible_width,
                                );
                            }
                            return Err(e);
                        },
                    }
                },
            }
        } else {
            None
        };
        Ok(Reader { source, widths, separator_length, flexible_width, header })
    }

    /// The header record, cloned, or nothing when the reader was built
    /// without one. Callable repeatedly; no side effect.
    pub fn header(&self) -> (r: Option<Record>)
        ensures
            match (r, self.spec_header()) {
                (Some(h), Some(h0)) => h.spec_line() == h0.spec_line() && h.spec_ranges()
                    == h0.spec_ranges(),
                (None, None) => true,
                _ => false,
            },
    {
        match &self.header {
            Some(h) => Some(h.clone()),
            None => None,
        }
    }

    /// Turns the reader into the lazy sequence of its remaining records.
    pub fn records(self) -> (r: RecordIter<S>)
        ensures
            r.spec_widths() == self.spec_widths(),
            r.spec_separator_length() == self.spec_separator_length(),
            r.spec_flexible_width() == self.spec_flexible_width(),
            r.spec_header() == self.spec_header(),
    {
        RecordIter { reader: self }
    }
}

proof fn lemma_line_error(line: Seq<char>, widths: Seq<usize>, sep_len: usize, flexible: bool)
    requires
        line.len() <= usize::MAX,
    ensures
        line.len() > 0 ==> (ranges_from(line.len() as usize, widths, sep_len, flexible, 0) matches
            Err(pw) ==> line_error(ReaderError::WidthMismatch(pw.0, pw.1), widths, sep_len, flexible)),
{
    if line.len() > 0 {
        match ranges_from(line.len() as usize, widths, sep_len, flexible, 0) {
            Err(pw) => {
                let n = line.len() as usize;
                assert(n > 0 && ranges_from(n, widths, sep_len, flexible, 0) == Err::<
                    Seq<(usize, usize)>,
                    (usize, usize),
                >((pw.0, pw.1)));
            },
            Ok(_) => {},
        }
    }
}

/// The lazy sequence of records left in a reader: one `Result` per remaining
/// physical line, a failed line never keeping later lines from being parsed.
#[derive(Debug)]
pub struct RecordIter<S> {
    reader: Reader<S>,
}

impl<S> RecordIter<S> {
    /// The declared field widths, in characters.
    pub closed spec fn spec_widths(&self) -> Seq<usize> {
        self.reader.spec_widths()
    }

    /// The characters skipped between consecutive fields.
    pub closed spec fn spec_separator_length(&self) -> usize {
        self.reader.spec_separator_length()
    }

    /// Whether a field may be shorter than declared when the line runs out.
    pub closed spec fn spec_flexible_width(&self) -> bool {
        self.reader.spec_flexible_width()
    }

    /// The header record split off at construction, if any.
    pub closed spec fn spec_header(&self) -> Option<Record> {
        self.reader.spec_header()
    }

    /// The header record, cloned, or nothing when the reader was built
    /// without one.
    pub fn header(&self) -> (r: Option<Record>)
        ensures
            match (r, self.spec_header()) {
                (Some(h), Some(h0)) => h.spec_line() == h0.spec_line() && h.spec_ranges()
                    == h0.spec_ranges(),
                (None, None) => true,
                _ => false,
            },
    {
        match &self.reader.header {
            Some(h) => Some(h.clone()),
            None => None,
        }
    }
}

impl<S> RecordIter<S> where S: LineSource {
    /// Pulls the next line and parses it. End of input yields nothing; an I/O
    /// failure of the source is surfaced as this pull's element; otherwise
    /// the element is the line's parse, success or classified failure, and
    /// the parameters are untouched either way.
    pub fn next(&mut self) -> (r: Option<Result<Record, ReaderError>>)
        ensures
            final(self).spec_widths() == old(self).spec_widths(),
            final(self).spec_separator_length() == old(self).spec_separator_length(),
            final(self).spec_flexible_width() == old(self).spec_flexible_width(),
            final(self).spec_header() == old(self).spec_header(),
            match r {
                None => true,
                Some(Ok(rec)) => rec.parsed_with(
                    old(self).spec_widths(),
                    old(self).spec_separator_length(),
                    old(self).spec_flexible_width(),
                ),
                Some(Err(e)) => line_error(
                    e,
                    old(self).spec_widths(),
                    old(self).spec_separator_length(),
                    old(self).spec_flexible_width(),
                ),
            },
    {
        match self.reader.source.next_line() {
            None => None,
            Some(Err(e)) => Some(Err(ReaderError::from(e))),
            Some(Ok(line)) => {
                let ghost line_chars = line@;
                let res = Record::try_new(
                    line,
                    &self.reader.widths,
                    self.reader.separator_length,
                    self.reader.flexible_width,
                );
                proof {
                    lemma_line_error(
                        line_chars,
                        self.reader.widths@,
                        self.reader.separator_length,
                        self.reader.flexible_width,
                    );
                }
                Some(res)
            },
        }
    }
}

} // verus!

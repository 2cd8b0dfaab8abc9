//! Turning the text of a source into labelled values: delimited records with
//! a header of labels, and lines that each hold one flat JSON object.
use vstd::prelude::*;
use vstd::string::StringExecFns;
use crate::series::Message;

verus! {

/// The fields of the first record of `line`, as the csv crate reads it with
/// no header row and the given delimiter, or its error message.
pub uninterp spec fn csv_record_of(line: Seq<char>, delimiter: u8) -> Result<
    Seq<Seq<char>>,
    Seq<char>,
>;

/// The lines of `text`, as `str::lines` splits it.
pub uninterp spec fn lines_of(text: Seq<char>) -> Seq<Seq<char>>;

pub open spec fn strings_view(v: Seq<String>) -> Seq<Seq<char>> {
    v.map_values(|s: String| s@)
}

/// Relies on csv's `ReaderBuilder` (no header row, the given delimiter): the
/// fields of the first record of `line`, no fields where it holds none.
#[verifier::external_body]
fn parse_line(line: &str, delimiter: Delimiter) -> (r: Result<Vec<String>, String>)
    ensures
        match r {
            Ok(fields) => csv_record_of(line@, delimiter@) == Ok::<Seq<Seq<char>>, Seq<char>>(
                strings_view(fields@),
            ),
            Err(msg) => csv_record_of(line@, delimiter@) == Err::<Seq<Seq<char>>, Seq<char>>(msg@),
        },
{
    let mut records = csv::ReaderBuilder::new()
        .has_headers(false)
        .delimiter(delimiter.0)
        .from_reader(line.as_bytes())
        .into_records();
    match records.next() {
        Some(Ok(record)) => Ok(record.iter().map(str::to_string).collect()),
        Some(Err(err)) => Err(err.to_string()),
        None => Ok(Vec::new()),
    }
}

/// Relies on `str::lines`: the lines of `text`, without their line endings.
#[verifier::external_body]
fn split_lines(text: &str) -> (r: Vec<String>)
    ensures
        strings_view(r@) == lines_of(text@),
{
    text.lines().map(str::to_string).collect()
}

/// What stops a source from being set up.
#[derive(Debug, Clone, PartialEq, Eq)]
pub enum SetupError {
    /// The delimiter is not a single ASCII character.
    DelimiterNotAscii,
    /// A polled source's argument has no `=` between header and path.
    MissingPath,
    /// The header does not parse; the csv crate's message.
    Header(String),
}

impl SetupError {
    /// The message shown for this error.
    pub fn message(&self) -> (r: String)
        ensures
            r@ == match self {
                SetupError::DelimiterNotAscii => "the CSV delimiter must be a single ASCII character"@,
                SetupError::MissingPath => "a polled CSV source should be given as `column1,column2,column3=path/to/csv`"@,
                SetupError::Header(msg) => "CSV parse error: "@ + msg@,
            },
    {
        match self {
            SetupError::DelimiterNotAscii => String::from_str(
                "the CSV delimiter must be a single ASCII character",
            ),
            SetupError::MissingPath => String::from_str(
                "a polled CSV source should be given as `column1,column2,column3=path/to/csv`",
            ),
            SetupError::Header(msg) => String::from_str("CSV parse error: ").concat(msg.as_str()),
        }
    }
}

/// The one-byte delimiter between the fields of a record.
#[derive(Clone, Copy, Debug, PartialEq, Eq)]
pub struct Delimiter(u8);

impl View for Delimiter {
    type V = u8;

    /// The delimiter's byte, always ASCII.
    closed spec fn view(&self) -> u8 {
        self.0
    }
}

impl Delimiter {
    /// Accepts an ASCII character as delimiter.
    pub fn new(delimiter: char) -> (r: Result<Delimiter, SetupError>)
        ensures
            (delimiter as u32) < 128 ==> (r matches Ok(d) && d@ == delimiter as u32 as u8),
            (delimiter as u32) >= 128 ==> r == Err::<Delimiter, SetupError>(
                SetupError::DelimiterNotAscii,
            ),
    {
        let code = delimiter as u32;
        if code < 128 {
            Ok(Delimiter(code as u8))
        } else {
            Err(SetupError::DelimiterNotAscii)
        }
    }

    /// The delimiter's byte.
    pub fn byte(&self) -> (r: u8)
        ensures
            r == self@,
    {
        self.0
    }
}

/// Where `text` splits at its first `c`: the part before and the part after.
pub open spec fn split_at_first(text: Seq<char>, c: char) -> Option<(Seq<char>, Seq<char>)>
    decreases text.len(),
{
    if text.len() == 0 {
        None
    } else if text[0] == c {
        Some((seq![], text.drop_first()))
    } else {
        match split_at_first(text.drop_first(), c) {
            Some((a, b)) => Some((seq![text[0]] + a, b)),
            None => None,
        }
    }
}

/// Relies on `str::split_once` with a character: the text before and after
/// the first occurrence.
#[verifier::external_body]
fn split_once<'a>(text: &'a str, c: char) -> (r: Option<(&'a str, &'a str)>)
    ensures
        match r {
            Some((a, b)) => split_at_first(text@, c) == Some((a@, b@)),
            None => split_at_first(text@, c) is None,
        },
{
    text.split_once(c)
}

/// The numeric fields of one record, in column order, with their labels.
pub open spec fn numeric_fields(labels: Seq<Seq<char>>, values: Seq<Option<u64>>, n: int) -> Seq<
    (Seq<char>, u64),
>
    decreases n,
{
    if n <= 0 {
        seq![]
    } else {
        let c = n - 1;
        let rest = numeric_fields(labels, values, n - 1);
        if c < labels.len() && c < values.len() && values[c] is Some {
            rest.push((labels[c], values[c].unwrap()))
        } else {
            rest
        }
    }
}

/// Column `c` held a number in one of `rows`.
pub open spec fn column_seen(rows: Seq<Seq<Option<u64>>>, c: int) -> bool {
    exists|r: int| 0 <= r < rows.len() && c < rows[r].len() && #[trigger] rows[r][c] is Some
}

/// The numeric fields of `row` whose column held no number in `earlier`.
pub open spec fn fresh_fields(
    labels: Seq<Seq<char>>,
    row: Seq<Option<u64>>,
    earlier: Seq<Seq<Option<u64>>>,
    n: int,
) -> Seq<(Seq<char>, u64)>
    decreases n,
{
    if n <= 0 {
        seq![]
    } else {
        let c = n - 1;
        let rest = fresh_fields(labels, row, earlier, n - 1);
        if c < labels.len() && c < row.len() && row[c] is Some && !column_seen(earlier, c) {
            rest.push((labels[c], row[c].unwrap()))
        } else {
            rest
        }
    }
}

/// The samples of one poll: for each column, its first number in the poll's
/// rows, in the order the rows give them.
pub open spec fn poll_fields(labels: Seq<Seq<char>>, rows: Seq<Seq<Option<u64>>>) -> Seq<
    (Seq<char>, u64),
>
    decreases rows.len(),
{
    if rows.len() == 0 {
        seq![]
    } else {
        poll_fields(labels, rows.drop_last()) + fresh_fields(
            labels,
            rows.last(),
            rows.drop_last(),
            rows.last().len() as int,
        )
    }
}

pub open spec fn samples_view(v: Seq<Message>) -> Seq<(Seq<char>, u64)> {
    v.map_values(|s: Message| (s.label@, s.value_bits))
}

pub open spec fn rows_view(rows: Seq<Vec<Option<u64>>>) -> Seq<Seq<Option<u64>>> {
    rows.map_values(|r: Vec<Option<u64>>| r@)
}

/// The header of a delimited source, and its delimiter.
#[derive(Debug)]
pub struct Parser {
    labels: Vec<String>,
    delimiter: Delimiter,
}

impl Parser {
    pub closed spec fn labels_view(&self) -> Seq<Seq<char>> {
        strings_view(self.labels@)
    }

    pub closed spec fn delimiter_view(&self) -> u8 {
        self.delimiter@
    }

    /// A parser for a source whose header is its first line.
    pub fn from_header(header: &str, delimiter: Delimiter) -> (r: Result<Parser, SetupError>)
        ensures
            match csv_record_of(header@, delimiter@) {
                Ok(labels) => r matches Ok(p) && p.labels_view() == labels && p.delimiter_view()
                    == delimiter@,
                Err(msg) => r matches Err(SetupError::Header(m)) && m@ == msg,
            },
    {
        match parse_line(header, delimiter) {
            Ok(labels) => Ok(Parser { labels, delimiter }),
            Err(msg) => Err(SetupError::Header(msg)),
        }
    }

    /// A parser for a polled source given as `header=path`: the path and the
    /// parser of the header.
    pub fn new(arg: &str, delimiter: char) -> (r: Result<(String, Parser), SetupError>)
        ensures
            (delimiter as u32) >= 128 ==> r == Err::<(String, Parser), SetupError>(
                SetupError::DelimiterNotAscii,
            ),
            (delimiter as u32) < 128 ==> match split_at_first(arg@, '=') {
                None => r == Err::<(String, Parser), SetupError>(SetupError::MissingPath),
                Some((header, path)) => match csv_record_of(header, delimiter as u32 as u8) {
                    Ok(labels) => r matches Ok((p, parser)) && p@ == path
                        && parser.labels_view() == labels && parser.delimiter_view() == (
                    delimiter as u32 as u8),
                    Err(msg) => r matches Err(SetupError::Header(m)) && m@ == msg,
                },
            },
    {
        let delimiter = match Delimiter::new(delimiter) {
            Ok(d) => d,
            Err(e) => return Err(e),
        };
        let (header, path) = match split_once(arg, '=') {
            Some(parts) => parts,
            None => return Err(SetupError::MissingPath),
        };
        match Parser::from_header(header, delimiter) {
            Ok(parser) => Ok((String::from_str(path), parser)),
            Err(e) => Err(e),
        }
    }

    /// The labels of the columns, in order.
    pub fn labels(&self) -> (r: &Vec<String>)
        ensures
            strings_view(r@) == self.labels_view(),
    {
        &self.labels
    }

    /// The fields of one line of the source; an empty line has none.
    pub fn record_fields(&self, line: &str) -> (r: Result<Vec<String>, String>)
        ensures
            line@.len() == 0 ==> (r matches Ok(f) && f@.len() == 0),
            line@.len() > 0 ==> match csv_record_of(line@, self.delimiter_view()) {
                Ok(fields) => r matches Ok(f) && strings_view(f@) == fields,
                Err(msg) => r matches Err(m) && m@ == msg,
            },
    {
        if line.is_empty() {
            proof {
                assert(line@.len() == 0);
            }
            return Ok(Vec::new());
        }
        parse_line(line, self.delimiter)
    }

    /// The fields of each line of a polled source's content; the first line
    /// that does not parse fails the whole poll.
    pub fn poll_records(&self, content: &str) -> (r: Result<Vec<Vec<String>>, String>)
        ensures
            match r {
                Ok(rows) => rows@.len() == lines_of(content@).len() && forall|i: int|
                    0 <= i < rows@.len() ==> (if lines_of(content@)[i].len() == 0 {
                        rows@[i]@.len() == 0
                    } else {
                        csv_record_of(lines_of(content@)[i], self.delimiter_view()) == Ok::<
                            Seq<Seq<char>>,
                            Seq<char>,
                        >(strings_view(#[trigger] rows@[i]@))
                    }),
                Err(msg) => exists|i: int|
                    0 <= i < lines_of(content@).len() && lines_of(content@)[i].len() > 0
                        && #[trigger] csv_record_of(lines_of(content@)[i], self.delimiter_view())
                        == Err::<Seq<Seq<char>>, Seq<char>>(msg@),
            },
    {
        let lines = split_lines(content);
        let mut rows: Vec<Vec<String>> = Vec::new();
        let mut i: usize = 0;
        while i < lines.len()
            invariant
                i <= lines@.len(),
                strings_view(lines@) == lines_of(content@),
                rows@.len() == i,
                forall|k: int|
                    0 <= k < i ==> (if lines@[k]@.len() == 0 {
                        rows@[k]@.len() == 0
                    } else {
                        csv_record_of(lines@[k]@, self.delimiter_view()) == Ok::<
                            Seq<Seq<char>>,
                            Seq<char>,
                        >(strings_view(#[trigger] rows@[k]@))
                    }),
            decreases lines@.len() - i,
        {
            let line = lines[i].as_str();
            proof {
                assert(lines_of(content@)[i as int] == lines@[i as int]@);
            }
            match self.record_fields(line) {
                Ok(fields) => rows.push(fields),
                Err(msg) => return Err(msg),
            }
            i = i + 1;
        }
        Ok(rows)
    }

    /// The samples of one line of a streamed source: each column's number,
    /// given its value as parsed from the field's text, stamped with `time_ns`.
    pub fn line_samples(&self, values: &Vec<Option<u64>>, time_ns: u64) -> (r: Vec<Message>)
        ensures
            samples_view(r@) == numeric_fields(self.labels_view(), values@, values@.len() as int),
            forall|i: int| 0 <= i < r@.len() ==> (#[trigger] r@[i]).time_ns == time_ns,
    {
        let mut out: Vec<Message> = Vec::new();
        let mut c: usize = 0;
        while c < values.len()
            invariant
                c <= values@.len(),
                samples_view(out@) == numeric_fields(self.labels_view(), values@, c as int),
                forall|i: int| 0 <= i < out@.len() ==> (#[trigger] out@[i]).time_ns == time_ns,
            decreases values@.len() - c,
        {
            let ghost before = out@;
            if c < self.labels.len() {
                if let Some(v) = values[c] {
                    out.push(Message { label: self.labels[c].clone(), value_bits: v, time_ns });
                    proof {
                        assert(samples_view(out@) =~= samples_view(before).push(
                            (self.labels_view()[c as int], v),
                        ));
                    }
                }
            }
            c = c + 1;
        }
        out
    }

    /// The samples of one poll, given each row's values as parsed from its
    /// fields: a column yields only its first number in the poll.
    pub fn poll_samples(&self, rows: &Vec<Vec<Option<u64>>>, time_ns: u64) -> (r: Vec<Message>)
        ensures
            samples_view(r@) == poll_fields(self.labels_view(), rows_view(rows@)),
            forall|i: int| 0 <= i < r@.len() ==> (#[trigger] r@[i]).time_ns == time_ns,
    {
        let ghost rv = rows_view(rows@);
        let ghost labels = self.labels_view();
        let n = self.labels.len();
        let mut seen: Vec<bool> = Vec::new();
        let mut k: usize = 0;
        while k < n
            invariant
                k <= n,
                n == labels.len(),
                seen@.len() == k,
                forall|c: int| 0 <= c < k ==> !(#[trigger] seen@[c]),
            decreases n - k,
        {
            seen.push(false);
            k = k + 1;
        }
        let mut out: Vec<Message> = Vec::new();
        let mut i: usize = 0;
        while i < rows.len()
            invariant
                i <= rows@.len(),
                n == labels.len(),
                labels == self.labels_view(),
                rv == rows_view(rows@),
                seen@.len() == n,
                forall|c: int| 0 <= c < n ==> #[trigger] seen@[c] == column_seen(rv.take(i as int), c),
                samples_view(out@) == poll_fields(labels, rv.take(i as int)),
                forall|j: int| 0 <= j < out@.len() ==> (#[trigger] out@[j]).time_ns == time_ns,
            decreases rows@.len() - i,
        {
            let row = &rows[i];
            let ghost earlier = rv.take(i as int);
            let ghost base = out@;
            proof {
                assert(rv.take(i + 1).drop_last() =~= earlier);
                assert(rv.take(i + 1).last() == row@);
            }
            let mut c: usize = 0;
            while c < row.len()
                invariant
                    c <= row@.len(),
                    n == labels.len(),
                    labels == self.labels_view(),
                    seen@.len() == n,
                    forall|q: int|
                        0 <= q < n ==> #[trigger] seen@[q] == (column_seen(earlier, q) || (q < c
                            && q < row@.len() && row@[q] is Some)),
                    samples_view(out@) == samples_view(base) + fresh_fields(
                        labels,
                        row@,
                        earlier,
                        c as int,
                    ),
                    forall|j: int| 0 <= j < out@.len() ==> (#[trigger] out@[j]).time_ns == time_ns,
                decreases row@.len() - c,
            {
                let ghost before = out@;
                if c < n {
                    if let Some(v) = row[c] {
                        if !seen[c] {
                            out.push(Message { label: self.labels[c].clone(), value_bits: v, time_ns });
                            proof {
                                assert(samples_view(out@) =~= samples_view(before).push(
                                    (labels[c as int], v),
                                ));
                            }
                        }
                        seen.set(c, true);
                    }
                }
                c = c + 1;
            }
            proof {
                let next = rv.take(i + 1);
                assert forall|q: int| 0 <= q < n implies #[trigger] seen@[q] == column_seen(next, q) by {
                    if column_seen(earlier, q) {
                        let r = choose|r: int| 0 <= r < earlier.len() && q < earlier[r].len() && #[trigger] earlier[r][q] is Some;
                        assert(next[r] == earlier[r]);
                    }
                    if column_seen(next, q) {
                        let r = choose|r: int| 0 <= r < next.len() && q < next[r].len() && #[trigger] next[r][q] is Some;
                        if r < i {
                            assert(next[r] == earlier[r]);
                        }
                    }
                }
                assert(samples_view(out@) == poll_fields(labels, next));
            }
            i = i + 1;
        }
        proof {
            assert(rv.take(rows@.len() as int) =~= rv);
        }
        out
    }
}

/// How many of `s` carry the label `l`.
pub open spec fn label_count(s: Seq<(Seq<char>, u64)>, l: Seq<char>) -> nat
    decreases s.len(),
{
    if s.len() == 0 {
        0
    } else {
        label_count(s.drop_last(), l) + if s.last().0 == l {
            1nat
        } else {
            0nat
        }
    }
}

proof fn lemma_count_concat(a: Seq<(Seq<char>, u64)>, b: Seq<(Seq<char>, u64)>, l: Seq<char>)
    ensures
        label_count(a + b, l) == label_count(a, l) + label_count(b, l),
    decreases b.len(),
{
    if b.len() > 0 {
        assert((a + b).drop_last() =~= a + b.drop_last());
        lemma_count_concat(a, b.drop_last(), l);
    } else {
        assert(a + b =~= a);
    }
}

proof fn lemma_fresh_count(
    labels: Seq<Seq<char>>,
    row: Seq<Option<u64>>,
    earlier: Seq<Seq<Option<u64>>>,
    n: int,
    c: int,
)
    requires
        labels.no_duplicates(),
        0 <= c < labels.len(),
    ensures
        label_count(fresh_fields(labels, row, earlier, n), labels[c]) == if c < n && c < row.len()
            && row[c] is Some && !column_seen(earlier, c) {
            1nat
        } else {
            0nat
        },
    decreases n,
{
    if n > 0 {
        lemma_fresh_count(labels, row, earlier, n - 1, c);
        let q = n - 1;
        let rest = fresh_fields(labels, row, earlier, n - 1);
        if q < labels.len() && q < row.len() && row[q] is Some && !column_seen(earlier, q) {
            let e = (labels[q], row[q].unwrap());
            assert(rest.push(e).drop_last() =~= rest);
            if q != c {
                assert(labels[q] != labels[c]);
            }
        }
    }
}

proof fn lemma_poll_count(labels: Seq<Seq<char>>, rows: Seq<Seq<Option<u64>>>, c: int)
    requires
        labels.no_duplicates(),
        0 <= c < labels.len(),
    ensures
        label_count(poll_fields(labels, rows), labels[c]) == if column_seen(rows, c) {
            1nat
        } else {
            0nat
        },
    decreases rows.len(),
{
    if rows.len() > 0 {
        let earlier = rows.drop_last();
        let last = rows.last();
        lemma_poll_count(labels, earlier, c);
        lemma_fresh_count(labels, last, earlier, last.len() as int, c);
        lemma_count_concat(
            poll_fields(labels, earlier),
            fresh_fields(labels, last, earlier, last.len() as int),
            labels[c],
        );
        if column_seen(earlier, c) {
            let r = choose|r: int| 0 <= r < earlier.len() && c < earlier[r].len() && #[trigger] earlier[r][c] is Some;
            assert(rows[r] == earlier[r]);
        }
        if column_seen(rows, c) && !column_seen(earlier, c) {
            let r = choose|r: int| 0 <= r < rows.len() && c < rows[r].len() && #[trigger] rows[r][c] is Some;
            if r < earlier.len() {
                assert(rows[r] == earlier[r]);
            }
        }
        if !column_seen(rows, c) && c < last.len() && last[c] is Some {
            assert(rows[rows.len() - 1][c] is Some);
        }
    }
}

/// A poll yields each column's label once if the column holds a number in
/// any of the poll's rows, and not at all otherwise, however often the
/// rows repeat it. A poll reads its own rows alone, so two polls each yield
/// the label again.
pub proof fn poll_yields_each_label_once(
    labels: Seq<Seq<char>>,
    first_poll: Seq<Seq<Option<u64>>>,
    second_poll: Seq<Seq<Option<u64>>>,
    c: int,
)
    requires
        labels.no_duplicates(),
        0 <= c < labels.len(),
    ensures
        label_count(poll_fields(labels, first_poll), labels[c]) == if column_seen(first_poll, c) {
            1nat
        } else {
            0nat
        },
        label_count(poll_fields(labels, second_poll), labels[c]) == if column_seen(
            second_poll,
            c,
        ) {
            1nat
        } else {
            0nat
        },
{
    lemma_poll_count(labels, first_poll, c);
    lemma_poll_count(labels, second_poll, c);
}

/// The entries of one JSON object in the order it lists them: each key, with
/// the bit pattern of its value where that value is a number.
pub open spec fn entries_view(v: Seq<(String, Option<u64>)>) -> Seq<(Seq<char>, Option<u64>)> {
    v.map_values(|e: (String, Option<u64>)| (e.0@, e.1))
}

/// A line of a JSON source that holds no object: the warning, which quotes
/// the line.
pub open spec fn json_warning(msg: Seq<char>, line: Seq<char>) -> Seq<char> {
    "invalid JSON ("@ + msg + "): "@ + line
}

/// The number entries of a JSON object, in its order; other values are left
/// out.
pub open spec fn number_entries(entries: Seq<(Seq<char>, Option<u64>)>) -> Seq<(Seq<char>, u64)>
    decreases entries.len(),
{
    if entries.len() == 0 {
        seq![]
    } else {
        let rest = number_entries(entries.drop_last());
        match entries.last().1 {
            Some(v) => rest.push((entries.last().0, v)),
            None => rest,
        }
    }
}

/// Key `k` has a number among `entries`.
pub open spec fn key_seen(entries: Seq<(Seq<char>, Option<u64>)>, k: Seq<char>) -> bool {
    exists|j: int| 0 <= j < entries.len() && #[trigger] entries[j].0 == k && entries[j].1 is Some
}

/// The number entries of a polled JSON object: each key once, with its
/// first number.
pub open spec fn first_numbers(entries: Seq<(Seq<char>, Option<u64>)>) -> Seq<(Seq<char>, u64)>
    decreases entries.len(),
{
    if entries.len() == 0 {
        seq![]
    } else {
        let rest = first_numbers(entries.drop_last());
        let e = entries.last();
        match e.1 {
            Some(v) => if key_seen(entries.drop_last(), e.0) {
                rest
            } else {
                rest.push((e.0, v))
            },
            None => rest,
        }
    }
}

/// The samples of one JSON line, given the line's object as read: every
/// number, in the object's order, stamped with `time_ns`. An empty line has
/// none; a line that holds no object gives a warning that quotes it.
pub fn json_line_samples(
    line: &str,
    parsed: &Result<Vec<(String, Option<u64>)>, String>,
    time_ns: u64,
) -> (r: Result<Vec<Message>, String>)
    ensures
        line@.len() == 0 ==> (r matches Ok(v) && v@.len() == 0),
        line@.len() > 0 ==> match parsed {
            Ok(entries) => r matches Ok(v) && samples_view(v@) == number_entries(
                entries_view(entries@),
            ) && forall|i: int| 0 <= i < v@.len() ==> (#[trigger] v@[i]).time_ns == time_ns,
            Err(msg) => r matches Err(w) && w@ == json_warning(msg@, line@),
        },
{
    if line.is_empty() {
        proof {
            assert(line@.len() == 0);
        }
        return Ok(Vec::new());
    }
    match parsed {
        Ok(entries) => {
            let ghost ev = entries_view(entries@);
            let mut out: Vec<Message> = Vec::new();
            let mut i: usize = 0;
            while i < entries.len()
                invariant
                    i <= entries@.len(),
                    ev == entries_view(entries@),
                    samples_view(out@) == number_entries(ev.take(i as int)),
                    forall|q: int| 0 <= q < out@.len() ==> (#[trigger] out@[q]).time_ns == time_ns,
                decreases entries@.len() - i,
            {
                proof {
                    assert(ev.take(i + 1).drop_last() =~= ev.take(i as int));
                    assert(ev.take(i + 1).last() == ev[i as int]);
                }
                let ghost before = out@;
                if let Some(v) = entries[i].1 {
                    out.push(Message { label: entries[i].0.clone(), value_bits: v, time_ns });
                    proof {
                        assert(samples_view(out@) =~= samples_view(before).push(
                            (entries@[i as int].0@, v),
                        ));
                    }
                }
                i = i + 1;
            }
            proof {
                assert(ev.take(entries@.len() as int) =~= ev);
            }
            Ok(out)
        },
        Err(msg) => {
            let w = String::from_str("invalid JSON (").concat(msg.as_str()).concat("): ").concat(
                line,
            );
            Err(w)
        },
    }
}

/// The parser of a polled JSON source, whose whole content is one object.
#[derive(Debug, Clone, Copy)]
pub struct PollParser;

impl PollParser {
    /// The samples of one poll, given its content's object as read: each key
    /// once, with its first number, stamped with `time_ns`. Empty content
    /// has none; content that holds no object gives a warning that quotes
    /// it.
    pub fn parse(
        &self,
        content: &str,
        parsed: &Result<Vec<(String, Option<u64>)>, String>,
        time_ns: u64,
    ) -> (r: Result<Vec<Message>, String>)
        ensures
            content@.len() == 0 ==> (r matches Ok(v) && v@.len() == 0),
            content@.len() > 0 ==> match parsed {
                Ok(entries) => r matches Ok(v) && samples_view(v@) == first_numbers(
                    entries_view(entries@),
                ) && forall|i: int| 0 <= i < v@.len() ==> (#[trigger] v@[i]).time_ns == time_ns,
                Err(msg) => r matches Err(w) && w@ == json_warning(msg@, content@),
            },
    {
        if content.is_empty() {
            proof {
                assert(content@.len() == 0);
            }
            return Ok(Vec::new());
        }
        match parsed {
            Ok(entries) => {
                let ghost ev = entries_view(entries@);
                let mut out: Vec<Message> = Vec::new();
                let mut i: usize = 0;
                while i < entries.len()
                    invariant
                        i <= entries@.len(),
                        ev == entries_view(entries@),
                        samples_view(out@) == first_numbers(ev.take(i as int)),
                        forall|q: int| 0 <= q < out@.len() ==> (#[trigger] out@[q]).time_ns == time_ns,
                    decreases entries@.len() - i,
                {
                    let ghost pre = ev.take(i as int);
                    proof {
                        assert(ev.take(i + 1).drop_last() =~= pre);
                        assert(ev.take(i + 1).last() == ev[i as int]);
                    }
                    let ghost before = out@;
                    if let Some(v) = entries[i].1 {
                        let mut seen = false;
                        let mut j: usize = 0;
                        while j < i
                            invariant
                                j <= i < entries@.len(),
                                ev == entries_view(entries@),
                                pre == ev.take(i as int),
                                seen == exists|q: int|
                                    0 <= q < j && #[trigger] pre[q].0 == ev[i as int].0 && pre[q].1 is Some,
                            decreases i - j,
                        {
                            let ghost was = seen;
                            proof {
                                assert(pre[j as int] == ev[j as int]);
                                assert(ev[j as int] == (entries@[j as int].0@, entries@[j as int].1));
                                assert(ev[i as int] == (entries@[i as int].0@, entries@[i as int].1));
                            }
                            if entries[j].1.is_some() && entries[j].0 == entries[i].0 {
                                seen = true;
                                proof {
                                    assert(pre[j as int].0 == ev[i as int].0 && pre[j as int].1 is Some);
                                }
                            } else {
                                proof {
                                    assert(!(pre[j as int].0 == ev[i as int].0 && pre[j as int].1 is Some));
                                    if was {
                                        let q = choose|q: int| 0 <= q < j && #[trigger] pre[q].0 == ev[i as int].0 && pre[q].1 is Some;
                                        assert(q < j + 1);
                                    }
                                    assert forall|q: int| 0 <= q < j + 1 && #[trigger] pre[q].0 == ev[i as int].0 implies !(pre[q].1 is Some) || was by {
                                    }
                                }
                            }
                            j = j + 1;
                        }
                        proof {
                            assert(seen == key_seen(pre, ev[i as int].0));
                        }
                        if !seen {
                            out.push(Message { label: entries[i].0.clone(), value_bits: v, time_ns });
                            proof {
                                assert(samples_view(out@) =~= samples_view(before).push(
                                    (entries@[i as int].0@, v),
                                ));
                            }
                        }
                    }
                    i = i + 1;
                }
                proof {
                    assert(ev.take(entries@.len() as int) =~= ev);
                }
                Ok(out)
            },
            Err(msg) => {
                let w = String::from_str("invalid JSON (").concat(msg.as_str()).concat(
                    "): ",
                ).concat(content);
                Err(w)
            },
        }
    }
}

/// A JSON poll yields a key once if it has a number in the content, and not
/// at all otherwise, however often the content repeats it.
pub proof fn poll_yields_each_key_once(entries: Seq<(Seq<char>, Option<u64>)>, k: Seq<char>)
    ensures
        label_count(first_numbers(entries), k) == if key_seen(entries, k) {
            1nat
        } else {
            0nat
        },
    decreases entries.len(),
{
    if entries.len() > 0 {
        let pre = entries.drop_last();
        let e = entries.last();
        poll_yields_each_key_once(pre, k);
        if key_seen(pre, k) {
            let j = choose|j: int| 0 <= j < pre.len() && #[trigger] pre[j].0 == k && pre[j].1 is Some;
            assert(entries[j] == pre[j]);
        }
        if key_seen(entries, k) && !key_seen(pre, k) {
            let j = choose|j: int| 0 <= j < entries.len() && #[trigger] entries[j].0 == k && entries[j].1 is Some;
            if j < pre.len() {
                assert(pre[j] == entries[j]);
            }
        }
        if e.1 is Some && e.0 == k {
            assert(entries[entries.len() - 1].0 == k);
        }
        match e.1 {
            Some(v) => {
                if !key_seen(pre, e.0) {
                    let rest = first_numbers(pre);
                    assert(rest.push((e.0, v)).drop_last() =~= rest);
                }
            },
            None => {},
        }
    }
}

} // verus!

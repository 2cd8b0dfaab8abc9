//! The sources to read, as configured.
use vstd::prelude::*;
use crate::records::{csv_record_of, split_at_first, strings_view, Delimiter, Parser, SetupError};

verus! {

/// The configured sources: delimited files read once, delimited files
/// polled (each given as `header=path`), JSON-lines files read once, JSON
/// files polled; the delimiter; and the polling period in nanoseconds.
#[derive(Debug, Clone)]
pub struct Options {
    pub csv: Vec<String>,
    pub csv_poll: Vec<String>,
    pub csv_poll_delimiter: char,
    pub json: Vec<String>,
    pub json_poll: Vec<String>,
    pub poll_period_ns: u64,
}

/// A polled source's argument sets up: an ASCII delimiter, a header and a
/// path, and a header that parses.
pub open spec fn poll_arg_ok(arg: Seq<char>, delimiter: char) -> bool {
    &&& (delimiter as u32) < 128
    &&& split_at_first(arg, '=') is Some
    &&& csv_record_of(split_at_first(arg, '=').unwrap().0, delimiter as u32 as u8) is Ok
}

impl Options {
    /// The delimiter of the delimited sources.
    pub fn delimiter(&self) -> (r: Result<Delimiter, SetupError>)
        ensures
            (self.csv_poll_delimiter as u32) < 128 ==> (r matches Ok(d) && d@
                == self.csv_poll_delimiter as u32 as u8),
            (self.csv_poll_delimiter as u32) >= 128 ==> r == Err::<Delimiter, SetupError>(
                SetupError::DelimiterNotAscii,
            ),
    {
        Delimiter::new(self.csv_poll_delimiter)
    }

    /// The path and parser of every polled delimited source; the first
    /// argument that does not set up fails them all.
    pub fn polled_csv(&self) -> (r: Result<Vec<(String, Parser)>, SetupError>)
        ensures
            r is Ok <==> forall|i: int|
                0 <= i < self.csv_poll@.len() ==> poll_arg_ok(
                    #[trigger] self.csv_poll@[i]@,
                    self.csv_poll_delimiter,
                ),
            r matches Ok(v) ==> v@.len() == self.csv_poll@.len() && forall|i: int|
                0 <= i < v@.len() ==> ({
                    let parts = split_at_first(self.csv_poll@[i]@, '=').unwrap();
                    &&& (#[trigger] v@[i]).0@ == parts.1
                    &&& Ok::<Seq<Seq<char>>, Seq<char>>(v@[i].1.labels_view())
                        == csv_record_of(parts.0, self.csv_poll_delimiter as u32 as u8)
                }),
    {
        let mut out: Vec<(String, Parser)> = Vec::new();
        let mut i: usize = 0;
        while i < self.csv_poll.len()
            invariant
                i <= self.csv_poll@.len(),
                out@.len() == i,
                forall|k: int|
                    0 <= k < i ==> poll_arg_ok(#[trigger] self.csv_poll@[k]@, self.csv_poll_delimiter),
                forall|k: int|
                    0 <= k < i ==> ({
                        let parts = split_at_first(self.csv_poll@[k]@, '=').unwrap();
                        &&& (#[trigger] out@[k]).0@ == parts.1
                        &&& Ok::<Seq<Seq<char>>, Seq<char>>(out@[k].1.labels_view())
                            == csv_record_of(parts.0, self.csv_poll_delimiter as u32 as u8)
                    }),
            decreases self.csv_poll@.len() - i,
        {
            match Parser::new(self.csv_poll[i].as_str(), self.csv_poll_delimiter) {
                Ok(entry) => {
                    out.push(entry);
                },
                Err(e) => {
                    return Err(e);
                },
            }
            i = i + 1;
        }
        Ok(out)
    }
}

} // verus!

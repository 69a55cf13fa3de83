//! Per-file statistics: what one analyzed file contributes to the aggregate.
use vstd::prelude::*;

use crate::text::{hist_wf, line_count, line_count_of, word_count, word_count_of, CharHistogram};

verus! {

/// The name carries the extension the discoverer looks for: it ends in
/// ".txt" and the dot does not start the name, so a bare ".txt" is a hidden
/// file with no extension and does not match.
pub open spec fn is_txt_name(s: Seq<char>) -> bool {
    &&& s.len() >= 5
    &&& s[s.len() - 4] == '.'
    &&& s[s.len() - 3] == 't'
    &&& s[s.len() - 2] == 'x'
    &&& s[s.len() - 1] == 't'
}

/// The discoverer's filter: whether a file name has the ".txt" extension.
pub fn is_txt_file_name(name: &str) -> (r: bool)
    ensures
        r == is_txt_name(name@),
{
    let n = name.unicode_len();
    if n < 5 {
        return false;
    }
    name.get_char(n - 4) == '.' && name.get_char(n - 3) == 't' && name.get_char(n - 2) == 'x'
        && name.get_char(n - 1) == 't'
}

/// The four measures taken of one file.
#[derive(Clone, Debug)]
pub struct FileStats {
    pub word_count: usize,
    pub line_count: usize,
    pub char_frequencies: CharHistogram,
    pub size_bytes: u64,
}

impl FileStats {
    /// The statistics of the text `s` in a file of `size` bytes.
    pub open spec fn is_stats_of(self, s: Seq<char>, size: u64) -> bool {
        &&& self.word_count == word_count_of(s)
        &&& self.line_count == line_count_of(s)
        &&& self.char_frequencies.is_histogram_of(s)
        &&& self.size_bytes == size
    }

    /// Every count is zero and the histogram is empty: the record a file
    /// that could not be read contributes.
    pub open spec fn is_zeroed(self) -> bool {
        &&& self.word_count == 0
        &&& self.line_count == 0
        &&& self.char_frequencies@ == Seq::<(char, int)>::empty()
        &&& self.size_bytes == 0
    }

    /// Measures the text of one readable file.
    pub fn compute(contents: &str, size_bytes: u64) -> (st: FileStats)
        ensures
            st.is_stats_of(contents@, size_bytes),
    {
        FileStats {
            word_count: word_count(contents),
            line_count: line_count(contents),
            char_frequencies: crate::text::histogram_of(contents),
            size_bytes,
        }
    }

    /// The all-zero record for a file that failed to open or decode.
    pub fn zeroed() -> (st: FileStats)
        ensures
            st.is_zeroed(),
    {
        let st = FileStats {
            word_count: 0,
            line_count: 0,
            char_frequencies: CharHistogram::new(),
            size_bytes: 0,
        };
        st
    }
}

/// What reading one file produced: its decoded text and its size in bytes.
#[derive(Clone, Debug)]
pub struct FileContents {
    pub text: String,
    pub size_bytes: u64,
}

/// One unit of work handed to the analyzer: the file's name, what reading it
/// produced (`None` when it failed to open or decode), and how long the read
/// and analysis took.
#[derive(Clone, Debug)]
pub struct FileInput {
    pub filename: String,
    pub outcome: Option<FileContents>,
    pub elapsed_nanos: u64,
}

/// One completed analysis, as appended to the shared aggregate.
#[derive(Clone, Debug)]
pub struct FileAnalysis {
    pub filename: String,
    pub stats: FileStats,
    pub elapsed_nanos: u64,
}

/// `a` is the record that analyzing `input` must produce: the same name and
/// timing, the statistics of the text when the read succeeded, and all-zero
/// statistics when it failed.
pub open spec fn analysis_matches_input(a: FileAnalysis, input: FileInput) -> bool {
    &&& a.filename@ == input.filename@
    &&& a.elapsed_nanos == input.elapsed_nanos
    &&& match input.outcome {
        Some(fc) => a.stats.is_stats_of(fc.text@, fc.size_bytes),
        None => a.stats.is_zeroed(),
    }
}

/// Every record's histogram has unique keys; what analysis produces always
/// satisfies it.
pub open spec fn wf_analyses(s: Seq<FileAnalysis>) -> bool {
    forall|i: int| 0 <= i < s.len() ==> hist_wf((#[trigger] s[i]).stats.char_frequencies@)
}

/// Analyzes one unit of work. A failed read yields the all-zero record
/// rather than an error, so one bad file never stops the rest.
pub fn analyze_input(input: &FileInput) -> (a: FileAnalysis)
    ensures
        analysis_matches_input(a, *input),
{
    let stats = match &input.outcome {
        Some(fc) => FileStats::compute(fc.text.as_str(), fc.size_bytes),
        None => FileStats::zeroed(),
    };
    FileAnalysis { filename: input.filename.clone(), stats, elapsed_nanos: input.elapsed_nanos }
}

} // verus!

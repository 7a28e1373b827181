//! Training configuration.
use vstd::prelude::*;
use std::path::PathBuf;
use crate::tiktoken::chars_of;

verus! {

#[verifier::external_type_specification]
#[verifier::external_body]
pub struct ExPathBuf(PathBuf);

/// `PathBuf::clone`: a copy of the path. Nothing is stated of it.
pub assume_specification[ <PathBuf as Clone>::clone ](p: &PathBuf) -> PathBuf;

/// A training run: where to write, how much memory to use, and the phases.
#[derive(Debug, Clone)]
pub struct Config {
    /// Output path for the .tiktoken file
    pub output: String,
    /// Maximum memory usage in MB for the working set
    pub working_set_mb: Option<usize>,
    /// Number of threads (-1 for auto)
    pub threads: Option<i32>,
    /// Verbose logging
    pub verbose: bool,
    /// Special tokens to add at the end of vocabulary
    pub special_tokens: Option<Vec<String>>,
    /// Warm start from existing tokenizer
    pub warm_start: Option<WarmStart>,
    /// Training phases
    pub phases: Vec<Phase>,
}

/// An existing vocabulary to extend.
#[derive(Debug, Clone)]
pub struct WarmStart {
    /// Path to existing .tiktoken file
    pub file: PathBuf,
}

/// One training phase with its own merge budget and data.
#[derive(Debug, Clone)]
pub struct Phase {
    /// Name of this phase (for logging)
    pub name: String,
    /// Number of merges to perform in this phase
    pub merges: usize,
    /// Data sources for this phase
    pub sources: Vec<Source>,
}

/// A data source: a directory scanned recursively, or a single file.
#[derive(Debug, Clone)]
pub struct Source {
    /// Directory path (recursive scan for .txt/.parquet)
    pub path: Option<PathBuf>,
    /// Single file path
    pub file: Option<PathBuf>,
}

/// The working-set budget, in MB, when the configuration names none.
pub fn default_working_set() -> (r: Option<usize>)
    ensures
        r == Some(1024usize),
{
    Some(1024)
}

/// `num_cpus::get`: the number of CPUs available to this process, which
/// the crate documents as always at least 1. Which number it is depends on
/// the machine and is not stated.
#[verifier::external_body]
fn available_cpus() -> (n: usize)
    ensures
        n >= 1,
{
    num_cpus::get()
}

/// The working-set budget in MB: the configured one, or 1024.
pub open spec fn working_set_mb_spec(config: &Config) -> int {
    match config.working_set_mb {
        Some(mb) => mb as int,
        None => 1024,
    }
}

/// Threads to train with, given the configured count and the number of
/// available CPUs: the configured count when it is positive, otherwise
/// the CPUs.
pub fn thread_count_from(threads: Option<i32>, cpus: usize) -> (n: usize)
    ensures
        (threads matches Some(t) && t > 0) ==> n == threads.unwrap(),
        !(threads matches Some(t) && t > 0) ==> n == cpus,
{
    match threads {
        Some(n) if n > 0 => n as usize,
        _ => cpus,
    }
}

impl Config {
    /// Threads to train with: the configured count when it is positive,
    /// otherwise every available CPU.
    pub fn get_thread_count(&self) -> (n: usize)
        ensures
            n >= 1,
            (self.threads matches Some(t) && t > 0) ==> n == self.threads.unwrap(),
    {
        thread_count_from(self.threads, available_cpus())
    }

    /// The working-set budget in bytes.
    pub fn get_working_set_bytes(&self) -> (bytes: usize)
        requires
            working_set_mb_spec(self) * 1024 * 1024 <= usize::MAX,
        ensures
            bytes == working_set_mb_spec(self) * 1024 * 1024,
    {
        let mb = match self.working_set_mb {
            Some(mb) => mb,
            None => 1024,
        };
        mb * 1024 * 1024
    }
}


/// The kinds of data file that training reads.
#[derive(Debug, Clone, Copy, PartialEq, Eq, Structural)]
pub enum SourceKind {
    /// Plain text, one document per line.
    Text,
    /// Parquet with a `text` column.
    Parquet,
}

/// The kind of a data file by its extension: `txt` or `parquet`; other
/// files are not read.
pub open spec fn source_kind_of(ext: Seq<char>) -> Option<SourceKind> {
    if ext == seq!['t', 'x', 't'] {
        Some(SourceKind::Text)
    } else if ext == seq!['p', 'a', 'r', 'q', 'u', 'e', 't'] {
        Some(SourceKind::Parquet)
    } else {
        None
    }
}

/// The kind of a data file by its extension.
pub fn source_kind(ext: &str) -> (r: Option<SourceKind>)
    ensures
        r == source_kind_of(ext@),
{
    let c = chars_of(ext);
    if c.len() == 3 && c[0] == 't' && c[1] == 'x' && c[2] == 't' {
        proof {
            assert(c@ =~= seq!['t', 'x', 't']);
        }
        Some(SourceKind::Text)
    } else if c.len() == 7 && c[0] == 'p' && c[1] == 'a' && c[2] == 'r' && c[3] == 'q' && c[4] == 'u' && c[5] == 'e'
        && c[6] == 't' {
        proof {
            assert(c@ =~= seq!['p', 'a', 'r', 'q', 'u', 'e', 't']);
        }
        Some(SourceKind::Parquet)
    } else {
        proof {
            if c@ == seq!['t', 'x', 't'] {
                assert(c@[0] == 't' && c@[1] == 'x' && c@[2] == 't');
            }
            if c@ == seq!['p', 'a', 'r', 'q', 'u', 'e', 't'] {
                assert(c@[0] == 'p' && c@[6] == 't');
            }
        }
        None
    }
}


/// The name of the parquet column that holds the training text.
pub open spec fn text_column_name() -> Seq<char> {
    seq!['t', 'e', 'x', 't']
}

/// The first of `names` that is the text column's, if any.
pub open spec fn first_text_column(names: Seq<Seq<char>>) -> Option<usize> {
    if exists|i: int| 0 <= i < names.len() && names[i] == text_column_name() {
        let i = choose|i: int|
            0 <= i < names.len() && names[i] == text_column_name() && forall|j: int|
                0 <= j < i ==> names[j] != text_column_name();
        Some(i as usize)
    } else {
        None
    }
}

/// Whether the text is exactly `text`.
fn is_text_name(name: &String) -> (r: bool)
    ensures
        r == (name@ == text_column_name()),
{
    let c = chars_of(name.as_str());
    if c.len() == 4 && c[0] == 't' && c[1] == 'e' && c[2] == 'x' && c[3] == 't' {
        proof {
            assert(c@ =~= text_column_name());
        }
        true
    } else {
        proof {
            if c@ == text_column_name() {
                assert(c@[0] == 't' && c@[1] == 'e' && c@[2] == 'x' && c@[3] == 't');
            }
        }
        false
    }
}

/// The index of the first column named `text`, where the training text of
/// a parquet file is read from.
pub fn text_column(names: &Vec<String>) -> (r: Option<usize>)
    ensures
        r == first_text_column(names@.map_values(|n: String| n@)),
{
    let ghost ns = names@.map_values(|n: String| n@);
    let mut i: usize = 0;
    while i < names.len()
        invariant
            i <= names@.len(),
            ns == names@.map_values(|n: String| n@),
            forall|j: int| 0 <= j < i ==> ns[j] != text_column_name(),
        decreases names@.len() - i,
    {
        if is_text_name(&names[i]) {
            proof {
                assert(ns[i as int] == text_column_name());
                let k = choose|k: int|
                    0 <= k < ns.len() && ns[k] == text_column_name() && forall|j: int|
                        0 <= j < k ==> ns[j] != text_column_name();
                assert(k == i) by {
                    if k < i {
                        assert(ns[k] != text_column_name());
                    }
                    if k > i {
                        assert(ns[i as int] != text_column_name());
                    }
                }
            }
            return Some(i);
        }
        i = i + 1;
    }
    None
}

} // verus!

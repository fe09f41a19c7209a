//! Records handed to callers: listing rows and the outcome of a full sync.
use vstd::prelude::*;
use crate::indexer::IndexStats;
use crate::path::file_name;
use crate::text::{chars_of, contains, contains_exec};

verus! {

/// A file or directory of the vault as a listing shows it.
pub struct FileMetadata {
    pub path: String,
    pub filename: String,
    pub is_dir: bool,
    pub size: u64,
    /// Last modification, in milliseconds since the Unix epoch.
    pub last_modified: i64,
}

impl FileMetadata {
    /// The listing row of the entry at `path`; its file name is the last
    /// segment of the path.
    pub fn from_entry(path: &str, is_dir: bool, size: u64, last_modified: i64) -> (r: FileMetadata)
        ensures
            r.path@ == path@,
            r.filename@ == file_name(path@),
            r.is_dir == is_dir,
            r.size == size,
            r.last_modified == last_modified,
    {
        let v = crate::text::chars_of(path);
        let name = crate::path::file_name_of(&v);
        FileMetadata {
            path: path.to_owned(),
            filename: crate::path::to_string(&name),
            is_dir,
            size,
            last_modified,
        }
    }
}

/// Whether a listing shows the entry at `path`: version-control and trash
/// entries are left out wherever `.git` or `.trash` occurs in the path.
pub open spec fn listed(path: Seq<char>) -> bool {
    !contains(path, seq!['.', 'g', 'i', 't']) && !contains(
        path,
        seq!['.', 't', 'r', 'a', 's', 'h'],
    )
}

/// Whether a listing shows the entry at `path`.
pub fn is_listed(path: &str) -> (r: bool)
    ensures
        r == listed(path@),
{
    let v = chars_of(path);
    let mut git: Vec<char> = Vec::new();
    git.push('.');
    git.push('g');
    git.push('i');
    git.push('t');
    let mut trash: Vec<char> = Vec::new();
    trash.push('.');
    trash.push('t');
    trash.push('r');
    trash.push('a');
    trash.push('s');
    trash.push('h');
    assert(git@ == seq!['.', 'g', 'i', 't']);
    assert(trash@ == seq!['.', 't', 'r', 'a', 's', 'h']);
    !contains_exec(&v, &git) && !contains_exec(&v, &trash)
}

/// The outcome of a full sync as reported to the caller.
pub struct SyncResult {
    pub success: bool,
    pub files_indexed: usize,
    pub files_deleted: usize,
    pub files_skipped: usize,
    pub duration_ms: u128,
    pub error: Option<String>,
}

/// The report of a sync that ran.
pub open spec fn report_of(stats: IndexStats) -> SyncResult {
    SyncResult {
        success: true,
        files_indexed: stats.files_indexed,
        files_deleted: stats.files_deleted,
        files_skipped: stats.files_skipped,
        duration_ms: stats.duration_ms,
        error: None,
    }
}

impl From<IndexStats> for SyncResult {
    fn from(stats: IndexStats) -> (r: SyncResult) {
        SyncResult {
            success: true,
            files_indexed: stats.files_indexed,
            files_deleted: stats.files_deleted,
            files_skipped: stats.files_skipped,
            duration_ms: stats.duration_ms,
            error: None,
        }
    }
}

impl vstd::std_specs::convert::FromSpecImpl<IndexStats> for SyncResult {
    open spec fn obeys_from_spec() -> bool {
        true
    }

    open spec fn from_spec(stats: IndexStats) -> SyncResult {
        report_of(stats)
    }
}

impl SyncResult {
    /// The report of a sync that ran, with its counts, or of one that could
    /// not run, with zero counts and the reason.
    pub fn from_outcome(outcome: Result<IndexStats, String>) -> (r: SyncResult)
        ensures
            match outcome {
                Ok(stats) => r == report_of(stats),
                Err(e) => r == (SyncResult {
                    success: false,
                    files_indexed: 0,
                    files_deleted: 0,
                    files_skipped: 0,
                    duration_ms: 0,
                    error: Some(e),
                }),
            },
    {
        match outcome {
            Ok(stats) => SyncResult::from(stats),
            Err(e) => SyncResult {
                success: false,
                files_indexed: 0,
                files_deleted: 0,
                files_skipped: 0,
                duration_ms: 0,
                error: Some(e),
            },
        }
    }
}

} // verus!

//! How progress is shown while a container is read.

use vstd::prelude::*;

verus! {

/// What is counted, and whether its total is known.
#[derive(Clone, Copy, Debug, PartialEq, Eq, Structural)]
pub enum ProgressStyle {
    UnknownBytes,
    Bytes,
    UnknownItems,
    Items,
}

impl ProgressStyle {
    /// The style for a source of `length` bytes, where 0 stands for a
    /// length that is not known.
    pub fn for_length(length: u64) -> (r: ProgressStyle)
        ensures
            r == if length == 0 {
                ProgressStyle::UnknownBytes
            } else {
                ProgressStyle::Bytes
            },
    {
        if length == 0 {
            ProgressStyle::UnknownBytes
        } else {
            ProgressStyle::Bytes
        }
    }

    /// The layout of the bar, in the notation of the progress display.
    pub fn template(self) -> (r: &'static str)
        ensures
            r@ == match self {
                ProgressStyle::UnknownBytes => "{spinner:.green} [{elapsed_precise}] [{bar:40.cyan/blue}] {bytes}/??? ({bytes_per_sec}) {msg}"@,
                ProgressStyle::Bytes => "{spinner:.green} [{elapsed_precise}] [{bar:40.cyan/blue}] {bytes}/{total_bytes} ({bytes_per_sec} {eta}) {msg}"@,
                ProgressStyle::UnknownItems => "{spinner:.green} [{elapsed_precise}] [{bar:40.cyan/blue}] {pos}/??? ({per_sec}) {msg}"@,
                ProgressStyle::Items => "{spinner:.green} [{elapsed_precise}] [{bar:40.cyan/blue}] {pos:>7}/{len:7} ({per_sec} {eta}) {msg}"@,
            },
    {
        match self {
            ProgressStyle::UnknownBytes => "{spinner:.green} [{elapsed_precise}] [{bar:40.cyan/blue}] {bytes}/??? ({bytes_per_sec}) {msg}",
            ProgressStyle::Bytes => "{spinner:.green} [{elapsed_precise}] [{bar:40.cyan/blue}] {bytes}/{total_bytes} ({bytes_per_sec} {eta}) {msg}",
            ProgressStyle::UnknownItems => "{spinner:.green} [{elapsed_precise}] [{bar:40.cyan/blue}] {pos}/??? ({per_sec}) {msg}",
            ProgressStyle::Items => "{spinner:.green} [{elapsed_precise}] [{bar:40.cyan/blue}] {pos:>7}/{len:7} ({per_sec} {eta}) {msg}",
        }
    }

    /// The characters of which the bar is drawn: filled, current, empty.
    pub fn progress_chars(self) -> (r: &'static str)
        ensures
            r@ == if self == ProgressStyle::UnknownBytes || self == ProgressStyle::Bytes {
                "#>-"@
            } else {
                "##-"@
            },
    {
        match self {
            ProgressStyle::UnknownBytes => "#>-",
            ProgressStyle::Bytes => "#>-",
            _ => "##-",
        }
    }
}

/// Where a progress bar stands after a move by `delta` from `position`:
/// never before the start.
pub fn moved(position: u64, delta: i64) -> (r: u64)
    ensures
        r as int == if position + delta < 0 {
            0
        } else if position + delta > u64::MAX {
            u64::MAX as int
        } else {
            position + delta
        },
{
    if delta >= 0 {
        let step = delta as u64;
        if position > u64::MAX - step {
            u64::MAX
        } else {
            position + step
        }
    } else {
        let back: u64 = (-(delta + 1)) as u64 + 1;
        if back > position {
            0
        } else {
            position - back
        }
    }
}

/// Where a progress bar of `length` stands `back` before its end: at the
/// start when that is before the start.
pub fn from_end(length: u64, back: i64) -> (r: u64)
    ensures
        r as int == if back > length {
            0
        } else if length - back > u64::MAX {
            u64::MAX as int
        } else {
            length - back
        },
{
    if back >= 0 {
        let step = back as u64;
        if step > length {
            0
        } else {
            length - step
        }
    } else {
        let on: u64 = (-(back + 1)) as u64 + 1;
        if length > u64::MAX - on {
            u64::MAX
        } else {
            length + on
        }
    }
}

} // verus!

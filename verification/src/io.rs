//! What the file I/O engine and the server tell each other, and the decisions
//! that the engine makes on its own.

use crate::error::ErrorKind;
use std::path::PathBuf;
use vstd::prelude::*;

verus! {

#[derive(Debug)]
pub struct FileStat {
    pub size: u64,
    pub mtime_unix: i64,
    pub mtime_nanos: u32,
    pub is_dir: bool,
}

#[derive(Debug)]
pub struct DirEntryInfo {
    pub name: String,
    pub is_dir: bool,
    pub size: u64,
    pub mtime_unix: i64,
}

#[derive(Debug, Clone, Copy, PartialEq, Eq, Structural)]
pub struct IoError {
    pub kind: ErrorKind,
    pub raw_os_error: Option<i32>,
}

pub struct OpenRequest {
    pub path: PathBuf,
    /// Canonicalized root the resolved file must stay within. Symlinks are
    /// followed, then containment is verified against the canonical path.
    pub containment_root: Option<PathBuf>,
    /// Refuse to open through a symlink at the final component.
    pub deny_symlinks: bool,
    /// How many bytes from offset 0 to read along with the open.
    pub prefetch_len: usize,
}

pub struct IoConfig {
    pub blocking_threads: usize,
    pub force_blocking: bool,
}

impl IoConfig {
    /// The default on a machine with the given parallelism: as many blocking
    /// threads, but no more than four, and two where it is not known.
    pub fn for_parallelism(parallelism: Option<usize>) -> (res: Self)
        ensures
            res.blocking_threads == default_threads(parallelism),
            res.blocking_threads == match parallelism {
                Some(n) => if n < 4 {
                    n
                } else {
                    4
                },
                None => 2,
            },
            !res.force_blocking,
    {
        let blocking_threads: usize = match parallelism {
            Some(n) => if n < 4 {
                n
            } else {
                4
            },
            None => 2,
        };
        IoConfig { blocking_threads, force_blocking: false }
    }

    /// The size of the pool of blocking threads, at least one.
    pub fn pool_size(&self) -> (res: usize)
        ensures
            res == if self.blocking_threads < 1 {
                1
            } else {
                self.blocking_threads
            },
    {
        if self.blocking_threads < 1 {
            1
        } else {
            self.blocking_threads
        }
    }
}

/// The signed number with the bit pattern of `n`.
pub open spec fn signed_pattern(n: u64) -> int {
    if n <= i64::MAX {
        n as int
    } else {
        n - 0x1_0000_0000_0000_0000
    }
}

/// Seconds and nanoseconds of a modification time, given as the time since the
/// epoch. A time that is not known or before the epoch counts as the epoch.
pub fn mtime_parts(since_epoch: Option<(u64, u32)>) -> (res: (i64, u32))
    ensures
        (res.0 as int, res.1) == time_parts(since_epoch),
        match since_epoch {
            Some((secs, nanos)) => res.0 == signed_pattern(secs) && res.1 == nanos,
            None => res == (0i64, 0u32),
        },
{
    match since_epoch {
        Some((secs, nanos)) => {
            if secs <= i64::MAX as u64 {
                (secs as i64, nanos)
            } else {
                (-((u64::MAX - secs) as i64) - 1, nanos)
            }
        },
        None => (0, 0),
    }
}

/// The error for a failure that says nothing about itself.
pub fn other_error() -> (res: IoError)
    ensures
        res == (IoError { kind: ErrorKind::Other, raw_os_error: None }),
{
    IoError { kind: ErrorKind::Other, raw_os_error: None }
}

/// The error for a read through a handle that has been closed.
pub fn closed_error() -> (res: IoError)
    ensures
        res == (IoError { kind: ErrorKind::NotFound, raw_os_error: None }),
{
    IoError { kind: ErrorKind::NotFound, raw_os_error: None }
}

/// Whether an opened file may be served: its canonical location must be inside
/// the root that it was asked for under, if there is one. `inside` says where
/// it is.
pub fn check_containment(inside: Option<bool>) -> (res: Result<(), IoError>)
    ensures
        res is Err <==> inside == Some(false),
        res matches Err(error) ==> error == (IoError {
            kind: ErrorKind::PermissionDenied,
            raw_os_error: None,
        }),
{
    match inside {
        Some(false) => Err(IoError { kind: ErrorKind::PermissionDenied, raw_os_error: None }),
        _ => Ok(()),
    }
}

/// Whether a path is a root or below it, by whole components, on the system
/// that they are paths of.
pub uninterp spec fn is_within(path: PathBuf, root: PathBuf) -> bool;

/// `std::path::Path::starts_with`, named by [`is_within`].
#[verifier::external_body]
fn starts_with(path: &PathBuf, root: &PathBuf) -> (res: bool)
    ensures
        res == is_within(*path, *root),
{
    path.starts_with(root)
}

/// Whether an opened file may be served, given its canonical location: that
/// must be inside the root.
pub fn check_location(canonical: &PathBuf, root: &PathBuf) -> (res: Result<(), IoError>)
    ensures
        res is Ok <==> is_within(*canonical, *root),
        res matches Err(error) ==> error == (IoError {
            kind: ErrorKind::PermissionDenied,
            raw_os_error: None,
        }),
{
    check_containment(Some(starts_with(canonical, root)))
}

/// A path with a part adjoined to it, on the system that it is a path of.
pub uninterp spec fn joined(path: PathBuf, part: Seq<char>) -> PathBuf;

/// `std::path::Path::join`, named by [`joined`].
#[verifier::external_body]
fn join(path: &PathBuf, part: &str) -> (res: PathBuf)
    ensures
        res == joined(*path, part@),
{
    path.join(part)
}

/// `<std::path::PathBuf as Clone>::clone` returns the same path.
pub assume_specification[ <std::path::PathBuf as Clone>::clone ](source: &std::path::PathBuf) -> (res:
    std::path::PathBuf)
    ensures
        res == *source,
;

/// Where a file lies: at a path below the root, or an index file in the
/// directory there.
pub open spec fn location(root: PathBuf, relative: Seq<char>, index: Option<Seq<char>>) -> PathBuf {
    match index {
        Some(name) => joined(joined(root, relative), name),
        None => joined(root, relative),
    }
}

/// Where a file lies: at a path below the root, or an index file in the
/// directory there.
pub fn locate(root: &PathBuf, relative: &str, index: &Option<String>) -> (res: PathBuf)
    ensures
        res == location(*root, relative@, index.deep_view()),
{
    let path = join(root, relative);
    match index {
        Some(name) => join(&path, name.as_str()),
        None => path,
    }
}

/// A read of `len` bytes at `offset` that is put together from what the
/// backend returns.
///
/// A single read may return fewer bytes than requested (a short read is
/// legal on every backend). The caller expects exactly `len` bytes for a
/// chunk, so reading goes on until it's filled or EOF — otherwise the gap is
/// silently dropped and the response ends up shorter than its Content-Length.
pub struct Fill {
    pub offset: u64,
    pub len: usize,
    pub buf: Vec<u8>,
    pub done: bool,
}

/// The bytes of a file from `offset` on, at most `len`.
pub open spec fn file_window(file: Seq<u8>, offset: int, len: int) -> Seq<u8> {
    if offset >= file.len() {
        seq![]
    } else if offset + len <= file.len() {
        file.subrange(offset, offset + len)
    } else {
        file.skip(offset)
    }
}

/// Whether `more` is what a read of up to `want` bytes at `at` can return: the
/// first bytes that are there, and at least one unless none is.
pub open spec fn is_read_of(more: Seq<u8>, file: Seq<u8>, at: int, want: int) -> bool {
    let there = file_window(file, at, want);
    &&& more.len() <= there.len()
    &&& more == there.take(more.len() as int)
    &&& more.len() == 0 ==> there.len() == 0
}

impl Fill {
    /// The buffer is not longer than asked for, and is full only when done.
    pub open spec fn wf(self) -> bool {
        &&& self.offset + self.len <= u64::MAX
        &&& self.buf@.len() <= self.len
        &&& !self.done ==> self.buf@.len() < self.len || self.buf@.len() == 0
    }

    /// Whether the buffer holds the bytes of the file that it should, as far
    /// as reading has come.
    pub open spec fn follows(self, file: Seq<u8>) -> bool {
        let whole = file_window(file, self.offset as int, self.len as int);
        &&& self.buf@.len() <= whole.len()
        &&& self.buf@ == whole.take(self.buf@.len() as int)
        &&& self.done ==> self.buf@ == whole
    }

    /// Starts a read.
    pub fn start(offset: u64, len: usize) -> (res: Self)
        requires
            offset + len <= u64::MAX,
        ensures
            res.wf(),
            !res.done,
            res.offset == offset,
            res.len == len,
            res.buf@ == Seq::<u8>::empty(),
            forall|file: Seq<u8>| #[trigger] res.follows(file),
    {
        let res = Fill { offset, len, buf: Vec::new(), done: false };
        proof {
            assert forall|file: Seq<u8>| #[trigger] res.follows(file) by {
                let whole = file_window(file, offset as int, len as int);
                assert(res.buf@ =~= whole.take(0));
            }
        }
        res
    }

    /// Where the next read starts and how many bytes it asks for. `None` when
    /// reading is done.
    pub fn next_read(&self) -> (res: Option<(u64, usize)>)
        requires
            self.wf(),
        ensures
            res is None <==> self.done,
            res matches Some((at, want)) ==> at == self.offset + self.buf@.len() && want
                == self.len - self.buf@.len(),
    {
        if self.done {
            None
        } else {
            Some((self.offset + self.buf.len() as u64, self.len - self.buf.len()))
        }
    }

    /// Takes in what a read returned. Nothing means the end of the file.
    pub fn accept(&mut self, more: &[u8])
        requires
            old(self).wf(),
            !old(self).done,
            more@.len() <= old(self).len - old(self).buf@.len(),
        ensures
            final(self).wf(),
            final(self).offset == old(self).offset,
            final(self).len == old(self).len,
            final(self).buf@ == old(self).buf@ + more@,
            final(self).done == (more@.len() == 0 || final(self).buf@.len() == final(self).len),
            forall|file: Seq<u8>| #[trigger]
                old(self).follows(file) && is_read_of(
                    more@,
                    file,
                    old(self).offset + old(self).buf@.len(),
                    old(self).len - old(self).buf@.len(),
                ) ==> final(self).follows(file),
    {
        let ghost before = *self;
        self.buf.extend_from_slice(more);
        assert(self.buf@ =~= before.buf@ + more@);
        self.done = more.len() == 0 || self.buf.len() == self.len;
        proof {
            assert forall|file: Seq<u8>| #[trigger]
                before.follows(file) && is_read_of(
                    more@,
                    file,
                    before.offset + before.buf@.len(),
                    before.len - before.buf@.len(),
                ) implies self.follows(file) by {
                let n = before.buf@.len() as int;
                let whole = file_window(file, before.offset as int, before.len as int);
                let there = file_window(file, before.offset + n, before.len - n);
                assert(there =~= whole.skip(n));
                assert(self.buf@ =~= whole.take(self.buf@.len() as int));
                if self.done {
                    assert(self.buf@ =~= whole);
                }
            }
        }
    }
}

/// The seconds of a modification time keep their bit pattern, so numbers that
/// 63 bits hold stay as they are.
pub proof fn law_times_keep_their_bits(n: u64)
    ensures
        n <= i64::MAX ==> signed_pattern(n) == n,
        i64::MIN <= signed_pattern(n) <= i64::MAX,
        crate::validators::two_complement(signed_pattern(n) as i64) == n,
{
}

/// The bytes that a read should bring are those of the file from its offset on:
/// as many as were asked for, or as there are.
pub proof fn law_windows_hold_the_bytes_of_the_file(file: Seq<u8>, offset: int, len: int, i: int)
    requires
        0 <= offset,
        0 <= len,
        0 <= i,
    ensures
        i < file_window(file, offset, len).len() <==> i < len && offset + i < file.len(),
        i < file_window(file, offset, len).len() ==> file_window(file, offset, len)[i]
            == file[offset + i],
{
}

/// How many blocking threads a machine with the given parallelism has by
/// default.
pub open spec fn default_threads(parallelism: Option<usize>) -> int {
    match parallelism {
        Some(n) => if n < 4 {
            n as int
        } else {
            4
        },
        None => 2,
    }
}

/// There are as many blocking threads as the machine runs at once, four at most,
/// and two where that is not known.
pub proof fn law_default_threads_follow_the_machine(parallelism: Option<usize>)
    ensures
        default_threads(parallelism) <= 4,
        parallelism matches Some(n) ==> default_threads(parallelism) <= n && (n <= 4
            ==> default_threads(parallelism) == n) && (n > 4 ==> default_threads(parallelism) == 4),
        default_threads(None) == 2,
{
}

/// The seconds and nanoseconds of a modification time.
pub open spec fn time_parts(since_epoch: Option<(u64, u32)>) -> (int, u32) {
    match since_epoch {
        Some((secs, nanos)) => (signed_pattern(secs), nanos),
        None => (0, 0),
    }
}

/// A modification time that is known keeps its seconds and its nanoseconds; one
/// that is not is the epoch.
pub proof fn law_times_are_passed_on(secs: u64, nanos: u32)
    requires
        secs <= i64::MAX,
    ensures
        time_parts(Some((secs, nanos))) == (secs as int, nanos),
        time_parts(None) == (0int, 0u32),
{
}

/// An index file lies in the directory that a path leads to, and a path leads
/// below the root.
pub proof fn law_files_lie_below_the_root(root: PathBuf, relative: Seq<char>, name: Seq<char>)
    ensures
        location(root, relative, None) == joined(root, relative),
        location(root, relative, Some(name)) == joined(location(root, relative, None), name),
{
}

/// A read that is done has brought the bytes of the file from its offset on, as
/// many as were asked for or as there are; one that is not has brought a
/// beginning of them and is not yet full.
pub proof fn law_finished_reads_have_no_gap(fill: Fill, file: Seq<u8>)
    requires
        fill.wf(),
        fill.follows(file),
    ensures
        fill.done && fill.offset + fill.len <= file.len() ==> fill.buf@ == file.subrange(
            fill.offset as int,
            fill.offset + fill.len,
        ),
        fill.done && fill.offset <= file.len() < fill.offset + fill.len ==> fill.buf@ == file.skip(
            fill.offset as int,
        ),
        fill.done && file.len() <= fill.offset ==> fill.buf@.len() == 0,
        !fill.done && fill.len > 0 ==> fill.buf@.len() < fill.len,
        forall|i: int|
            0 <= i < fill.buf@.len() ==> #[trigger] fill.buf@[i] == file[fill.offset + i],
{
    let whole = file_window(file, fill.offset as int, fill.len as int);
    assert forall|i: int| 0 <= i < fill.buf@.len() implies #[trigger] fill.buf@[i]
        == file[fill.offset + i] by {
        assert(fill.buf@[i] == whole.take(fill.buf@.len() as int)[i]);
    }
    if fill.done && fill.len == 0 && fill.offset + fill.len <= file.len() {
        assert(fill.buf@ =~= file.subrange(fill.offset as int, fill.offset + fill.len));
    }
    if fill.done && fill.offset == file.len() {
        assert(file.skip(fill.offset as int) =~= seq![]);
    }
}

} // verus!

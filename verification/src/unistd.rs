use vstd::prelude::*;
use crate::errno::EINVAL;

verus! {

/// `access` mode: test for read permission.
pub const R_OK: i32 = 1;

/// `access` mode: test for write permission.
pub const W_OK: i32 = 2;

/// `access` mode: test for execute permission.
pub const X_OK: i32 = 4;

/// `access` mode: test for existence.
pub const F_OK: i32 = 8;

/// `lseek` whence: from the start of the file.
pub const SEEK_SET: i32 = 0;

/// `lseek` whence: from the current offset.
pub const SEEK_CUR: i32 = 1;

/// `lseek` whence: from the end of the file.
pub const SEEK_END: i32 = 2;

/// `lockf` function: unlock a section.
pub const F_ULOCK: i32 = 0;

/// `lockf` function: lock a section, waiting for it.
pub const F_LOCK: i32 = 1;

/// `lockf` function: lock a section, failing if it is locked.
pub const F_TLOCK: i32 = 2;

/// `lockf` function: test a section for locks by other processes.
pub const F_TEST: i32 = 3;

/// File descriptor of standard input.
pub const STDIN_FILENO: i32 = 0;

/// File descriptor of standard output.
pub const STDOUT_FILENO: i32 = 1;

/// File descriptor of standard error.
pub const STDERR_FILENO: i32 = 2;

/// A span of time in seconds and nanoseconds, as `nanosleep` takes it.
#[allow(non_camel_case_types)]
pub struct timespec {
    pub tv_sec: i64,
    pub tv_nsec: i64,
}

/// The request that `sleep(seconds)` hands to `nanosleep`.
pub fn sleep_timespec(seconds: u32) -> (r: timespec)
    ensures
        r.tv_sec == seconds,
        r.tv_nsec == 0,
{
    timespec { tv_sec: seconds as i64, tv_nsec: 0 }
}

/// The request that `usleep(useconds)` hands to `nanosleep`: the microseconds as
/// nanoseconds. An interval of one second (1,000,000 microseconds) or more is outside the
/// domain of `usleep` and gives `EINVAL`.
pub fn usleep_request(useconds: u32) -> (r: Result<timespec, i32>)
    ensures
        useconds >= 1_000_000 ==> r == Err::<timespec, i32>(EINVAL),
        useconds < 1_000_000 ==> (r matches Ok(t) && t.tv_sec == 0 && t.tv_nsec == useconds
            * 1000),
{
    if useconds >= 1_000_000 {
        Err(EINVAL)
    } else {
        Ok(timespec { tv_sec: 0, tv_nsec: (useconds * 1000) as i64 })
    }
}

/// Whole seconds that a remaining time of `sec` seconds and `nsec` nanoseconds amounts to,
/// rounded to the nearest second (half a second rounds up), and kept within `u32`.
pub open spec fn unslept_seconds(sec: int, nsec: int) -> int {
    let rounded = if sec < 0 {
        0
    } else if nsec >= 500_000_000 {
        sec + 1
    } else {
        sec
    };
    if rounded > u32::MAX {
        u32::MAX as int
    } else {
        rounded
    }
}

/// What `sleep` returns once `nanosleep` is back: 0 where the whole interval was slept, else
/// the time left unslept, in seconds.
pub fn sleep_unslept(interrupted: bool, remaining: timespec) -> (r: u32)
    ensures
        !interrupted ==> r == 0,
        interrupted ==> r == unslept_seconds(remaining.tv_sec as int, remaining.tv_nsec as int),
{
    if !interrupted || remaining.tv_sec < 0 {
        return 0;
    }
    let sec = remaining.tv_sec;
    let up: i64 = if remaining.tv_nsec >= 500_000_000 { 1 } else { 0 };
    if sec >= 0xffff_ffff || sec + up > 0xffff_ffff {
        0xffff_ffff
    } else {
        (sec + up) as u32
    }
}

/// First index at or after `i` that holds `c`, or the length of `s` where none does.
pub open spec fn index_of(s: Seq<u8>, c: u8, i: int) -> int
    decreases s.len() - i,
{
    if 0 <= i < s.len() && s[i] != c {
        index_of(s, c, i + 1)
    } else {
        i
    }
}

proof fn lemma_index_of(s: Seq<u8>, c: u8, i: int)
    requires
        0 <= i <= s.len(),
    ensures
        i <= index_of(s, c, i) <= s.len(),
        forall|k: int| i <= k < index_of(s, c, i) ==> s[k] != c,
        index_of(s, c, i) < s.len() ==> s[index_of(s, c, i)] == c,
    decreases s.len() - i,
{
    if i < s.len() && s[i] != c {
        lemma_index_of(s, c, i + 1);
    }
}

/// Length of the string in `s` with its terminating NUL, or all of `s` where it holds none.
pub open spec fn with_nul_len(s: Seq<u8>) -> int {
    if index_of(s, 0, 0) < s.len() {
        index_of(s, 0, 0) + 1
    } else {
        s.len() as int
    }
}

/// The bytes that `gethostname` stores from the node name that `uname` reports into a buffer
/// of `len` bytes: the name and its NUL, cut off after `len` bytes.
pub fn hostname_from_nodename(nodename: &[u8], len: usize) -> (r: Vec<u8>)
    ensures
        r.len() <= len,
        r@ == nodename@.take(
            if len < with_nul_len(nodename@) {
                len as int
            } else {
                with_nul_len(nodename@)
            },
        ),
{
    proof {
        lemma_index_of(nodename@, 0, 0);
    }
    let mut out: Vec<u8> = Vec::new();
    let mut i: usize = 0;
    while i < nodename.len()
        invariant_except_break
            i <= index_of(nodename@, 0, 0),
        invariant
            0 <= i <= nodename.len(),
            i <= len,
            0 <= index_of(nodename@, 0, 0) <= nodename@.len(),
            forall|k: int| 0 <= k < index_of(nodename@, 0, 0) ==> nodename@[k] != 0,
            index_of(nodename@, 0, 0) < nodename@.len() ==> nodename@[index_of(nodename@, 0, 0)] == 0,
            out@ == nodename@.take(i as int),
        ensures
            out@ == nodename@.take(
                if len < with_nul_len(nodename@) {
                    len as int
                } else {
                    with_nul_len(nodename@)
                },
            ),
        decreases nodename.len() - i,
    {
        if i == len {
            break;
        }
        let c = nodename[i];
        out.push(c);
        i = i + 1;
        if c == 0 {
            break;
        }
    }
    out
}

/// The bytes that `gethostname` stores from the contents of the host name file into a buffer
/// of `len` bytes: the first `len` bytes, or all of them and a NUL where the file is shorter.
pub fn hostname_from_file(content: &[u8], len: usize) -> (r: Vec<u8>)
    ensures
        r.len() <= len,
        r@ == (if content@.len() >= len {
            content@.take(len as int)
        } else {
            content@.push(0)
        }),
{
    let mut out: Vec<u8> = Vec::new();
    let mut i: usize = 0;
    while i < len
        invariant
            i <= len,
            i <= content@.len(),
            out@ == content@.take(i as int),
        decreases len - i,
    {
        if i >= content.len() {
            out.push(0);
            assert(content@.take(i as int) == content@);
            return out;
        }
        out.push(content[i]);
        i = i + 1;
    }
    out
}

/// What `execve` stores for one `NAME=VALUE` entry of the environment: the path of the
/// variable (`env:NAME`) and the value to write, if it is not empty.
pub struct EnvAssignment {
    pub path: Vec<u8>,
    pub value: Option<Vec<u8>>,
}

/// Splits an environment entry at its first `=`. An entry without `=`, or with an empty name,
/// is skipped (`None`).
pub fn env_assignment(entry: &[u8]) -> (r: Option<EnvAssignment>)
    ensures
        r.is_none() <==> (index_of(entry@, 61, 0) == entry@.len() || index_of(entry@, 61, 0)
            == 0),
        r matches Some(a) ==> {
            let sep = index_of(entry@, 61, 0);
            &&& a.path@ == seq![101u8, 110u8, 118u8, 58u8] + entry@.subrange(0, sep)
            &&& (a.value is Some <==> sep + 1 < entry@.len())
            &&& a.value matches Some(v) ==> v@ == entry@.subrange(sep + 1, entry@.len() as int)
        },
{
    proof {
        lemma_index_of(entry@, 61, 0);
    }
    let mut sep: usize = 0;
    while sep < entry.len() && entry[sep] != 61
        invariant
            sep <= entry.len(),
            index_of(entry@, 61, 0) == index_of(entry@, 61, sep as int),
        decreases entry.len() - sep,
    {
        sep = sep + 1;
    }
    if sep == entry.len() || sep == 0 {
        return None;
    }
    let mut path: Vec<u8> = Vec::new();
    path.push(101);
    path.push(110);
    path.push(118);
    path.push(58);
    let mut i: usize = 0;
    while i < sep
        invariant
            sep < entry.len(),
            i <= sep,
            path@ == seq![101u8, 110u8, 118u8, 58u8] + entry@.subrange(0, i as int),
        decreases sep - i,
    {
        path.push(entry[i]);
        i = i + 1;
    }
    let value = if sep + 1 < entry.len() {
        let mut v: Vec<u8> = Vec::new();
        let mut j: usize = sep + 1;
        while j < entry.len()
            invariant
                sep + 1 <= j <= entry.len(),
                v@ == entry@.subrange(sep + 1, j as int),
            decreases entry.len() - j,
        {
            v.push(entry[j]);
            j = j + 1;
        }
        Some(v)
    } else {
        None
    };
    Some(EnvAssignment { path, value })
}

} // verus!

//! One process's extracted state, assembled from the text of its
//! pseudo-files.  A snapshot holds what could be read for one process;
//! the gatherer turns it into a `ProcStats` record, isolating failures
//! to that one record: identity, limits and status must be readable,
//! while the open-descriptor count degrades to 0.

use vstd::prelude::*;
use crate::limits::{
    RLimit, LimitsData, limits_post, entries_of, data_lines, find_entry, rlimit_views,
    parse_limits_text,
};
use crate::status::{StatusData, status_post, status_kb, status_u32, parse_status_text};

use crate::text::{is_space, trim_of, trim_end_of, trim_str, lines_of, push_char, lemma_trim_end_at};

verus! {

/// Why one process's record could not be gathered.
#[derive(Clone, Copy, Debug, PartialEq, Eq, Structural)]
pub enum GatherError {
    IdentityUnreadable,
    LimitsUnreadable,
    StatusUnreadable,
}

/// The raw text read for one process: `None` where the pseudo-file
/// could not be read at all.
pub struct ProcSnapshot {
    pub comm: Option<String>,
    pub cmdline: Option<String>,
    pub fd_count: Option<u64>,
    pub limits: Option<String>,
    pub status: Option<String>,
}

/// One process's extracted state.  Memory is in bytes; the memory and
/// thread limits are explicitly absent when their table line could not
/// be parsed, never a silently-defaulted zero.
#[derive(Debug)]
pub struct ProcStats {
    pub pid: u32,
    pub name: String,
    pub cmd: String,
    pub open_fds: u64,
    pub fd_soft_limit: u64,
    pub fd_hard_limit: u64,
    pub vm_rss: u64,
    pub vm_size: u64,
    pub vm_locked: u64,
    pub mem_soft_limit: Option<u64>,
    pub mem_hard_limit: Option<u64>,
    pub threads: u32,
    pub threads_soft_limit: Option<u64>,
    pub threads_hard_limit: Option<u64>,
    pub rlimits: Vec<RLimit>,
}

/// The argument vector as displayed: separating NUL bytes become
/// spaces and trailing padding is dropped, so an empty or exited
/// process's command line displays as the empty string.
pub open spec fn nul_to_space(s: Seq<char>) -> Seq<char> {
    s.map_values(
        |c: char|
            if c == '\0' {
                ' '
            } else {
                c
            },
    )
}

pub open spec fn display_of(s: Seq<char>) -> Seq<char> {
    trim_end_of(nul_to_space(s))
}

/// Identity, limits and status are all mandatory for a record.
pub open spec fn snapshot_complete(s: ProcSnapshot) -> bool {
    s.comm is Some && s.cmdline is Some && s.limits is Some && s.status is Some
}

/// Which sub-extraction fails first on an incomplete snapshot.
pub open spec fn gather_error_of(s: ProcSnapshot) -> GatherError {
    if s.comm is None || s.cmdline is None {
        GatherError::IdentityUnreadable
    } else if s.limits is None {
        GatherError::LimitsUnreadable
    } else {
        GatherError::StatusUnreadable
    }
}

/// Every field of a gathered record, determined by the snapshot text.
pub open spec fn gather_ok(pid: u32, s: ProcSnapshot, st: ProcStats) -> bool {
    let es = entries_of(data_lines(s.limits->Some_0@));
    let ls = lines_of(s.status->Some_0@);
    &&& st.pid == pid
    &&& st.name@ == trim_of(s.comm->Some_0@)
    &&& st.cmd@ == display_of(s.cmdline->Some_0@)
    &&& st.open_fds == match s.fd_count {
        Some(n) => n,
        None => 0u64,
    }
    &&& rlimit_views(st.rlimits@) == es
    &&& st.fd_soft_limit == match find_entry(es, "Max open files"@) {
        Some(p) => p.0,
        None => 0u64,
    }
    &&& st.fd_hard_limit == match find_entry(es, "Max open files"@) {
        Some(p) => p.1,
        None => 0u64,
    }
    &&& st.mem_soft_limit == match find_entry(es, "Max address space"@) {
        Some(p) => Some(p.0),
        None => None::<u64>,
    }
    &&& st.mem_hard_limit == match find_entry(es, "Max address space"@) {
        Some(p) => Some(p.1),
        None => None::<u64>,
    }
    &&& st.threads_soft_limit == match find_entry(es, "Max processes"@) {
        Some(p) => Some(p.0),
        None => None::<u64>,
    }
    &&& st.threads_hard_limit == match find_entry(es, "Max processes"@) {
        Some(p) => Some(p.1),
        None => None::<u64>,
    }
    &&& st.vm_rss == status_kb(ls, "VmRSS:"@)
    &&& st.vm_size == status_kb(ls, "VmSize:"@)
    &&& st.vm_locked == status_kb(ls, "VmLck:"@)
    &&& st.threads == status_u32(ls, "Threads:"@)
}

/// The gatherer's full contract: a record exactly when the snapshot is
/// complete, and otherwise the error naming the first failed
/// sub-extraction.
pub open spec fn gather_post(pid: u32, s: ProcSnapshot, r: Result<ProcStats, GatherError>) -> bool {
    &&& (r is Ok <==> snapshot_complete(s))
    &&& (r is Ok ==> gather_ok(pid, s, r->Ok_0))
    &&& (r is Err ==> r->Err_0 == gather_error_of(s))
}

fn is_pad(c: char) -> (b: bool)
    ensures
        b == (c == '\0' || is_space(c)),
{
    c == '\0' || c == ' ' || c == '\t' || c == '\n' || c == '\r' || c == '\x0b' || c == '\x0c'
}

impl ProcStats {
    /// The short executable name: the comm text with surrounding
    /// whitespace removed.
    pub fn read_name(raw: &str) -> (r: String)
        ensures
            r@ == trim_of(raw@),
    {
        trim_str(raw)
    }

    /// The command line for display: NUL separators become spaces,
    /// trailing padding is dropped.
    #[verifier::loop_isolation(false)]
    pub fn read_cmdline(raw: &str) -> (r: String)
        ensures
            r@ == display_of(raw@),
    {
        let ghost t = nul_to_space(raw@);
        let n = raw.unicode_len();
        let mut j: usize = n;
        while j > 0 && is_pad(raw.get_char(j - 1))
            invariant
                0 <= j <= n,
                n == raw@.len(),
                forall|k: int| j <= k < n ==> is_space(t[k]),
            decreases j,
        {
            j -= 1;
        }
        proof {
            lemma_trim_end_at(t, j as int);
        }
        let mut out = String::new();
        let mut i: usize = 0;
        while i < j
            invariant
                0 <= i <= j <= n,
                n == raw@.len(),
                out@ == t.take(i as int),
            decreases j - i,
        {
            let c = raw.get_char(i);
            proof {
                assert(t.take(i as int).push(t[i as int]) =~= t.take(i + 1));
            }
            if c == '\0' {
                push_char(&mut out, ' ');
            } else {
                push_char(&mut out, c);
            }
            i += 1;
        }
        out
    }

    /// Parses the text of one limits descriptor; the caller reads the
    /// descriptor itself.
    pub fn parse_limits(text: &str) -> (d: LimitsData)
        ensures
            limits_post(text@, d),
    {
        parse_limits_text(text)
    }

    /// Parses the text of one status descriptor; the caller reads the
    /// descriptor itself.
    pub fn parse_status(text: &str) -> (d: StatusData)
        ensures
            status_post(text@, d),
    {
        parse_status_text(text)
    }

    /// Produces one process's record from its snapshot.  Identity,
    /// limits and status failures are fatal for this one record; a
    /// missing descriptor count degrades to 0.
    pub fn gather(pid: u32, snap: &ProcSnapshot) -> (r: Result<ProcStats, GatherError>)
        ensures
            gather_post(pid, *snap, r),
    {
        let name = match &snap.comm {
            Some(c) => Self::read_name(c.as_str()),
            None => {
                return Err(GatherError::IdentityUnreadable);
            },
        };
        let cmd = match &snap.cmdline {
            Some(c) => Self::read_cmdline(c.as_str()),
            None => {
                return Err(GatherError::IdentityUnreadable);
            },
        };
        let open_fds = match snap.fd_count {
            Some(c) => c,
            None => 0,
        };
        let ld = match &snap.limits {
            Some(t) => parse_limits_text(t.as_str()),
            None => {
                return Err(GatherError::LimitsUnreadable);
            },
        };
        let sd = match &snap.status {
            Some(t) => parse_status_text(t.as_str()),
            None => {
                return Err(GatherError::StatusUnreadable);
            },
        };
        Ok(
            ProcStats {
                pid,
                name,
                cmd,
                open_fds,
                fd_soft_limit: ld.fd_limits.0,
                fd_hard_limit: ld.fd_limits.1,
                vm_rss: sd.vm_rss,
                vm_size: sd.vm_size,
                vm_locked: sd.vm_locked,
                mem_soft_limit: match ld.mem_limits {
                    Some(p) => Some(p.0),
                    None => None,
                },
                mem_hard_limit: match ld.mem_limits {
                    Some(p) => Some(p.1),
                    None => None,
                },
                threads: sd.threads,
                threads_soft_limit: match ld.thread_limits {
                    Some(p) => Some(p.0),
                    None => None,
                },
                threads_hard_limit: match ld.thread_limits {
                    Some(p) => Some(p.1),
                    None => None,
                },
                rlimits: ld.rlimits,
            },
        )
    }
}

} // verus!

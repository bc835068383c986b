//! Parses a process's configured resource limits: a fixed-column text
//! table with one header line, then one line per limit.  A limit name
//! may itself contain spaces, so the name is everything before the
//! last three whitespace-delimited columns (soft, hard, unit).

use vstd::prelude::*;
use crate::text::{
    tokens_of, dec_u64_of, join_ws, views_of, lines_of, split_ws, split_lines, parse_dec_u64,
    str_eq, join_prefix,
};

verus! {

/// One named limit with its soft/hard pair, in native units.
#[derive(Debug)]
pub struct RLimit {
    pub name: String,
    pub soft: u64,
    pub hard: u64,
}

/// What a single limit column parses to: the token `unlimited` maps to
/// the maximum representable value (never 0), anything else parses as
/// an unsigned integer, defaulting to 0 on malformed text.
pub open spec fn limit_of(tok: Seq<char>) -> u64 {
    if tok == "unlimited"@ {
        u64::MAX
    } else {
        dec_u64_of(tok)
    }
}

/// Parses one soft- or hard-limit column.
pub fn parse_limit(s: &str) -> (r: u64)
    ensures
        r == limit_of(s@),
{
    if str_eq(s, "unlimited") {
        u64::MAX
    } else {
        parse_dec_u64(s)
    }
}

/// The (name, soft, hard) triple of one table line, or nothing when
/// the line has fewer than four columns.
pub open spec fn line_entry_of(line: Seq<char>) -> Option<(Seq<char>, u64, u64)> {
    let ts = tokens_of(line);
    if ts.len() >= 4 {
        Some(
            (
                join_ws(ts.take(ts.len() - 3)),
                limit_of(ts[ts.len() - 3]),
                limit_of(ts[ts.len() - 2]),
            ),
        )
    } else {
        None
    }
}

/// The triples of all well-formed lines, in table order.
pub open spec fn entries_of(lines: Seq<Seq<char>>) -> Seq<(Seq<char>, u64, u64)>
    decreases lines.len(),
{
    if lines.len() == 0 {
        Seq::empty()
    } else {
        let rest = entries_of(lines.drop_last());
        match line_entry_of(lines.last()) {
            Some(e) => rest.push(e),
            None => rest,
        }
    }
}

/// The data lines of a limits table: everything after the header line.
pub open spec fn data_lines(text: Seq<char>) -> Seq<Seq<char>> {
    if lines_of(text).len() == 0 {
        Seq::empty()
    } else {
        lines_of(text).drop_first()
    }
}

/// The soft/hard pair of the first entry with the given name.
pub open spec fn find_entry(es: Seq<(Seq<char>, u64, u64)>, name: Seq<char>) -> Option<(u64, u64)>
    decreases es.len(),
{
    if es.len() == 0 {
        None
    } else if es[0].0 == name {
        Some((es[0].1, es[0].2))
    } else {
        find_entry(es.drop_first(), name)
    }
}

pub open spec fn rlimit_views(v: Seq<RLimit>) -> Seq<(Seq<char>, u64, u64)> {
    v.map_values(|e: RLimit| (e.name@, e.soft, e.hard))
}

/// Everything extracted from one limits table: the full mapping plus
/// the three singled-out pairs.  The file-descriptor pair defaults to
/// (0, 0) when its line is missing; the memory and thread pairs are
/// explicitly absent then, never silently zero.
pub struct LimitsData {
    pub rlimits: Vec<RLimit>,
    pub fd_limits: (u64, u64),
    pub mem_limits: Option<(u64, u64)>,
    pub thread_limits: Option<(u64, u64)>,
}

pub open spec fn limits_post(text: Seq<char>, d: LimitsData) -> bool {
    let es = entries_of(data_lines(text));
    &&& rlimit_views(d.rlimits@) == es
    &&& d.fd_limits == match find_entry(es, "Max open files"@) {
        Some(p) => p,
        None => (0u64, 0u64),
    }
    &&& d.mem_limits == find_entry(es, "Max address space"@)
    &&& d.thread_limits == find_entry(es, "Max processes"@)
}

/// A table line whose hard-limit column reads `unlimited` always
/// yields the maximum representable hard limit, never 0.
pub proof fn lemma_unlimited_hard(line: Seq<char>)
    requires
        tokens_of(line).len() >= 4,
        tokens_of(line)[tokens_of(line).len() - 2] == "unlimited"@,
    ensures
        line_entry_of(line) is Some,
        line_entry_of(line)->Some_0.2 == u64::MAX,
{
}

proof fn lemma_find_entry_push(es: Seq<(Seq<char>, u64, u64)>, e: (Seq<char>, u64, u64), name: Seq<char>)
    ensures
        find_entry(es.push(e), name) == (if find_entry(es, name) is Some {
            find_entry(es, name)
        } else if e.0 == name {
            Some((e.1, e.2))
        } else {
            None
        }),
    decreases es.len(),
{
    if es.len() == 0 {
        assert(es.push(e)[0] == e);
        if e.0 != name {
            assert(es.push(e).drop_first() =~= Seq::<(Seq<char>, u64, u64)>::empty());
        }
    } else {
        assert(es.push(e)[0] == es[0]);
        assert(es.push(e).drop_first() =~= es.drop_first().push(e));
        lemma_find_entry_push(es.drop_first(), e, name);
    }
}

/// Parses a whole limits table.  Each line with at least four columns
/// contributes one entry; a malformed line is skipped, never fatal.
/// The three singled-out pairs are matched by exact name; the first
/// matching entry wins.
#[verifier::loop_isolation(false)]
pub(crate) fn parse_limits_text(text: &str) -> (d: LimitsData)
    ensures
        limits_post(text@, d),
{
    let lines = split_lines(text);
    let mut rlimits: Vec<RLimit> = Vec::new();
    let mut fd: Option<(u64, u64)> = None;
    let mut mem: Option<(u64, u64)> = None;
    let mut th: Option<(u64, u64)> = None;
    let ghost vs = views_of(lines@);
    proof {
        assert(rlimit_views(rlimits@) =~~= Seq::<(Seq<char>, u64, u64)>::empty());
    }
    if lines.len() == 0 {
        return LimitsData { rlimits, fd_limits: (0, 0), mem_limits: None, thread_limits: None };
    }
    let mut j: usize = 1;
    proof {
        assert(vs.subrange(1, 1) =~= Seq::<Seq<char>>::empty());
    }
    while j < lines.len()
        invariant
            1 <= j <= lines@.len(),
            vs == views_of(lines@),
            rlimit_views(rlimits@) == entries_of(vs.subrange(1, j as int)),
            fd == find_entry(entries_of(vs.subrange(1, j as int)), "Max open files"@),
            mem == find_entry(entries_of(vs.subrange(1, j as int)), "Max address space"@),
            th == find_entry(entries_of(vs.subrange(1, j as int)), "Max processes"@),
        decreases lines@.len() - j,
    {
        let ghost es_old = entries_of(vs.subrange(1, j as int));
        proof {
            assert(vs.subrange(1, j + 1).drop_last() =~= vs.subrange(1, j as int));
            assert(vs.subrange(1, j + 1).last() == vs[j as int]);
        }
        let ts = split_ws(lines[j].as_str());
        if ts.len() >= 4 {
            let name = join_prefix(&ts, ts.len() - 3);
            let soft = parse_limit(ts[ts.len() - 3].as_str());
            let hard = parse_limit(ts[ts.len() - 2].as_str());
            let ghost e = (name@, soft, hard);
            proof {
                assert(views_of(ts@)[ts@.len() - 3] == ts@[ts@.len() - 3]@);
                assert(views_of(ts@)[ts@.len() - 2] == ts@[ts@.len() - 2]@);
                assert(line_entry_of(vs[j as int]) == Some(e));
                lemma_find_entry_push(es_old, e, "Max open files"@);
                lemma_find_entry_push(es_old, e, "Max address space"@);
                lemma_find_entry_push(es_old, e, "Max processes"@);
            }
            if fd.is_none() && str_eq(name.as_str(), "Max open files") {
                fd = Some((soft, hard));
            }
            if mem.is_none() && str_eq(name.as_str(), "Max address space") {
                mem = Some((soft, hard));
            }
            if th.is_none() && str_eq(name.as_str(), "Max processes") {
                th = Some((soft, hard));
            }
            proof {
                assert(rlimit_views(rlimits@.push(RLimit { name, soft, hard })) =~~= rlimit_views(
                    rlimits@,
                ).push(e));
            }
            rlimits.push(RLimit { name, soft, hard });
        } else {
            proof {
                assert(line_entry_of(vs[j as int]) is None);
            }
        }
        j += 1;
    }
    proof {
        assert(vs.subrange(1, lines@.len() as int) =~~= data_lines(text@));
    }
    LimitsData {
        rlimits,
        fd_limits: match fd {
            Some(p) => p,
            None => (0, 0),
        },
        mem_limits: mem,
        thread_limits: th,
    }
}

} // verus!

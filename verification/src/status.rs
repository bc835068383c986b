//! Parses a process's memory and thread counters from its status
//! descriptor: a text file of `Key:\tvalue [unit]` lines.  Memory
//! counters are reported in kibibytes and converted to bytes; a key
//! that is missing defaults its field to 0 (graceful degradation).

use vstd::prelude::*;
use crate::text::{
    tokens_of, dec_u64_of, dec_u32_of, views_of, lines_of, split_ws, split_lines, parse_dec_u64,
    parse_dec_u32, str_starts_with, has_prefix,
};

verus! {

/// Kibibytes to bytes, saturating at the maximum representable value.
pub open spec fn sat_mul_1024(v: u64) -> u64 {
    if v > u64::MAX / 1024 {
        u64::MAX
    } else {
        (v * 1024) as u64
    }
}

/// The byte value carried by one `Key: value kB` line: its second
/// whitespace-delimited token, parsed and converted from kibibytes.
pub open spec fn kb_of(line: Seq<char>) -> u64 {
    let ts = tokens_of(line);
    if ts.len() >= 2 {
        sat_mul_1024(dec_u64_of(ts[1]))
    } else {
        0
    }
}

/// The plain integer carried by one `Key: value` line.
pub open spec fn second_tok_u32(line: Seq<char>) -> u32 {
    let ts = tokens_of(line);
    if ts.len() >= 2 {
        dec_u32_of(ts[1])
    } else {
        0
    }
}

/// The first line that begins with the given key.
pub open spec fn first_line_with(lines: Seq<Seq<char>>, key: Seq<char>) -> Option<Seq<char>>
    decreases lines.len(),
{
    if lines.len() == 0 {
        None
    } else if has_prefix(lines[0], key) {
        Some(lines[0])
    } else {
        first_line_with(lines.drop_first(), key)
    }
}

/// The byte value of the first line keyed by `key`, or 0 when no line
/// carries that key.
pub open spec fn status_kb(lines: Seq<Seq<char>>, key: Seq<char>) -> u64 {
    match first_line_with(lines, key) {
        Some(l) => kb_of(l),
        None => 0,
    }
}

/// The integer value of the first line keyed by `key`, or 0.
pub open spec fn status_u32(lines: Seq<Seq<char>>, key: Seq<char>) -> u32 {
    match first_line_with(lines, key) {
        Some(l) => second_tok_u32(l),
        None => 0,
    }
}

proof fn lemma_first_line_push(lines: Seq<Seq<char>>, l: Seq<char>, key: Seq<char>)
    ensures
        first_line_with(lines, key) is Some ==> first_line_with(lines.push(l), key)
            == first_line_with(lines, key),
        first_line_with(lines, key) is None && has_prefix(l, key) ==> first_line_with(
            lines.push(l),
            key,
        ) == Some(l),
        first_line_with(lines, key) is None && !has_prefix(l, key) ==> first_line_with(
            lines.push(l),
            key,
        ) is None,
    decreases lines.len(),
{
    if lines.len() == 0 {
        assert(lines.push(l)[0] == l);
        if !has_prefix(l, key) {
            assert(lines.push(l).drop_first() =~= Seq::<Seq<char>>::empty());
            assert(first_line_with(Seq::<Seq<char>>::empty(), key) is None);
        }
    } else {
        assert(lines.push(l)[0] == lines[0]);
        assert(lines.push(l).drop_first() =~= lines.drop_first().push(l));
        lemma_first_line_push(lines.drop_first(), l, key);
    }
}

proof fn lemma_first_line_skip(lines: Seq<Seq<char>>, key: Seq<char>, j: int)
    requires
        0 <= j <= lines.len(),
        first_line_with(lines.take(j), key) is None,
    ensures
        first_line_with(lines, key) == first_line_with(lines.skip(j), key),
    decreases j,
{
    if j == 0 {
        assert(lines.skip(0) =~= lines);
    } else {
        assert(lines.take(j)[0] == lines[0]);
        assert(!has_prefix(lines[0], key));
        assert(lines.take(j).drop_first() =~= lines.drop_first().take(j - 1));
        lemma_first_line_skip(lines.drop_first(), key, j - 1);
        assert(lines.drop_first().skip(j - 1) =~= lines.skip(j));
    }
}

/// Extracts the kibibyte count of one status line and converts it to
/// bytes, saturating; malformed text degrades to 0.
pub fn extract_kb(line: &str) -> (r: u64)
    ensures
        r == kb_of(line@),
{
    let ts = split_ws(line);
    if ts.len() >= 2 {
        proof {
            assert(views_of(ts@)[1] == ts@[1]@);
        }
        let v = parse_dec_u64(ts[1].as_str());
        if v > u64::MAX / 1024 {
            u64::MAX
        } else {
            v * 1024
        }
    } else {
        0
    }
}

/// The plain integer of one status line's second column.
pub fn extract_u32(line: &str) -> (r: u32)
    ensures
        r == second_tok_u32(line@),
{
    let ts = split_ws(line);
    if ts.len() >= 2 {
        proof {
            assert(views_of(ts@)[1] == ts@[1]@);
        }
        parse_dec_u32(ts[1].as_str())
    } else {
        0
    }
}

/// The four counters extracted from one status descriptor, memory in
/// bytes.
pub struct StatusData {
    pub vm_rss: u64,
    pub vm_size: u64,
    pub vm_locked: u64,
    pub threads: u32,
}

pub open spec fn status_post(text: Seq<char>, d: StatusData) -> bool {
    let ls = lines_of(text);
    &&& d.vm_rss == status_kb(ls, "VmRSS:"@)
    &&& d.vm_size == status_kb(ls, "VmSize:"@)
    &&& d.vm_locked == status_kb(ls, "VmLck:"@)
    &&& d.threads == status_u32(ls, "Threads:"@)
}

/// Parses a whole status descriptor in one pass; for each key the
/// first matching line wins.
#[verifier::loop_isolation(false)]
pub(crate) fn parse_status_text(text: &str) -> (d: StatusData)
    ensures
        status_post(text@, d),
{
    let lines = split_lines(text);
    let ghost vs = views_of(lines@);
    let mut rss: Option<u64> = None;
    let mut size: Option<u64> = None;
    let mut lck: Option<u64> = None;
    let mut thr: Option<u32> = None;
    let mut j: usize = 0;
    proof {
        assert(vs.take(0) =~~= Seq::<Seq<char>>::empty());
    }
    while j < lines.len()
        invariant
            0 <= j <= lines@.len(),
            vs == views_of(lines@),
            rss == match first_line_with(vs.take(j as int), "VmRSS:"@) {
                Some(l) => Some(kb_of(l)),
                None => None::<u64>,
            },
            size == match first_line_with(vs.take(j as int), "VmSize:"@) {
                Some(l) => Some(kb_of(l)),
                None => None::<u64>,
            },
            lck == match first_line_with(vs.take(j as int), "VmLck:"@) {
                Some(l) => Some(kb_of(l)),
                None => None::<u64>,
            },
            thr == match first_line_with(vs.take(j as int), "Threads:"@) {
                Some(l) => Some(second_tok_u32(l)),
                None => None::<u32>,
            },
        decreases lines@.len() - j,
    {
        proof {
            assert(vs.take(j + 1) =~~= vs.take(j as int).push(vs[j as int]));
            lemma_first_line_push(vs.take(j as int), vs[j as int], "VmRSS:"@);
            lemma_first_line_push(vs.take(j as int), vs[j as int], "VmSize:"@);
            lemma_first_line_push(vs.take(j as int), vs[j as int], "VmLck:"@);
            lemma_first_line_push(vs.take(j as int), vs[j as int], "Threads:"@);
        }
        let line = lines[j].as_str();
        if rss.is_none() && str_starts_with(line, "VmRSS:") {
            rss = Some(extract_kb(line));
        }
        if size.is_none() && str_starts_with(line, "VmSize:") {
            size = Some(extract_kb(line));
        }
        if lck.is_none() && str_starts_with(line, "VmLck:") {
            lck = Some(extract_kb(line));
        }
        if thr.is_none() && str_starts_with(line, "Threads:") {
            thr = Some(extract_u32(line));
        }
        j += 1;
    }
    proof {
        assert(vs.take(lines@.len() as int) =~~= vs);
    }
    StatusData {
        vm_rss: match rss {
            Some(v) => v,
            None => 0,
        },
        vm_size: match size {
            Some(v) => v,
            None => 0,
        },
        vm_locked: match lck {
            Some(v) => v,
            None => 0,
        },
        threads: match thr {
            Some(v) => v,
            None => 0,
        },
    }
}

/// The parent process id recorded in a status descriptor, 0 when the
/// line is missing or malformed.
pub fn parse_ppid(text: &str) -> (r: u32)
    ensures
        r == status_u32(lines_of(text@), "PPid:"@),
{
    status_field_u32(text, "PPid:")
}

/// The real user id recorded in a status descriptor: the first value
/// on the `Uid:` line, 0 when missing or malformed.
pub fn parse_uid(text: &str) -> (r: u32)
    ensures
        r == status_u32(lines_of(text@), "Uid:"@),
{
    status_field_u32(text, "Uid:")
}

/// The integer value of the first line keyed by `key`.
#[verifier::loop_isolation(false)]
fn status_field_u32(text: &str, key: &str) -> (r: u32)
    ensures
        r == status_u32(lines_of(text@), key@),
{
    let lines = split_lines(text);
    let ghost vs = views_of(lines@);
    let mut j: usize = 0;
    proof {
        assert(vs.take(0) =~~= Seq::<Seq<char>>::empty());
    }
    while j < lines.len()
        invariant
            0 <= j <= lines@.len(),
            vs == views_of(lines@),
            first_line_with(vs.take(j as int), key@) is None,
        decreases lines@.len() - j,
    {
        proof {
            assert(vs.take(j + 1) =~~= vs.take(j as int).push(vs[j as int]));
            lemma_first_line_push(vs.take(j as int), vs[j as int], key@);
        }
        let line = lines[j].as_str();
        if str_starts_with(line, key) {
            proof {
                lemma_first_line_skip(vs, key@, j as int);
                assert(vs.skip(j as int)[0] == vs[j as int]);
            }
            return extract_u32(line);
        }
        j += 1;
    }
    proof {
        lemma_first_line_skip(vs, key@, vs.len() as int);
        assert(vs.skip(vs.len() as int) =~= Seq::<Seq<char>>::empty());
    }
    0
}

} // verus!

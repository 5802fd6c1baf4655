//! Reading the closure resolver's output: one fully qualified store path per line.
use vstd::prelude::*;
use vstd::string::StrSliceExecFns;
use vstd::string::StringExecFns;

use crate::error::StoreError;
use crate::names::{names_of, NameSet};

verus! {

broadcast use vstd::string::group_string_axioms;

/// The lines completed in `s`, and where the line still open begins.
pub open spec fn scan_lines(s: Seq<char>) -> (Seq<Seq<char>>, int)
    decreases s.len(),
{
    if s.len() == 0 {
        (Seq::empty(), 0)
    } else {
        let (done, start) = scan_lines(s.drop_last());
        if s.last() == '\n' {
            (done.push(s.subrange(start, s.len() - 1)), s.len() as int)
        } else {
            (done, start)
        }
    }
}

/// A line without the carriage return that may end it.
pub open spec fn without_cr(l: Seq<char>) -> Seq<char> {
    if l.len() > 0 && l.last() == '\r' {
        l.drop_last()
    } else {
        l
    }
}

/// The lines of `s`: split at each line feed, with a carriage return before a
/// line feed removed; text after the last line feed is a line if not empty.
pub open spec fn lines_of(s: Seq<char>) -> Seq<Seq<char>> {
    let (done, start) = scan_lines(s);
    let ended = done.map_values(|l: Seq<char>| without_cr(l));
    if start < s.len() {
        ended.push(s.subrange(start, s.len() as int))
    } else {
        ended
    }
}

/// Whether `l` begins with `prefix`.
pub open spec fn has_prefix(l: Seq<char>, prefix: Seq<char>) -> bool {
    prefix.len() <= l.len() && l.take(prefix.len() as int) == prefix
}

/// Whether every line of `s` begins with `prefix`.
pub open spec fn all_prefixed(s: Seq<char>, prefix: Seq<char>) -> bool {
    forall|i: int| 0 <= i < lines_of(s).len() ==> has_prefix(#[trigger] lines_of(s)[i], prefix)
}

/// The identifiers named by the lines of `s`, each with `prefix` taken off.
pub open spec fn closure_of(s: Seq<char>, prefix: Seq<char>) -> Set<Seq<char>> {
    lines_of(s).map_values(|l: Seq<char>| l.skip(prefix.len() as int)).to_set()
}

/// `line` as a `String`, without the carriage return that may end it.
fn line_without_cr(line: &str) -> (r: String)
    ensures
        r@ == without_cr(line@),
{
    let n = line.unicode_len();
    if n > 0 && line.get_char(n - 1) == '\r' {
        String::from_str(line.substring_char(0, n - 1))
    } else {
        String::from_str(line)
    }
}

/// Splits `text` into its lines.
pub fn split_lines(text: &str) -> (r: Vec<String>)
    ensures
        names_of(r@) == lines_of(text@),
{
    let n = text.unicode_len();
    let mut lines: Vec<String> = Vec::new();
    let mut start: usize = 0;
    let mut pos: usize = 0;
    for c in it: text.chars()
        invariant
            n == text@.len(),
            it.seq() == text@,
            pos == it.index(),
            start <= pos,
            start == scan_lines(text@.take(pos as int)).1,
            names_of(lines@) == scan_lines(text@.take(pos as int)).0.map_values(
                |l: Seq<char>| without_cr(l),
            ),
    {
        let ghost before = text@.take(pos as int);
        let ghost now = text@.take(pos + 1);
        let ghost old_lines = names_of(lines@);
        proof {
            assert(now.drop_last() =~= before);
            assert(now.last() == c);
        }
        if c == '\n' {
            let line = text.substring_char(start, pos);
            let l = line_without_cr(line);
            proof {
                assert(line@ =~= now.subrange(start as int, pos as int));
                assert(scan_lines(now).0 == scan_lines(before).0.push(line@));
                assert(names_of(lines@.push(l)) =~= old_lines.push(l@));
                assert(scan_lines(now).0.map_values(|l: Seq<char>| without_cr(l))
                    =~= scan_lines(before).0.map_values(|l: Seq<char>| without_cr(l)).push(l@));
            }
            lines.push(l);
            start = pos + 1;
        } else {
            proof {
                assert(scan_lines(now) == scan_lines(before));
            }
        }
        pos = pos + 1;
    }
    assert(text@.take(n as int) =~= text@);
    let ghost done = scan_lines(text@).0;
    let ghost trimmed = done.map_values(|l: Seq<char>| without_cr(l));
    if start < n {
        let line = text.substring_char(start, n);
        let l = String::from_str(line);
        proof {
            assert(names_of(lines@.push(l)) =~= trimmed.push(l@));
        }
        lines.push(l);
    }
    assert(names_of(lines@) =~= lines_of(text@));
    lines
}

/// `line` with `prefix` taken off, or `None` where `line` does not begin with it.
pub fn strip_prefix(line: &str, prefix: &str) -> (r: Option<String>)
    ensures
        r is Some <==> has_prefix(line@, prefix@),
        r matches Some(rest) ==> rest@ == line@.skip(prefix@.len() as int),
{
    let n = line.unicode_len();
    let m = prefix.unicode_len();
    if m > n {
        return None;
    }
    let head = String::from_str(line.substring_char(0, m));
    if head == String::from_str(prefix) {
        Some(String::from_str(line.substring_char(m, n)))
    } else {
        None
    }
}

/// Reads the resolver's output: each line is a store path beginning with
/// `prefix`, and what follows the prefix is an identifier of the closure. A
/// line without the prefix makes the output unreadable; the error holds it.
pub fn parse_closure(output: &str, prefix: &str) -> (r: Result<NameSet, StoreError>)
    ensures
        r is Ok <==> all_prefixed(output@, prefix@),
        r matches Ok(set) ==> set.wf() && set@ == closure_of(output@, prefix@),
        r matches Err(e) ==> (e matches StoreError::Resolution(l) && lines_of(output@).contains(l@)
            && !has_prefix(l@, prefix@)),
{
    let lines = split_lines(output);
    let ghost ls = lines_of(output@);
    let ghost strip = |l: Seq<char>| l.skip(prefix@.len() as int);
    let mut set = NameSet::new();
    let mut i: usize = 0;
    while i < lines.len()
        invariant
            ls == lines_of(output@),
            strip == (|l: Seq<char>| l.skip(prefix@.len() as int)),
            names_of(lines@) == ls,
            i <= lines@.len(),
            set.wf(),
            forall|j: int| 0 <= j < i ==> has_prefix(#[trigger] ls[j], prefix@),
            set@ == ls.take(i as int).map_values(strip).to_set(),
        decreases lines@.len() - i,
    {
        assert(ls.len() == lines@.len());
        let line: &str = lines[i].as_str();
        assert(line@ == ls[i as int]);
        match strip_prefix(line, prefix) {
            Some(name) => {
                let ghost prev = ls.take(i as int).map_values(strip);
                proof {
                    assert(strip(ls[i as int]) == name@);
                    assert(ls.take(i + 1) =~= ls.take(i as int).push(ls[i as int]));
                    assert(ls.take(i + 1).map_values(strip) =~= prev.push(name@));
                    prev.lemma_push_to_set_commute(name@);
                }
                set.insert(name);
            },
            None => {
                proof {
                    assert(ls.contains(lines@[i as int]@));
                    assert(!has_prefix(lines_of(output@)[i as int], prefix@));
                }
                return Err(StoreError::Resolution(lines[i].clone()));
            },
        }
        i = i + 1;
    }
    assert(ls.take(ls.len() as int) =~= ls);
    assert(set@ =~= closure_of(output@, prefix@));
    Ok(set)
}

} // verus!

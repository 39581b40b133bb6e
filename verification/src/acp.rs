//! Events that an agent connection reports to the editor, and the text an
//! agent reads from a file.

use vstd::prelude::*;

use crate::text::{chars_of, find_char_from, lemma_find_char_from, string_from_chars, string_push};

verus! {

broadcast use vstd::string::group_string_axioms;

/// What the agent client reports.
#[derive(Debug, Clone)]
pub enum AcpEvent {
    Ready,
    AgentMessageChunk(String),
    ResponseComplete,
    WritePending,
    WriteFile { path: String, content: String },
    Error(String),
}

/// A line without the `\r` of a `\r\n` ending.
pub open spec fn strip_cr(l: Seq<char>) -> Seq<char> {
    if l.len() > 0 && l.last() == '\r' {
        l.drop_last()
    } else {
        l
    }
}

/// The lines of `s` as `str::lines` gives them: split at `\n`, a `\r`
/// before the `\n` dropped, and no empty line after a final line ending.
pub open spec fn text_lines(s: Seq<char>) -> Seq<Seq<char>>
    decreases s.len(),
{
    if s.len() == 0 {
        seq![]
    } else {
        match find_char_from(s, '\n', 0) {
            None => seq![s],
            Some(i) => {
                proof {
                    lemma_find_char_from(s, '\n', 0);
                }
                seq![strip_cr(s.take(i))] + text_lines(s.skip(i + 1))
            },
        }
    }
}

/// Lines joined with `\n` between them.
pub open spec fn joined(ls: Seq<Seq<char>>) -> Seq<char>
    decreases ls.len(),
{
    if ls.len() == 0 {
        seq![]
    } else if ls.len() == 1 {
        ls[0]
    } else {
        joined(ls.drop_last()) + seq!['\n'] + ls.last()
    }
}

/// The lines an agent asked for: from line `line` (1-based, the first when
/// not given) on, at most `limit` of them (all when not given), joined with
/// `\n`.
pub open spec fn line_window(content: Seq<char>, line: Option<u32>, limit: Option<u32>) -> Seq<char> {
    let ls = text_lines(content);
    let start = match line {
        Some(l) => if l > 0 {
            l - 1
        } else {
            0
        },
        None => 0,
    };
    let from = if start < ls.len() {
        start as int
    } else {
        ls.len() as int
    };
    let rest = ls.skip(from);
    let n = match limit {
        Some(k) => if k < rest.len() {
            k as int
        } else {
            rest.len() as int
        },
        None => rest.len() as int,
    };
    joined(rest.take(n))
}

/// The lines of `content`, each without its line ending.
fn split_lines(content: &str) -> (r: Vec<String>)
    ensures
        r@.map_values(|l: String| l@) == text_lines(content@),
{
    let cs = chars_of(content);
    let ghost s = cs@;
    let mut lines: Vec<String> = Vec::new();
    let mut start: usize = 0;
    let mut i: usize = 0;
    assert(s.skip(0) =~= s);
    assert(lines@.map_values(|l: String| l@) + text_lines(s) =~= text_lines(s));
    while i < cs.len()
        invariant
            s == cs@,
            start <= i <= s.len(),
            forall|j: int| start <= j < i ==> s[j] != '\n',
            text_lines(s) == lines@.map_values(|l: String| l@) + text_lines(s.skip(start as int)),
        decreases s.len() - i,
    {
        if cs[i] == '\n' {
            let ghost rest = s.skip(start as int);
            proof {
                lemma_find_char_from(rest, '\n', 0);
                assert(rest[i - start] == '\n');
                if let Some(k) = find_char_from(rest, '\n', 0) {
                    assert(k == i - start) by {
                        if k < i - start {
                            assert(rest[k] == s[start + k]);
                        }
                    }
                }
                assert(rest.take(i - start) =~= s.subrange(start as int, i as int));
                assert(rest.skip(i - start + 1) =~= s.skip(i + 1));
            }
            let mut end = i;
            if end > start && cs[end - 1] == '\r' {
                end = end - 1;
            }
            let mut line: Vec<char> = Vec::new();
            let mut k = start;
            while k < end
                invariant
                    start <= k <= end <= i < s.len(),
                    s == cs@,
                    line@ == s.subrange(start as int, k as int),
                decreases end - k,
            {
                line.push(cs[k]);
                k += 1;
            }
            proof {
                assert(line@ =~= strip_cr(s.subrange(start as int, i as int)));
            }
            let ghost before = lines@.map_values(|l: String| l@);
            lines.push(string_from_chars(&line));
            assert(lines@.map_values(|l: String| l@) =~= before.push(line@));
            assert(text_lines(s) == lines@.map_values(|l: String| l@) + text_lines(s.skip(i + 1)));
            start = i + 1;
        }
        i += 1;
    }
    let ghost rest = s.skip(start as int);
    proof {
        lemma_find_char_from(rest, '\n', 0);
        assert(forall|j: int| 0 <= j < rest.len() ==> rest[j] == s[start + j]);
    }
    if start < cs.len() {
        let mut line: Vec<char> = Vec::new();
        let mut k = start;
        while k < cs.len()
            invariant
                start <= k <= s.len(),
                s == cs@,
                line@ == s.subrange(start as int, k as int),
            decreases s.len() - k,
        {
            line.push(cs[k]);
            k += 1;
        }
        let ghost before = lines@.map_values(|l: String| l@);
        lines.push(string_from_chars(&line));
        assert(line@ =~= rest);
        assert(lines@.map_values(|l: String| l@) =~= before + seq![rest]);
    } else {
        assert(rest.len() == 0);
        assert(lines@.map_values(|l: String| l@) + text_lines(rest) =~= lines@.map_values(|l: String| l@));
    }
    lines
}

/// Apply line offset and limit to content (line-based, 1-indexed).
pub fn apply_line_limit(content: &str, line: Option<u32>, limit: Option<u32>) -> (r: String)
    ensures
        r@ == line_window(content@, line, limit),
{
    let lines = split_lines(content);
    let ghost ls = lines@.map_values(|l: String| l@);
    let start: usize = match line {
        Some(l) => if l > 0 {
            (l - 1) as usize
        } else {
            0
        },
        None => 0,
    };
    let from = if start < lines.len() {
        start
    } else {
        lines.len()
    };
    let n: usize = match limit {
        Some(k) => if (k as usize) < lines.len() - from {
            k as usize
        } else {
            lines.len() - from
        },
        None => lines.len() - from,
    };
    let ghost picked = ls.skip(from as int).take(n as int);
    let total = lines.len();
    let mut out = String::new();
    let mut j: usize = 0;
    while j < n
        invariant
            total == lines@.len(),
            j <= n,
            from + n <= lines@.len(),
            ls == lines@.map_values(|l: String| l@),
            picked == ls.skip(from as int).take(n as int),
            out@ == joined(picked.take(j as int)),
        decreases n - j,
    {
        if j > 0 {
            string_push(&mut out, '\n');
        }
        let piece = &lines[from + j];
        let mut k: usize = 0;
        let pc = chars_of(piece.as_str());
        let ghost before = out@;
        while k < pc.len()
            invariant
                k <= pc@.len(),
                out@ == before + pc@.take(k as int),
            decreases pc@.len() - k,
        {
            string_push(&mut out, pc[k]);
            assert(pc@.take(k + 1) =~= pc@.take(k as int).push(pc@[k as int]));
            k += 1;
        }
        proof {
            assert(pc@.take(pc@.len() as int) =~= pc@);
            assert(picked.take(j + 1).drop_last() =~= picked.take(j as int));
            assert(picked[j as int] == ls[from + j]);
            if j > 0 {
                assert(out@ =~= joined(picked.take(j as int)) + seq!['\n'] + picked[j as int]);
            } else {
                assert(out@ =~= picked[0]);
                assert(picked.take(1) =~= seq![picked[0]]);
            }
        }
        j += 1;
    }
    assert(picked.take(n as int) =~= picked);
    out
}

} // verus!

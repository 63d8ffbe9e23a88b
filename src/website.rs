//! Cleaning up the text of a web page: its HTML one trimmed line at a time,
//! and the markdown made of it.

use vstd::prelude::*;
use crate::text::{chars_of, is_white_exec, is_word_break, string_of, trim_end_white, trim_start_white};

verus! {

/// Reading `s` from the left: the lines ended by `'\n'` so far, and the line in progress.
pub open spec fn line_scan(s: Seq<char>) -> (Seq<Seq<char>>, Seq<char>)
    decreases s.len(),
{
    if s.len() == 0 {
        (seq![], seq![])
    } else {
        let (done, cur) = line_scan(s.drop_last());
        if s.last() == '\n' {
            (done.push(cur), seq![])
        } else {
            (done, cur.push(s.last()))
        }
    }
}

/// The lines of `s` as `str::lines` gives them (before its removal of a
/// final `'\r'`): split at `'\n'`, with no empty line after a final `'\n'`.
pub open spec fn lines_of(s: Seq<char>) -> Seq<Seq<char>> {
    let (done, cur) = line_scan(s);
    if cur.len() > 0 {
        done.push(cur)
    } else {
        done
    }
}

pub open spec fn trim_white(s: Seq<char>) -> Seq<char> {
    trim_start_white(trim_end_white(s))
}

/// A character that alone does not make a line of content.
pub open spec fn is_separator(c: char) -> bool {
    is_word_break(c) || c == '-' || c == '|'
}

/// Each line trimmed and ended by `'\n'`.
pub open spec fn html_lines(ls: Seq<Seq<char>>) -> Seq<char>
    decreases ls.len(),
{
    if ls.len() == 0 {
        seq![]
    } else {
        html_lines(ls.drop_last()) + trim_white(ls.last()) + seq!['\n']
    }
}

/// A markdown line trimmed and ended by `'\n'`, or dropped where it is made
/// of separators only.
pub open spec fn markdown_line(l: Seq<char>) -> Seq<char> {
    let t = trim_white(l);
    if t.len() > 0 && forall|i: int| 0 <= i < t.len() ==> is_separator(#[trigger] t[i]) {
        seq![]
    } else {
        t + seq!['\n']
    }
}

pub open spec fn markdown_lines(ls: Seq<Seq<char>>) -> Seq<char>
    decreases ls.len(),
{
    if ls.len() == 0 {
        seq![]
    } else {
        markdown_lines(ls.drop_last()) + markdown_line(ls.last())
    }
}

/// Whether the `k` characters before index `i` of `s` are all `'\n'`.
pub open spec fn newlines_before(s: Seq<char>, i: int, k: int) -> bool {
    i >= k && forall|j: int| i - k <= j < i ==> s[j] == '\n'
}

/// `s` with every `'\n'` dropped that follows `k` `'\n'` of `s`: runs of line
/// breaks are cut to `k`.
pub open spec fn cap_newlines(s: Seq<char>, k: int) -> Seq<char>
    decreases s.len(),
{
    if s.len() == 0 {
        seq![]
    } else if s.last() == '\n' && newlines_before(s, s.len() - 1, k) {
        cap_newlines(s.drop_last(), k)
    } else {
        cap_newlines(s.drop_last(), k).push(s.last())
    }
}

fn split_lines(s: &Vec<char>) -> (r: Vec<Vec<char>>)
    ensures
        r@.len() == lines_of(s@).len(),
        forall|i: int| 0 <= i < r@.len() ==> #[trigger] r@[i]@ == lines_of(s@)[i],
{
    let mut done: Vec<Vec<char>> = Vec::new();
    let mut cur: Vec<char> = Vec::new();
    let n = s.len();
    for i in 0..n
        invariant
            n == s@.len(),
            done@.len() == line_scan(s@.take(i as int)).0.len(),
            forall|k: int| 0 <= k < done@.len() ==> #[trigger] done@[k]@ == line_scan(s@.take(i as int)).0[k],
            cur@ == line_scan(s@.take(i as int)).1,
    {
        let c = s[i];
        proof {
            assert(s@.take(i + 1).drop_last() =~= s@.take(i as int));
            assert(s@.take(i + 1).last() == c);
        }
        if c == '\n' {
            let ghost old_done = done@;
            done.push(cur);
            cur = Vec::new();
            proof {
                assert forall|k: int| 0 <= k < done@.len() implies #[trigger] done@[k]@ == line_scan(s@.take(i + 1)).0[k] by {
                    if k < old_done.len() {
                        assert(done@[k] == old_done[k]);
                    }
                }
            }
        } else {
            cur.push(c);
        }
    }
    assert(s@.take(n as int) =~= s@);
    if cur.len() > 0 {
        let ghost old_done = done@;
        done.push(cur);
        proof {
            assert forall|k: int| 0 <= k < done@.len() implies #[trigger] done@[k]@ == lines_of(s@)[k] by {
                if k < old_done.len() {
                    assert(done@[k] == old_done[k]);
                }
            }
        }
    }
    done
}

/// Appends `l` trimmed of white space to `out`.
fn push_trimmed(out: &mut Vec<char>, l: &Vec<char>)
    ensures
        final(out)@ == old(out)@ + trim_white(l@),
{
    let mut end = l.len();
    assert(l@.take(end as int) =~= l@);
    while end > 0 && is_white_exec(l[end - 1])
        invariant
            end <= l@.len(),
            trim_end_white(l@) == trim_end_white(l@.take(end as int)),
        decreases end,
    {
        proof {
            assert(l@.take(end as int).drop_last() =~= l@.take(end - 1));
        }
        end = end - 1;
    }
    proof {
        if end > 0 {
            assert(l@.take(end as int).last() == l@[end - 1]);
        }
        assert(trim_end_white(l@.take(end as int)) == l@.take(end as int));
    }
    let ghost t = l@.take(end as int);
    let mut start: usize = 0;
    assert(t.skip(0) =~= t);
    while start < end && is_white_exec(l[start])
        invariant
            start <= end <= l@.len(),
            t == l@.take(end as int),
            trim_start_white(t) == trim_start_white(t.skip(start as int)),
        decreases end - start,
    {
        proof {
            assert(t.skip(start as int).drop_first() =~= t.skip(start + 1));
        }
        start = start + 1;
    }
    proof {
        if start < end {
            assert(t.skip(start as int)[0] == l@[start as int]);
        }
        assert(trim_start_white(t.skip(start as int)) == t.skip(start as int));
    }
    let ghost before = out@;
    for j in start..end
        invariant
            start <= end <= l@.len(),
            t == l@.take(end as int),
            out@ == before + t.subrange(start as int, j as int),
    {
        out.push(l[j]);
        assert(out@ =~= before + t.subrange(start as int, j + 1));
    }
    assert(t.subrange(start as int, end as int) =~= t.skip(start as int));
}

fn cap_newlines_exec(s: &Vec<char>, k: usize) -> (r: Vec<char>)
    ensures
        r@ == cap_newlines(s@, k as int),
{
    let mut r: Vec<char> = Vec::new();
    let mut run: usize = 0;
    for i in 0..s.len()
        invariant
            r@ == cap_newlines(s@.take(i as int), k as int),
            run <= i,
            forall|j: int| i - run <= j < i ==> s@[j] == '\n',
            i > run ==> s@[i - run - 1] != '\n',
    {
        let c = s[i];
        proof {
            let p = s@.take(i + 1);
            assert(p.drop_last() =~= s@.take(i as int));
            assert(p.last() == c);
            assert(newlines_before(p, i as int, k as int) == (run >= k)) by {
                if run >= k {
                    assert forall|j: int| i - k <= j < i implies p[j] == '\n' by {
                        assert(p[j] == s@[j]);
                    }
                } else if i >= k {
                    assert(p[i - run - 1] == s@[i - run - 1]);
                }
            }
        }
        if !(c == '\n' && run >= k) {
            r.push(c);
        }
        if c == '\n' {
            run = run + 1;
        } else {
            run = 0;
        }
    }
    assert(s@.take(s@.len() as int) =~= s@);
    r
}

/// A page's HTML with each line trimmed and runs of line breaks cut to one.
pub fn tidy_html(html: &str) -> (r: String)
    ensures
        r@ == cap_newlines(html_lines(lines_of(html@)), 1),
{
    let cs = chars_of(html);
    let lines = split_lines(&cs);
    let mut out: Vec<char> = Vec::new();
    for i in 0..lines.len()
        invariant
            cs@ == html@,
            lines@.len() == lines_of(html@).len(),
            forall|k: int| 0 <= k < lines@.len() ==> #[trigger] lines@[k]@ == lines_of(html@)[k],
            out@ == html_lines(lines_of(html@).take(i as int)),
    {
        proof {
            assert(lines_of(html@).take(i + 1).drop_last() =~= lines_of(html@).take(i as int));
        }
        push_trimmed(&mut out, &lines[i]);
        out.push('\n');
    }
    assert(lines_of(html@).take(lines@.len() as int) =~= lines_of(html@));
    string_of(&cap_newlines_exec(&out, 1))
}

fn is_separator_exec(c: char) -> (r: bool)
    ensures
        r == is_separator(c),
{
    c == '.' || c == '!' || c == '?' || c == '\n' || c == ' ' || c == ',' || c == ':' || c == '"' || c == '-'
        || c == '|'
}

/// Markdown with each line trimmed, lines made of separators only dropped,
/// and runs of line breaks cut to two.
pub fn tidy_markdown(md: &str) -> (r: String)
    ensures
        r@ == cap_newlines(markdown_lines(lines_of(md@)), 2),
{
    let cs = chars_of(md);
    let lines = split_lines(&cs);
    let mut out: Vec<char> = Vec::new();
    for i in 0..lines.len()
        invariant
            cs@ == md@,
            lines@.len() == lines_of(md@).len(),
            forall|k: int| 0 <= k < lines@.len() ==> #[trigger] lines@[k]@ == lines_of(md@)[k],
            out@ == markdown_lines(lines_of(md@).take(i as int)),
    {
        proof {
            assert(lines_of(md@).take(i + 1).drop_last() =~= lines_of(md@).take(i as int));
        }
        let mut t: Vec<char> = Vec::new();
        push_trimmed(&mut t, &lines[i]);
        assert(t@ =~= trim_white(lines@[i as int]@));
        let mut all_sep = true;
        for j in 0..t.len()
            invariant
                all_sep == forall|m: int| 0 <= m < j ==> is_separator(#[trigger] t@[m]),
        {
            if !is_separator_exec(t[j]) {
                all_sep = false;
            }
        }
        let ghost before = out@;
        if !(t.len() > 0 && all_sep) {
            let mut j: usize = 0;
            while j < t.len()
                invariant
                    j <= t@.len(),
                    out@ == before + t@.take(j as int),
                decreases t@.len() - j,
            {
                out.push(t[j]);
                assert(out@ =~= before + t@.take(j + 1));
                j = j + 1;
            }
            out.push('\n');
            assert(t@.take(t@.len() as int) =~= t@);
        }
        assert(out@ =~= before + markdown_line(lines@[i as int]@));
    }
    assert(lines_of(md@).take(lines@.len() as int) =~= lines_of(md@));
    string_of(&cap_newlines_exec(&out, 2))
}

} // verus!

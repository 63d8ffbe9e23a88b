//! Splitting raw text into sentences, words and whitespace-delimited tokens.

use vstd::prelude::*;

verus! {

/// Characters that end a sentence.
pub const END_OF_SENTENCE: [char; 4] = ['.', '!', '?', '\n'];

pub open spec fn is_sentence_end(c: char) -> bool {
    c == '.' || c == '!' || c == '?' || c == '\n'
}

/// A character that separates two words: a sentence end, a space or one of `,:"`.
pub open spec fn is_word_break(c: char) -> bool {
    is_sentence_end(c) || c == ' ' || c == ',' || c == ':' || c == '"'
}

/// Unicode white space, as `char::is_whitespace` tells it.
pub open spec fn is_white(c: char) -> bool {
    ('\u{9}' <= c <= '\u{d}') || c == ' ' || c == '\u{85}' || c == '\u{a0}' || c == '\u{1680}'
        || ('\u{2000}' <= c <= '\u{200a}') || c == '\u{2028}' || c == '\u{2029}' || c == '\u{202f}'
        || c == '\u{205f}' || c == '\u{3000}'
}

/// What a text is split at.
#[derive(Clone, Copy)]
pub enum Split {
    Sentences,
    Words,
    Whitespace,
}

pub open spec fn is_break(c: char, kind: Split) -> bool {
    match kind {
        Split::Sentences => is_sentence_end(c),
        Split::Words => is_word_break(c),
        Split::Whitespace => is_white(c),
    }
}

/// Reading `s` from the left: the runs already closed by a break, and the run in progress.
pub open spec fn scan(s: Seq<char>, kind: Split) -> (Seq<Seq<char>>, Seq<char>)
    decreases s.len(),
{
    if s.len() == 0 {
        (seq![], seq![])
    } else {
        let (done, cur) = scan(s.drop_last(), kind);
        if is_break(s.last(), kind) {
            if cur.len() > 0 {
                (done.push(cur), seq![])
            } else {
                (done, seq![])
            }
        } else {
            (done, cur.push(s.last()))
        }
    }
}

/// The maximal non-empty runs of `s` that hold no break character, in order.
pub open spec fn runs(s: Seq<char>, kind: Split) -> Seq<Seq<char>> {
    let (done, cur) = scan(s, kind);
    if cur.len() > 0 {
        done.push(cur)
    } else {
        done
    }
}

/// The words of a text: split at word breaks, empty pieces dropped (case is kept).
pub open spec fn words_of(s: Seq<char>) -> Seq<Seq<char>> {
    runs(s, Split::Words)
}

/// The whitespace-delimited tokens of a text.
pub open spec fn tokens_of(s: Seq<char>) -> Seq<Seq<char>> {
    runs(s, Split::Whitespace)
}

/// The sentences of a text: split at sentence ends, empty pieces dropped.
pub open spec fn sentences_of(s: Seq<char>) -> Seq<Seq<char>> {
    runs(s, Split::Sentences)
}

fn is_break_exec(c: char, kind: Split) -> (r: bool)
    ensures
        r == is_break(c, kind),
{
    let end = c == '.' || c == '!' || c == '?' || c == '\n';
    match kind {
        Split::Sentences => end,
        Split::Words => end || c == ' ' || c == ',' || c == ':' || c == '"',
        Split::Whitespace => ('\u{9}' <= c && c <= '\u{d}') || c == ' ' || c == '\u{85}' || c == '\u{a0}'
            || c == '\u{1680}' || ('\u{2000}' <= c && c <= '\u{200a}') || c == '\u{2028}' || c == '\u{2029}'
            || c == '\u{202f}' || c == '\u{205f}' || c == '\u{3000}',
    }
}

/// Relies on `String: FromIterator<char>`: the string of those characters.
#[verifier::external_body]
pub(crate) fn string_of(cs: &Vec<char>) -> (r: String)
    ensures
        r@ == cs@,
{
    cs.iter().collect()
}

/// Relies on `String::push_str`: appends `t`.
#[verifier::external_body]
pub(crate) fn push_str(s: &mut String, t: &str)
    ensures
        final(s)@ == old(s)@ + t@,
{
    s.push_str(t)
}

/// The characters of `s`, in order.
pub fn chars_of(s: &str) -> (r: Vec<char>)
    ensures
        r@ == s@,
{
    let mut r: Vec<char> = Vec::new();
    for c in it: s.chars()
        invariant
            r@ == it.seq().take(it.index() as int),
    {
        r.push(c);
        proof {
            assert(r@ =~= it.seq().take(it.index() + 1));
        }
    }
    proof {
        broadcast use vstd::string::axiom_spec_iter;
    }
    assert(r@ =~= s@);
    r
}

/// Splits `s` into its maximal runs free of break characters.
pub fn split_runs(s: &Vec<char>, kind: Split) -> (r: Vec<Vec<char>>)
    ensures
        r@.len() == runs(s@, kind).len(),
        forall|i: int| 0 <= i < r@.len() ==> #[trigger] r@[i]@ == runs(s@, kind)[i],
{
    let mut done: Vec<Vec<char>> = Vec::new();
    let mut cur: Vec<char> = Vec::new();
    let n = s.len();
    let mut i: usize = 0;
    while i < n
        invariant
            i <= n == s@.len(),
            done@.len() == scan(s@.take(i as int), kind).0.len(),
            forall|k: int| 0 <= k < done@.len() ==> #[trigger] done@[k]@ == scan(s@.take(i as int), kind).0[k],
            cur@ == scan(s@.take(i as int), kind).1,
        decreases n - i,
    {
        let c = s[i];
        proof {
            assert(s@.take(i + 1).drop_last() =~= s@.take(i as int));
            assert(s@.take(i + 1).last() == c);
        }
        if is_break_exec(c, kind) {
            if cur.len() > 0 {
                let ghost old_done = done@;
                let piece = cur;
                done.push(piece);
                cur = Vec::new();
                proof {
                    assert forall|k: int| 0 <= k < done@.len() implies #[trigger] done@[k]@ == scan(s@.take(i + 1), kind).0[k] by {
                        if k < old_done.len() {
                            assert(done@[k] == old_done[k]);
                        }
                    }
                }
            } else {
                cur = Vec::new();
            }
        } else {
            cur.push(c);
        }
        i = i + 1;
    }
    assert(s@.take(n as int) =~= s@);
    if cur.len() > 0 {
        let ghost old_done = done@;
        done.push(cur);
        proof {
            assert forall|k: int| 0 <= k < done@.len() implies #[trigger] done@[k]@ == runs(s@, kind)[k] by {
                if k < old_done.len() {
                    assert(done@[k] == old_done[k]);
                }
            }
        }
    }
    done
}

/// `s` without trailing white space.
pub open spec fn trim_end_white(s: Seq<char>) -> Seq<char>
    decreases s.len(),
{
    if s.len() > 0 && is_white(s.last()) {
        trim_end_white(s.drop_last())
    } else {
        s
    }
}

/// `s` without leading white space.
pub open spec fn trim_start_white(s: Seq<char>) -> Seq<char>
    decreases s.len(),
{
    if s.len() > 0 && is_white(s[0]) {
        trim_start_white(s.drop_first())
    } else {
        s
    }
}

pub fn trim_end_white_exec(s: &mut Vec<char>)
    ensures
        final(s)@ == trim_end_white(old(s)@),
{
    while s.len() > 0 && is_white_exec(s[s.len() - 1])
        invariant
            trim_end_white(s@) == trim_end_white(old(s)@),
        decreases s@.len(),
    {
        let ghost before = s@;
        s.pop();
        assert(s@ =~= before.drop_last());
    }
}

pub fn is_white_exec(c: char) -> (r: bool)
    ensures
        r == is_white(c),
{
    ('\u{9}' <= c && c <= '\u{d}') || c == ' ' || c == '\u{85}' || c == '\u{a0}' || c == '\u{1680}'
        || ('\u{2000}' <= c && c <= '\u{200a}') || c == '\u{2028}' || c == '\u{2029}' || c == '\u{202f}'
        || c == '\u{205f}' || c == '\u{3000}'
}

/// Whether `p` occurs in `s`.
pub open spec fn contains_seq(s: Seq<char>, p: Seq<char>) -> bool {
    exists|i: int| 0 <= i && i + p.len() <= s.len() && #[trigger] s.subrange(i, i + p.len()) == p
}

/// Whether `p` occurs in `s`.
pub fn contains_text(s: &str, p: &str) -> (r: bool)
    ensures
        r == contains_seq(s@, p@),
{
    let a = chars_of(s);
    let b = chars_of(p);
    if b.len() == 0 {
        assert(s@.subrange(0, 0 + p@.len() as int) =~= p@);
        return true;
    }
    for i in 0..a.len()
        invariant
            a@ == s@,
            b@ == p@,
            b@.len() > 0,
            forall|k: int| 0 <= k < i && k + b@.len() <= a@.len() ==> #[trigger] a@.subrange(k, k + b@.len()) != b@,
    {
        if b.len() <= a.len() - i {
            let mut j: usize = 0;
            while j < b.len() && a[i + j] == b[j]
                invariant
                    i + b@.len() <= a@.len() <= usize::MAX,
                    a.len() == a@.len(),
                    j <= b@.len(),
                    forall|m: int| 0 <= m < j ==> a@[i + m] == b@[m],
                decreases b@.len() - j,
            {
                j = j + 1;
            }
            if j == b.len() {
                assert(a@.subrange(i as int, i + b@.len()) =~= b@);
                return true;
            }
            assert(a@.subrange(i as int, i + b@.len())[j as int] != b@[j as int]);
        }
    }
    false
}

/// Marks a page that PDF text extraction could not decode.
pub const UNREADABLE_PAGE_MARK: &'static str = "Unimplemented?\n?Identity-H";

/// Whether the extracted text of a PDF page is the extractor's failure mark.
pub fn is_unreadable_page(page: &str) -> (r: bool)
    ensures
        r == contains_seq(page@, UNREADABLE_PAGE_MARK@),
{
    contains_text(page, UNREADABLE_PAGE_MARK)
}

} // verus!

//! The printed form of search results: one line per matching line, as
//! `<line>: [n1, n2, ...]`, and for a directory a `<path>:` line before the
//! lines of each file.
use vstd::prelude::*;
use crate::directory::{DirectoryResult, FileMatches};
use crate::index::{LineMatches, MatchIndex};

verus! {

/// The character of a decimal digit.
pub open spec fn digit_char(d: nat) -> char {
    ((d + 48) as u8) as char
}

/// The decimal digits of `n`, without leading zeros.
pub open spec fn decimal(n: nat) -> Seq<char>
    decreases n,
{
    if n < 10 {
        seq![digit_char(n)]
    } else {
        decimal(n / 10).push(digit_char(n % 10))
    }
}

/// The numbers of `ns` in decimal, separated by `", "`.
pub open spec fn joined(ns: Seq<usize>) -> Seq<char>
    decreases ns.len(),
{
    if ns.len() == 0 {
        Seq::empty()
    } else if ns.len() == 1 {
        decimal(ns[0] as nat)
    } else {
        joined(ns.drop_last()) + seq![',', ' '] + decimal(ns.last() as nat)
    }
}

/// The numbers of `ns` as a bracketed list: `[1, 2]`, or `[]`.
pub open spec fn number_list(ns: Seq<usize>) -> Seq<char> {
    seq!['['] + joined(ns) + seq![']']
}

/// The printed line of one matching line and its numbers.
pub open spec fn entry_text(e: LineMatches) -> Seq<char> {
    e.line@ + seq![':', ' '] + number_list(e.numbers@)
}

/// The printed lines of one file's matches, one per entry.
pub open spec fn index_text(idx: MatchIndex) -> Seq<Seq<char>> {
    idx.entries@.map_values(|e: LineMatches| entry_text(e))
}

/// The printed lines of a directory's matches: for each file a line with its
/// path and a colon, then the lines of its matches.
pub open spec fn files_text(files: Seq<FileMatches>) -> Seq<Seq<char>>
    decreases files.len(),
{
    if files.len() == 0 {
        Seq::empty()
    } else {
        let f = files.last();
        files_text(files.drop_last()) + seq![f.path@.push(':')] + index_text(f.matches)
    }
}

/// Relies on `String::push`: appends one character.
#[verifier::external_body]
fn push_char(s: &mut String, c: char)
    ensures
        final(s)@ == old(s)@.push(c),
{
    s.push(c)
}

/// Relies on `String::push_str`: appends the characters of `t`.
#[verifier::external_body]
fn push_text(s: &mut String, t: &str)
    ensures
        final(s)@ == old(s)@ + t@,
{
    s.push_str(t)
}

/// Appends the decimal digits of `n`.
fn push_decimal(s: &mut String, n: usize)
    ensures
        final(s)@ == old(s)@ + decimal(n as nat),
    decreases n,
{
    if n >= 10 {
        push_decimal(s, n / 10);
    }
    let d: u8 = (n % 10) as u8;
    push_char(s, (d + 48) as char);
    assert(final(s)@ =~= old(s)@ + decimal(n as nat));
}

/// The numbers of `ns` as a bracketed, comma-separated list.
pub fn render_numbers(ns: &Vec<usize>) -> (r: String)
    ensures
        r@ == number_list(ns@),
{
    let mut s = String::new();
    push_char(&mut s, '[');
    let mut i: usize = 0;
    while i < ns.len()
        invariant
            i <= ns@.len(),
            s@ == seq!['['] + joined(ns@.take(i as int)),
        decreases ns@.len() - i,
    {
        assert(ns@.take(i + 1).drop_last() =~= ns@.take(i as int));
        if i > 0 {
            push_char(&mut s, ',');
            push_char(&mut s, ' ');
        }
        push_decimal(&mut s, ns[i]);
        i = i + 1;
        assert(s@ =~= seq!['['] + joined(ns@.take(i as int)));
    }
    assert(ns@.take(ns@.len() as int) =~= ns@);
    push_char(&mut s, ']');
    assert(s@ =~= number_list(ns@));
    s
}

/// The printed line of one matching line: `<line>: [n1, n2, ...]`.
pub fn render_entry(e: &LineMatches) -> (r: String)
    ensures
        r@ == entry_text(*e),
{
    let mut s = e.line.clone();
    push_text(&mut s, ": ");
    proof {
        reveal_strlit(": ");
    }
    let list = render_numbers(&e.numbers);
    push_text(&mut s, list.as_str());
    assert(s@ =~= entry_text(*e));
    s
}

/// The printed lines of one file's matches, in the index's order.
pub fn render_file(idx: &MatchIndex) -> (r: Vec<String>)
    ensures
        r@.map_values(|t: String| t@) == index_text(*idx),
{
    let mut out: Vec<String> = Vec::new();
    let mut i: usize = 0;
    while i < idx.entries.len()
        invariant
            i <= idx.entries@.len(),
            out@.len() == i,
            forall|j: int| 0 <= j < i ==> (#[trigger] out@[j])@ == entry_text(idx.entries@[j]),
        decreases idx.entries@.len() - i,
    {
        let line = render_entry(&idx.entries[i]);
        out.push(line);
        i = i + 1;
    }
    assert(out@.map_values(|t: String| t@) =~= index_text(*idx));
    out
}

/// The printed lines of a directory's matches: for each file, in the
/// result's order, `<path>:` and then the lines of its matches.
pub fn render_directory(d: &DirectoryResult) -> (r: Vec<String>)
    ensures
        r@.map_values(|t: String| t@) == files_text(d.files@),
{
    let mut out: Vec<String> = Vec::new();
    let mut i: usize = 0;
    while i < d.files.len()
        invariant
            i <= d.files@.len(),
            out@.map_values(|t: String| t@) == files_text(d.files@.take(i as int)),
        decreases d.files@.len() - i,
    {
        let f = &d.files[i];
        assert(d.files@.take(i + 1).drop_last() =~= d.files@.take(i as int));
        let mut header = f.path.clone();
        push_char(&mut header, ':');
        out.push(header);
        let lines = render_file(&f.matches);
        let mut k: usize = 0;
        let ghost start = out@;
        while k < lines.len()
            invariant
                k <= lines@.len(),
                out@.len() == start.len() + k,
                forall|j: int| 0 <= j < start.len() ==> #[trigger] out@[j] == start[j],
                forall|j: int| 0 <= j < k ==> out@[start.len() + j] == #[trigger] lines@[j],
            decreases lines@.len() - k,
        {
            out.push(lines[k].clone());
            k = k + 1;
        }
        assert(out@.map_values(|t: String| t@) =~= start.map_values(|t: String| t@)
            + lines@.map_values(|t: String| t@)) by {
            assert forall|j: int| start.len() <= j < out@.len() implies out@[j] == lines@[j
                - start.len()] by {
                assert(out@[start.len() + (j - start.len())] == lines@[j - start.len()]);
            }
        }
        i = i + 1;
        assert(out@.map_values(|t: String| t@) =~= files_text(d.files@.take(i as int)));
    }
    assert(d.files@.take(i as int) =~= d.files@);
    out
}

} // verus!

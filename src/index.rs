//! Searching the lines of one file: splitting bytes into lines, decoding
//! each line, and grouping the lines that hold the needle with the numbers of
//! the lines on which they occur.
use vstd::prelude::*;
use crate::error::IoError;
use crate::text::{contains_text, decode_lossy, has_substring, lossy_text};

verus! {

/// The byte that ends a line.
pub const NEWLINE: u8 = 10;

/// A byte that is dropped when it stands last before a line's end.
pub const CARRIAGE_RETURN: u8 = 13;

/// Scans `bytes` from the start: the lines finished by a newline so far,
/// and the bytes of the line that is still open.
pub open spec fn split_scan(bytes: Seq<u8>) -> (Seq<Seq<u8>>, Seq<u8>)
    decreases bytes.len(),
{
    if bytes.len() == 0 {
        (Seq::empty(), Seq::empty())
    } else {
        let prev = split_scan(bytes.drop_last());
        if bytes.last() == NEWLINE {
            (prev.0.push(prev.1), Seq::empty())
        } else {
            (prev.0, prev.1.push(bytes.last()))
        }
    }
}

/// The lines of `bytes`, without their newlines: a last line without a
/// newline counts when it is not empty.
pub open spec fn raw_lines(bytes: Seq<u8>) -> Seq<Seq<u8>> {
    let scan = split_scan(bytes);
    if scan.1.len() > 0 {
        scan.0.push(scan.1)
    } else {
        scan.0
    }
}

/// A line's bytes without one trailing carriage return.
pub open spec fn strip_cr(line: Seq<u8>) -> Seq<u8> {
    if line.len() > 0 && line.last() == CARRIAGE_RETURN {
        line.drop_last()
    } else {
        line
    }
}

/// The text of one line: its bytes, decoded lossily.
pub open spec fn line_text(line: Seq<u8>) -> Seq<char> {
    lossy_text(strip_cr(line))
}

/// The texts of the lines of `bytes`, in order; line `n` (from 1) is at
/// position `n - 1`.
pub open spec fn line_texts(bytes: Seq<u8>) -> Seq<Seq<char>> {
    raw_lines(bytes).map_values(|l: Seq<u8>| line_text(l))
}

/// The numbers (from 1) of the lines of `texts` equal to `t`, in increasing
/// order.
pub open spec fn positions(texts: Seq<Seq<char>>, t: Seq<char>) -> Seq<int>
    decreases texts.len(),
{
    if texts.len() == 0 {
        Seq::empty()
    } else {
        let prev = positions(texts.drop_last(), t);
        if texts.last() == t {
            prev.push(texts.len() as int)
        } else {
            prev
        }
    }
}

/// Line numbers as mathematical integers.
pub open spec fn as_ints(v: Seq<usize>) -> Seq<int> {
    v.map_values(|n: usize| n as int)
}

/// One distinct matching line and the numbers of the lines that hold it.
pub struct LineMatches {
    pub line: String,
    pub numbers: Vec<usize>,
}

/// The matching lines of one file, each distinct line once.
pub struct MatchIndex {
    pub entries: Vec<LineMatches>,
}

/// What searching the lines `texts` for `needle` gives, as a map: each
/// distinct line that holds `needle` to the numbers of the lines equal to it.
pub open spec fn match_map(texts: Seq<Seq<char>>, needle: Seq<char>) -> Map<Seq<char>, Seq<int>> {
    Map::new(
        |k: Seq<char>| has_substring(k, needle) && texts.contains(k),
        |k: Seq<char>| positions(texts, k),
    )
}

impl View for MatchIndex {
    type V = Map<Seq<char>, Seq<int>>;

    /// Each line of the index to its line numbers.
    open spec fn view(&self) -> Map<Seq<char>, Seq<int>> {
        Map::new(
            |k: Seq<char>| exists|j: int| 0 <= j < self.entries@.len() && self.entries@[j].line@ == k,
            |k: Seq<char>|
                as_ints(
                    self.entries@[choose|j: int|
                        0 <= j < self.entries@.len() && self.entries@[j].line@ == k].numbers@,
                ),
        )
    }
}

impl MatchIndex {
    /// No two entries share a line.
    pub open spec fn keys_distinct(&self) -> bool {
        forall|j: int, k: int|
            0 <= j < k < self.entries@.len() ==> self.entries@[j].line@
                != self.entries@[k].line@
    }

    /// This index is the result of searching the lines `texts` for `needle`:
    /// its entries are exactly the distinct lines that hold `needle`, each
    /// with all the numbers of the lines equal to it.
    pub open spec fn indexes(&self, texts: Seq<Seq<char>>, needle: Seq<char>) -> bool {
        &&& self.keys_distinct()
        &&& forall|j: int|
            0 <= j < self.entries@.len() ==> {
                &&& has_substring(#[trigger] self.entries@[j].line@, needle)
                &&& as_ints(self.entries@[j].numbers@) == positions(texts, self.entries@[j].line@)
                &&& positions(texts, self.entries@[j].line@).len() > 0
            }
        &&& forall|i: int|
            0 <= i < texts.len() && has_substring(#[trigger] texts[i], needle) ==> exists|j: int|
                0 <= j < self.entries@.len() && self.entries@[j].line@ == texts[i]
    }

    /// The number of distinct matching lines.
    pub fn len(&self) -> (r: usize)
        ensures
            r == self.entries@.len(),
    {
        self.entries.len()
    }

    /// True when no line matched.
    pub fn is_empty(&self) -> (r: bool)
        ensures
            r == (self.entries@.len() == 0),
    {
        self.entries.len() == 0
    }
}

/// The numbers that `positions` gives are increasing, lie between 1 and the
/// number of lines, and are exactly the lines equal to `t`.
pub proof fn lemma_positions_ordered(texts: Seq<Seq<char>>, t: Seq<char>)
    ensures
        forall|a: int, b: int|
            0 <= a < b < positions(texts, t).len() ==> positions(texts, t)[a] < positions(
                texts,
                t,
            )[b],
        forall|a: int|
            0 <= a < positions(texts, t).len() ==> 1 <= #[trigger] positions(texts, t)[a]
                <= texts.len() && texts[positions(texts, t)[a] - 1] == t,
        forall|i: int|
            0 <= i < texts.len() && #[trigger] texts[i] == t ==> positions(texts, t).contains(
                i + 1,
            ),
    decreases texts.len(),
{
    if texts.len() > 0 {
        let prev = texts.drop_last();
        lemma_positions_ordered(prev, t);
        let p = positions(texts, t);
        assert forall|i: int| 0 <= i < texts.len() && #[trigger] texts[i] == t implies p.contains(
            i + 1,
        ) by {
            if i < prev.len() {
                assert(prev[i] == texts[i]);
                let a = choose|a: int| 0 <= a < positions(prev, t).len() && positions(prev, t)[a] == i + 1;
                assert(p[a] == i + 1);
            } else {
                assert(p[p.len() - 1] == i + 1);
            }
        }
    }
}

/// An index of the lines `texts` denotes the map that searching them gives.
pub proof fn lemma_index_view(idx: &MatchIndex, texts: Seq<Seq<char>>, needle: Seq<char>)
    requires
        idx.indexes(texts, needle),
    ensures
        idx@ == match_map(texts, needle),
{
    assert forall|k: Seq<char>| #[trigger] idx@.contains_key(k) == match_map(texts, needle).contains_key(k) by {
        if idx@.contains_key(k) {
            let j = choose|j: int| 0 <= j < idx.entries@.len() && idx.entries@[j].line@ == k;
            lemma_positions_ordered(texts, k);
            let n = positions(texts, k)[0];
            assert(texts[n - 1] == k);
        }
        if match_map(texts, needle).contains_key(k) {
            let i = choose|i: int| 0 <= i < texts.len() && texts[i] == k;
            assert(has_substring(texts[i], needle));
        }
    }
    assert(idx@ =~= match_map(texts, needle));
}

proof fn lemma_positions_absent(texts: Seq<Seq<char>>, t: Seq<char>)
    requires
        forall|i: int| 0 <= i < texts.len() ==> texts[i] != t,
    ensures
        positions(texts, t) == Seq::<int>::empty(),
    decreases texts.len(),
{
    if texts.len() > 0 {
        lemma_positions_absent(texts.drop_last(), t);
    }
}

proof fn lemma_push_other(texts: Seq<Seq<char>>, t: Seq<char>, u: Seq<char>)
    ensures
        u != t ==> positions(texts.push(t), u) == positions(texts, u),
        positions(texts.push(t), t) == positions(texts, t).push(texts.len() + 1int),
{
    assert(texts.push(t).drop_last() =~= texts);
}

/// Searching one more line that does not hold the needle changes nothing.
proof fn lemma_indexes_skip(
    idx: &MatchIndex,
    texts: Seq<Seq<char>>,
    t: Seq<char>,
    needle: Seq<char>,
)
    requires
        idx.indexes(texts, needle),
        !has_substring(t, needle),
    ensures
        idx.indexes(texts.push(t), needle),
{
    assert forall|j: int| 0 <= j < idx.entries@.len() implies positions(
        texts.push(t),
        #[trigger] idx.entries@[j].line@,
    ) == positions(texts, idx.entries@[j].line@) by {
        lemma_push_other(texts, t, idx.entries@[j].line@);
    }
    assert forall|i: int|
        0 <= i < texts.push(t).len() && has_substring(
            #[trigger] texts.push(t)[i],
            needle,
        ) implies exists|j: int|
        0 <= j < idx.entries@.len() && idx.entries@[j].line@ == texts.push(t)[i] by {
        assert(i < texts.len());
        assert(texts.push(t)[i] == texts[i]);
    }
}

/// Adds line number `number`, whose text `line` holds the needle.
fn record_line(
    idx: &mut MatchIndex,
    line: String,
    number: usize,
    Ghost(texts): Ghost<Seq<Seq<char>>>,
    Ghost(needle): Ghost<Seq<char>>,
)
    requires
        old(idx).indexes(texts, needle),
        number == texts.len() + 1,
        has_substring(line@, needle),
    ensures
        final(idx).indexes(texts.push(line@), needle),
{
    let ghost t = line@;
    let ghost pushed = texts.push(t);
    let n = idx.entries.len();
    let mut j: usize = 0;
    while j < n
        invariant
            n == idx.entries@.len(),
            *idx == *old(idx),
            old(idx).indexes(texts, needle),
            has_substring(t, needle),
            number == texts.len() + 1,
            pushed == texts.push(t),
            j <= n,
            line@ == t,
            forall|k: int| 0 <= k < j ==> idx.entries@[k].line@ != t,
        decreases n - j,
    {
        if idx.entries[j].line == line {
            let ghost before = idx.entries@;
            assert(before == old(idx).entries@);
            idx.entries[j].numbers.push(number);
            proof {
                lemma_push_other(texts, t, t);
                assert(as_ints(idx.entries@[j as int].numbers@) =~= as_ints(
                    before[j as int].numbers@,
                ).push(number as int));
                assert forall|k: int| 0 <= k < idx.entries@.len() && k != j implies positions(
                    pushed,
                    #[trigger] idx.entries@[k].line@,
                ) == positions(texts, idx.entries@[k].line@) && idx.entries@[k] == before[k] by {
                    if k < j {
                        assert(before[k].line@ != before[j as int].line@);
                    } else {
                        assert(before[j as int].line@ != before[k].line@);
                    }
                    lemma_push_other(texts, t, idx.entries@[k].line@);
                }
                assert forall|i: int|
                    0 <= i < pushed.len() && has_substring(
                        #[trigger] pushed[i],
                        needle,
                    ) implies exists|k: int|
                    0 <= k < idx.entries@.len() && idx.entries@[k].line@ == pushed[i] by {
                    if i < texts.len() {
                        assert(pushed[i] == texts[i]);
                        assert(has_substring(texts[i], needle));
                        let k = choose|k: int|
                            0 <= k < before.len() && before[k].line@ == texts[i];
                        assert(idx.entries@[k].line@ == before[k].line@);
                    } else {
                        assert(idx.entries@[j as int].line@ == pushed[i]);
                    }
                }
            }
            return;
        }
        j += 1;
    }
    proof {
        assert forall|i: int| 0 <= i < texts.len() implies texts[i] != t by {
            if texts[i] == t {
                assert(has_substring(texts[i], needle));
            }
        }
        lemma_positions_absent(texts, t);
        lemma_push_other(texts, t, t);
    }
    let ghost before = idx.entries@;
    let mut numbers: Vec<usize> = Vec::new();
    numbers.push(number);
    idx.entries.push(LineMatches { line, numbers });
    proof {
        assert(as_ints(idx.entries@[n as int].numbers@) =~= seq![number as int]);
        assert(positions(texts, t).push(texts.len() + 1int) =~= seq![number as int]);
        assert forall|k: int| 0 <= k < n implies positions(
            pushed,
            #[trigger] idx.entries@[k].line@,
        ) == positions(texts, idx.entries@[k].line@) && idx.entries@[k] == before[k] by {
            lemma_push_other(texts, t, idx.entries@[k].line@);
        }
        assert forall|i: int|
            0 <= i < pushed.len() && has_substring(#[trigger] pushed[i], needle) implies exists|
            k: int,
        | 0 <= k < idx.entries@.len() && idx.entries@[k].line@ == pushed[i] by {
            if i < texts.len() {
                assert(pushed[i] == texts[i]);
                let k = choose|k: int| 0 <= k < before.len() && before[k].line@ == texts[i];
                assert(idx.entries@[k].line@ == before[k].line@);
            } else {
                assert(idx.entries@[n as int].line@ == pushed[i]);
            }
        }
    }
}

/// The facts that a search states of its result: every line holds the
/// needle, and each line's numbers increase, lie among the searched lines,
/// and name lines equal to it.
pub open spec fn well_ordered(idx: MatchIndex, texts: Seq<Seq<char>>, needle: Seq<char>) -> bool {
    &&& forall|j: int|
        0 <= j < idx.entries@.len() ==> has_substring(#[trigger] idx.entries@[j].line@, needle)
    &&& forall|j: int, a: int, b: int|
        0 <= j < idx.entries@.len() && 0 <= a < b < idx.entries@[j].numbers@.len()
            ==> #[trigger] idx.entries@[j].numbers@[a] < #[trigger] idx.entries@[j].numbers@[b]
    &&& forall|j: int, a: int|
        0 <= j < idx.entries@.len() && 0 <= a < idx.entries@[j].numbers@.len() ==> {
            let n = #[trigger] idx.entries@[j].numbers@[a] as int;
            &&& 1 <= n <= texts.len()
            &&& texts[n - 1] == idx.entries@[j].line@
        }
}

/// Every line of an index of `texts` holds the needle, and its numbers
/// increase strictly, start from 1 and are lines equal to it.
pub proof fn lemma_index_well_ordered(idx: &MatchIndex, texts: Seq<Seq<char>>, needle: Seq<char>)
    requires
        idx.indexes(texts, needle),
    ensures
        well_ordered(*idx, texts, needle),
{
    assert forall|j: int| 0 <= j < idx.entries@.len() implies {
        let e = #[trigger] idx.entries@[j];
        &&& forall|a: int, b: int| 0 <= a < b < e.numbers@.len() ==> e.numbers@[a] < e.numbers@[b]
        &&& forall|a: int|
            0 <= a < e.numbers@.len() ==> 1 <= e.numbers@[a] <= texts.len() && texts[e.numbers@[a]
                - 1] == e.line@
    } by {
        let e = idx.entries@[j];
        lemma_positions_ordered(texts, e.line@);
        assert forall|a: int| 0 <= a < e.numbers@.len() implies e.numbers@[a] as int == positions(
            texts,
            e.line@,
        )[a] by {
            assert(as_ints(e.numbers@)[a] == e.numbers@[a] as int);
        }
    }
}

/// The texts of a sequence of strings.
pub open spec fn texts_of(lines: Seq<String>) -> Seq<Seq<char>> {
    lines.map_values(|l: String| l@)
}

/// Searches the lines `lines` (line `n` at position `n - 1`) for `needle`.
pub fn index_texts(lines: &Vec<String>, needle: &str) -> (r: MatchIndex)
    ensures
        r.indexes(texts_of(lines@), needle@),
        r@ == match_map(texts_of(lines@), needle@),
        well_ordered(r, texts_of(lines@), needle@),
{
    let mut idx = MatchIndex { entries: Vec::new() };
    let n = lines.len();
    let mut k: usize = 0;
    while k < n
        invariant
            n == lines@.len(),
            k <= n,
            idx.indexes(texts_of(lines@.take(k as int)), needle@),
        decreases n - k,
    {
        let ghost texts = texts_of(lines@.take(k as int));
        assert(texts_of(lines@.take(k + 1)) =~= texts.push(lines@[k as int]@));
        let line = &lines[k];
        if contains_text(line.as_str(), needle) {
            record_line(&mut idx, line.clone(), k + 1, Ghost(texts), Ghost(needle@));
        } else {
            proof {
                lemma_indexes_skip(&idx, texts, line@, needle@);
            }
        }
        k = k + 1;
    }
    assert(lines@.take(n as int) =~= lines@);
    proof {
        lemma_index_view(&idx, texts_of(lines@), needle@);
        lemma_index_well_ordered(&idx, texts_of(lines@), needle@);
    }
    idx
}

/// The text of one line given its bytes (newline removed): a trailing
/// carriage return is dropped and the rest decoded lossily.
fn decode_line(line: Vec<u8>) -> (r: String)
    ensures
        r@ == line_text(line@),
{
    let mut bytes = line;
    let ghost original = bytes@;
    if bytes.len() > 0 && bytes[bytes.len() - 1] == CARRIAGE_RETURN {
        bytes.pop();
    }
    assert(bytes@ == strip_cr(original));
    decode_lossy(bytes.as_slice())
}

/// The texts of the lines of a file's contents, in order.
pub fn split_lines(contents: &Vec<u8>) -> (r: Vec<String>)
    ensures
        texts_of(r@) == line_texts(contents@),
        r@.len() <= contents@.len(),
{
    let mut lines: Vec<String> = Vec::new();
    let mut cur: Vec<u8> = Vec::new();
    let n = contents.len();
    let mut i: usize = 0;
    while i < n
        invariant
            n == contents@.len(),
            i <= n,
            lines@.len() + cur@.len() <= i,
            split_scan(contents@.take(i as int)).1 == cur@,
            split_scan(contents@.take(i as int)).0.map_values(|l: Seq<u8>| line_text(l))
                == texts_of(lines@),
        decreases n - i,
    {
        let b = contents[i];
        let ghost prefix = contents@.take(i as int);
        assert(contents@.take(i + 1).drop_last() =~= prefix);
        if b == NEWLINE {
            let ghost done = split_scan(prefix).0;
            let ghost before = lines@;
            let text = decode_line(cur);
            lines.push(text);
            cur = Vec::new();
            proof {
                assert(done.push(split_scan(prefix).1).map_values(|l: Seq<u8>| line_text(l))
                    =~= done.map_values(|l: Seq<u8>| line_text(l)).push(text@));
                assert(texts_of(lines@) =~= texts_of(before).push(text@));
            }
        } else {
            cur.push(b);
        }
        i = i + 1;
    }
    assert(contents@.take(n as int) =~= contents@);
    if cur.len() > 0 {
        let ghost done = split_scan(contents@).0;
        let ghost before = lines@;
        let text = decode_line(cur);
        lines.push(text);
        proof {
            assert(done.push(split_scan(contents@).1).map_values(|l: Seq<u8>| line_text(l))
                =~= done.map_values(|l: Seq<u8>| line_text(l)).push(text@));
            assert(texts_of(lines@) =~= texts_of(before).push(text@));
        }
    }
    lines
}

/// Searches the lines of a file's contents for `needle`. A line that is not
/// valid UTF-8 is decoded lossily on its own: each invalid sequence becomes
/// U+FFFD, and the other lines are not affected.
pub fn index_lines(contents: &Vec<u8>, needle: &str) -> (r: MatchIndex)
    ensures
        r.indexes(line_texts(contents@), needle@),
        r@ == match_map(line_texts(contents@), needle@),
        well_ordered(r, line_texts(contents@), needle@),
{
    let lines = split_lines(contents);
    index_texts(&lines, needle)
}

/// Searches one file, given what reading it gave: the read's error is passed
/// on, and otherwise the file's lines are searched as by `index_lines`.
pub fn search_file(contents: Result<Vec<u8>, IoError>, needle: &str) -> (r: Result<
    MatchIndex,
    IoError,
>)
    ensures
        match contents {
            Err(e) => r == Err::<MatchIndex, IoError>(e),
            Ok(bytes) => {
                &&& r is Ok
                &&& r->Ok_0.indexes(line_texts(bytes@), needle@)
                &&& r->Ok_0@ == match_map(line_texts(bytes@), needle@)
            },
        },
{
    match contents {
        Err(e) => Err(e),
        Ok(bytes) => Ok(index_lines(&bytes, needle)),
    }
}

} // verus!

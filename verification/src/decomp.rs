//! Decomposition of a digit sequence into dictionary words.
//!
//! Built on the occurrence table of `trie::Trie::find_all_occurrences`:
//! occurrences are first re-indexed by start position, then a backward
//! reachability pass marks each position as word-reachable (a word starting
//! there begins a decomposition of the rest) or skip-reachable (the digit
//! there may be left un-encoded), and finally a backtracking enumerator
//! emits one formatted line per decomposition.
//!
//! Conventions (fixed here once, since the symmetric variants differ):
//! occurrences are indexed by start position, the reachability pass runs
//! backwards from the end of the sequence, word branches are attempted
//! before skip branches, and occurrences at one position are tried shortest
//! word first, each word list in insertion order.

use vstd::prelude::*;

verus! {

use crate::valid_digit;

/// One row of an occurrence table under `DeepView`.
pub type OccRow = Seq<(usize, Seq<Seq<char>>)>;

/// An occurrence table under `DeepView`: one row per position.
pub type OccTable = Seq<OccRow>;

/// The display character of a digit.
pub open spec fn digit_char(d: usize) -> char {
    if d == 0 {
        '0'
    } else if d == 1 {
        '1'
    } else if d == 2 {
        '2'
    } else if d == 3 {
        '3'
    } else if d == 4 {
        '4'
    } else if d == 5 {
        '5'
    } else if d == 6 {
        '6'
    } else if d == 7 {
        '7'
    } else if d == 8 {
        '8'
    } else {
        '9'
    }
}

/// The display string of one digit.
pub(crate) fn digit_str(d: usize) -> (r: &'static str)
    requires
        valid_digit(d),
    ensures
        r@ == seq![digit_char(d)],
{
    proof {
        reveal_strlit("0");
        reveal_strlit("1");
        reveal_strlit("2");
        reveal_strlit("3");
        reveal_strlit("4");
        reveal_strlit("5");
        reveal_strlit("6");
        reveal_strlit("7");
        reveal_strlit("8");
        reveal_strlit("9");
    }
    let r = match d {
        0 => "0",
        1 => "1",
        2 => "2",
        3 => "3",
        4 => "4",
        5 => "5",
        6 => "6",
        7 => "7",
        8 => "8",
        _ => "9",
    };
    proof {
        assert(r@ =~= seq![digit_char(d)]);
    }
    r
}

/// The first `idx` tokens joined with single spaces.
pub open spec fn joined_prefix(toks: Seq<Seq<char>>, idx: int) -> Seq<char>
    decreases idx,
{
    if idx <= 0 {
        Seq::empty()
    } else if idx - 1 == 0 {
        toks[0]
    } else {
        joined_prefix(toks, idx - 1) + seq![' '] + toks[idx - 1]
    }
}

/// One output line: the display string, a colon and a space, then the
/// tokens joined with single spaces.
pub open spec fn line_of(src: Seq<char>, toks: Seq<Seq<char>>) -> Seq<char> {
    src + seq![':', ' '] + joined_prefix(toks, toks.len() as int)
}

/// Formats one output line from the display string and the token buffer.
fn format_line(src: &String, toks: &Vec<String>) -> (r: String)
    ensures
        r@ == line_of(src@, toks.deep_view()),
{
    proof {
        reveal_strlit(": ");
    }
    let mut line = src.clone();
    line.append(": ");
    proof {
        assert(": "@ =~= seq![':', ' ']);
        assert(line@ =~= src@ + seq![':', ' '] + joined_prefix(toks.deep_view(), 0));
    }
    let mut idx: usize = 0;
    while idx < toks.len()
        invariant
            idx <= toks@.len(),
            line@ == src@ + seq![':', ' '] + joined_prefix(toks.deep_view(), idx as int),
        decreases toks@.len() - idx,
    {
        if idx > 0 {
            line.append(" ");
            proof {
                reveal_strlit(" ");
                assert(" "@ =~= seq![' ']);
            }
        }
        line.append(toks[idx].as_str());
        proof {
            assert(line@ =~= src@ + seq![':', ' '] + joined_prefix(
                toks.deep_view(),
                idx as int + 1,
            ));
        }
        idx += 1;
    }
    line
}

/// The entries of `row` whose length is `l`, in row order.
pub open spec fn row_entries_of_len(row: OccRow, l: int, k: int) -> OccRow
    decreases row.len() - k,
{
    if !(0 <= k < row.len()) {
        Seq::empty()
    } else {
        (if row[k].0 as int == l {
            seq![row[k]]
        } else {
            Seq::empty()
        }) + row_entries_of_len(row, l, k + 1)
    }
}

/// The start-indexed row for position `j`, collecting from every end
/// position `i >= pos` the entries of length `i - j`, in ascending order of
/// end position (so shortest word first).
pub open spec fn start_row(t: OccTable, j: int, i: int) -> OccRow
    decreases t.len() - i,
{
    if !(0 <= i < t.len()) {
        Seq::empty()
    } else {
        row_entries_of_len(t[i], i - j, 0) + start_row(t, j, i + 1)
    }
}

/// The occurrence table re-indexed by start position: entry `j` lists every
/// dictionary word occurrence starting at position `j`.
pub open spec fn spec_by_start(t: OccTable) -> OccTable {
    Seq::new(t.len(), |j: int| start_row(t, j, j + 1))
}

/// Re-indexes an end-position occurrence table by start position: an entry
/// of length `L` at end position `i` becomes an entry at start position
/// `i - L`.
pub fn occurrences_by_start(end_occ: &Vec<Vec<(usize, Vec<String>)>>) -> (res: Vec<
    Vec<(usize, Vec<String>)>,
>)
    ensures
        res.deep_view() == spec_by_start(end_occ.deep_view()),
        res@.len() == end_occ@.len(),
{
    let ghost t = end_occ.deep_view();
    let len = end_occ.len();
    let mut res: Vec<Vec<(usize, Vec<String>)>> = Vec::new();
    let mut j: usize = 0;
    while j < len
        invariant
            len == end_occ@.len(),
            t == end_occ.deep_view(),
            j <= len,
            res@.len() == j,
            forall|j2: int| 0 <= j2 < j ==> #[trigger] res.deep_view()[j2] == start_row(
                t,
                j2,
                j2 + 1,
            ),
        decreases len - j,
    {
        let mut row: Vec<(usize, Vec<String>)> = Vec::new();
        let mut i: usize = j + 1;
        proof {
            assert(row.deep_view() + start_row(t, j as int, j as int + 1) =~= start_row(
                t,
                j as int,
                j as int + 1,
            ));
        }
        while i < len
            invariant
                len == end_occ@.len(),
                t == end_occ.deep_view(),
                j < len,
                j + 1 <= i,
                i <= len,
                row.deep_view() + start_row(t, j as int, i as int) == start_row(
                    t,
                    j as int,
                    j as int + 1,
                ),
            decreases len - i,
        {
            let ghost row_pre = row.deep_view();
            let target = i - j;
            let m = end_occ[i].len();
            let mut k: usize = 0;
            proof {
                assert(row.deep_view() + row_entries_of_len(t[i as int], i as int - j as int, 0)
                    =~= row_pre + row_entries_of_len(t[i as int], i as int - j as int, 0));
            }
            while k < m
                invariant
                    len == end_occ@.len(),
                    t == end_occ.deep_view(),
                    j < len,
                    j + 1 <= i < len,
                    target == i - j,
                    m == end_occ@[i as int]@.len(),
                    k <= m,
                    row.deep_view() + row_entries_of_len(t[i as int], i as int - j as int, k as int)
                        == row_pre + row_entries_of_len(t[i as int], i as int - j as int, 0),
                decreases m - k,
            {
                let ghost before = row.deep_view();
                let e = &end_occ[i][k];
                if e.0 == target {
                    let copy = (e.0, e.1.clone());
                    proof {
                        assert(copy.deep_view() == t[i as int][k as int]);
                    }
                    row.push(copy);
                    proof {
                        assert(row.deep_view() =~= before.push(t[i as int][k as int]));
                        assert(row_entries_of_len(t[i as int], i as int - j as int, k as int)
                            == seq![t[i as int][k as int]] + row_entries_of_len(
                            t[i as int],
                            i as int - j as int,
                            k as int + 1,
                        ));
                        assert(row.deep_view() + row_entries_of_len(
                            t[i as int],
                            i as int - j as int,
                            k as int + 1,
                        ) =~= before + row_entries_of_len(
                            t[i as int],
                            i as int - j as int,
                            k as int,
                        ));
                    }
                } else {
                    proof {
                        assert(row_entries_of_len(t[i as int], i as int - j as int, k as int)
                            == row_entries_of_len(t[i as int], i as int - j as int, k as int + 1));
                    }
                }
                k += 1;
            }
            proof {
                assert(row_entries_of_len(t[i as int], i as int - j as int, m as int)
                    == Seq::<(usize, Seq<Seq<char>>)>::empty());
                assert(row.deep_view() =~= row_pre + row_entries_of_len(
                    t[i as int],
                    i as int - j as int,
                    0,
                ));
                assert(start_row(t, j as int, i as int) == row_entries_of_len(
                    t[i as int],
                    i as int - j as int,
                    0,
                ) + start_row(t, j as int, i as int + 1));
                assert(row.deep_view() + start_row(t, j as int, i as int + 1) =~= row_pre
                    + start_row(t, j as int, i as int));
            }
            i += 1;
        }
        proof {
            assert(start_row(t, j as int, len as int) == Seq::<(usize, Seq<Seq<char>>)>::empty());
            assert(row.deep_view() =~= start_row(t, j as int, j as int + 1));
        }
        let ghost res_pre = res.deep_view();
        res.push(row);
        proof {
            assert(res.deep_view() =~= res_pre.push(start_row(t, j as int, j as int + 1)));
        }
        j += 1;
    }
    proof {
        assert(res.deep_view() =~= spec_by_start(t));
    }
    res
}


/// Structural bounds on a start-indexed occurrence table: every entry at
/// position `j` has a positive length that stays inside the sequence.
pub open spec fn start_table_ok(t: OccTable) -> bool {
    &&& t.len() >= 1
    &&& forall|j: int, k: int|
        0 <= j < t.len() && 0 <= k < t[j].len() ==> 1 <= (#[trigger] t[j][k]).0 && j + t[j][k].0
            < t.len()
}

/// Word-reachability of position `i` (the last position is the base case):
/// some occurrence starting at `i` leads to a word- or skip-reachable
/// position, so a decomposition of the rest of the sequence starts with a
/// word here.
pub open spec fn spec_wr(t: OccTable, i: int) -> bool
    decreases t.len() - i, 1int,
    when 0 <= i < t.len()
{
    if i == t.len() - 1 {
        true
    } else {
        exists|k: int|
            0 <= k < t[i].len() && 1 <= (#[trigger] t[i][k]).0 && i + t[i][k].0 < t.len() && (
            spec_wr(t, i + t[i][k].0) || spec_sr(t, i + t[i][k].0))
    }
}

/// Skip-reachability of position `i`: a digit may be left un-encoded only
/// where no dictionary word starts at all, it may not be the last digit,
/// and the next position must be word-reachable (so skips are never
/// adjacent and the final digit is never a lone skipped digit).
pub open spec fn spec_sr(t: OccTable, i: int) -> bool
    decreases t.len() - i, 2int,
    when 0 <= i < t.len()
{
    &&& t[i].len() == 0
    &&& i + 2 < t.len()
    &&& spec_wr(t, i + 1)
}

/// Computes the two reachability tables over a start-indexed occurrence
/// table in one backward pass: entry `i` of the first says whether a
/// decomposition of the suffix can start with a word at `i`, entry `i` of
/// the second whether it can start by skipping the digit at `i`.
pub fn compute_reachability(start_occ: &Vec<Vec<(usize, Vec<String>)>>) -> (res: (
    Vec<bool>,
    Vec<bool>,
))
    requires
        start_table_ok(start_occ.deep_view()),
    ensures
        res.0@.len() == start_occ@.len(),
        res.1@.len() == start_occ@.len(),
        forall|i: int| 0 <= i < start_occ@.len() ==> #[trigger] res.0@[i] == spec_wr(
            start_occ.deep_view(),
            i,
        ),
        forall|i: int| 0 <= i < start_occ@.len() ==> #[trigger] res.1@[i] == spec_sr(
            start_occ.deep_view(),
            i,
        ),
{
    let ghost t = start_occ.deep_view();
    let len = start_occ.len();
    let mut wr: Vec<bool> = vec![false; len];
    let mut sr: Vec<bool> = vec![false; len];
    wr[len - 1] = true;
    let mut i: usize = len - 1;
    while i > 0
        invariant
            t == start_occ.deep_view(),
            start_table_ok(t),
            len == start_occ@.len(),
            len >= 1,
            i < len,
            wr@.len() == len,
            sr@.len() == len,
            forall|j: int| i <= j < len ==> #[trigger] wr@[j] == spec_wr(t, j),
            forall|j: int| i <= j < len ==> #[trigger] sr@[j] == spec_sr(t, j),
        decreases i,
    {
        i -= 1;
        let m = start_occ[i].len();
        let mut k: usize = 0;
        let mut found = false;
        while k < m
            invariant
                t == start_occ.deep_view(),
                start_table_ok(t),
                len == start_occ@.len(),
                i < len - 1 || i == len - 1,
                i < len,
                m == t[i as int].len(),
                k <= m,
                wr@.len() == len,
                sr@.len() == len,
                forall|j: int| i < j < len ==> #[trigger] wr@[j] == spec_wr(t, j),
                forall|j: int| i < j < len ==> #[trigger] sr@[j] == spec_sr(t, j),
                found ==> exists|k2: int|
                    0 <= k2 < k && 1 <= (#[trigger] t[i as int][k2]).0 && i + t[i as int][k2].0
                        < len && (spec_wr(t, i + t[i as int][k2].0) || spec_sr(
                        t,
                        i + t[i as int][k2].0,
                    )),
                !found ==> forall|k2: int|
                    0 <= k2 < k ==> !(1 <= (#[trigger] t[i as int][k2]).0 && i + t[i as int][
                        k2
                    ].0 < len && (spec_wr(t, i + t[i as int][k2].0) || spec_sr(
                        t,
                        i + t[i as int][k2].0,
                    ))),
            decreases m - k,
        {
            let e = &start_occ[i][k];
            let l = e.0;
            proof {
                assert(t[i as int] == start_occ@[i as int].deep_view());
                assert(t[i as int][k as int] == start_occ@[i as int]@[k as int].deep_view());
                assert(t[i as int][k as int].0 == l);
            }
            assert(1 <= l && i + l < len);
            if wr[i + l] || sr[i + l] {
                found = true;
            }
            k += 1;
        }
        let wi = if i == len - 1 {
            true
        } else {
            found
        };
        proof {
            assert(wi == spec_wr(t, i as int));
        }
        wr[i] = wi;
        let si = m == 0 && i + 2 < len && wr[i + 1];
        proof {
            assert(si == spec_sr(t, i as int));
        }
        sr[i] = si;
    }
    proof {
        if len >= 1 {
            assert(spec_wr(t, len - 1));
            assert(!spec_sr(t, len - 1));
        }
    }
    (wr, sr)
}


/// The lines emitted by the enumerator from position `pos` with the tokens
/// in `prefix` already chosen (`cfs` records whether the previous token was
/// a skipped digit).  At the end of the sequence the buffered tokens form
/// one complete decomposition; at a word-reachable position every
/// occurrence is tried in table order; at a skip-reachable position the
/// digit is skipped unless the previous token already was a skip.
pub open spec fn emit_lines(
    st: OccTable,
    wr: Seq<bool>,
    sr: Seq<bool>,
    digits: Seq<usize>,
    src: Seq<char>,
    prefix: Seq<Seq<char>>,
    pos: int,
    cfs: bool,
) -> Seq<Seq<char>>
    decreases digits.len() - pos, 2int, 0int, 1int, 0int,
    when 0 <= pos <= digits.len() && st.len() == digits.len() + 1
{
    if pos == digits.len() {
        seq![line_of(src, prefix)]
    } else if wr[pos] {
        entry_lines(st, wr, sr, digits, src, prefix, pos, 0)
    } else if sr[pos] && !cfs {
        emit_lines(
            st,
            wr,
            sr,
            digits,
            src,
            prefix.push(seq![digit_char(digits[pos])]),
            pos + 1,
            true,
        )
    } else {
        Seq::empty()
    }
}

/// The lines contributed by the occurrence entries of `st[pos]` from index
/// `k` on.
pub open spec fn entry_lines(
    st: OccTable,
    wr: Seq<bool>,
    sr: Seq<bool>,
    digits: Seq<usize>,
    src: Seq<char>,
    prefix: Seq<Seq<char>>,
    pos: int,
    k: int,
) -> Seq<Seq<char>>
    decreases digits.len() - pos, 1int, st[pos].len() - k, 1int, 0int,
    when 0 <= pos < digits.len() && st.len() == digits.len() + 1
{
    if !(0 <= k < st[pos].len()) {
        Seq::empty()
    } else {
        word_lines(st, wr, sr, digits, src, prefix, pos, k, 0) + entry_lines(
            st,
            wr,
            sr,
            digits,
            src,
            prefix,
            pos,
            k + 1,
        )
    }
}

/// The lines contributed by the words of entry `st[pos][k]` from word index
/// `m` on: each word is appended to the prefix and enumeration continues at
/// the position where that word ends.
pub open spec fn word_lines(
    st: OccTable,
    wr: Seq<bool>,
    sr: Seq<bool>,
    digits: Seq<usize>,
    src: Seq<char>,
    prefix: Seq<Seq<char>>,
    pos: int,
    k: int,
    m: int,
) -> Seq<Seq<char>>
    decreases digits.len() - pos, 1int, st[pos].len() - k, 0int, st[pos][k].1.len() - m,
    when 0 <= pos < digits.len() && st.len() == digits.len() + 1 && 0 <= k < st[pos].len()
{
    if !(0 <= m < st[pos][k].1.len()) {
        Seq::empty()
    } else {
        (if 1 <= st[pos][k].0 && pos + st[pos][k].0 <= digits.len() {
            emit_lines(
                st,
                wr,
                sr,
                digits,
                src,
                prefix.push(st[pos][k].1[m]),
                pos + st[pos][k].0,
                false,
            )
        } else {
            Seq::empty()
        }) + word_lines(st, wr, sr, digits, src, prefix, pos, k, m + 1)
    }
}

/// Everything the enumerator needs for one input sequence: the original
/// display string, the display string of each digit, the two reachability
/// tables and the start-indexed occurrence table.
struct AnswerCalcState {
    source_number: String,
    digits_str: Vec<String>,
    word_reach: Vec<bool>,
    skip_reach: Vec<bool>,
    occurrences: Vec<Vec<(usize, Vec<String>)>>,
    digits: Ghost<Seq<usize>>,
}

impl AnswerCalcState {
    /// Table lengths agree with the digit sequence, digit display strings
    /// are single display characters, and occurrence entries stay inside
    /// the sequence.
    spec fn wf(self) -> bool {
        let n = self.digits@.len() as int;
        &&& self.digits_str@.len() == n
        &&& self.occurrences.deep_view().len() == n + 1
        &&& self.word_reach@.len() == n + 1
        &&& self.skip_reach@.len() == n + 1
        &&& forall|j: int|
            0 <= j < n ==> valid_digit(#[trigger] self.digits@[j]) && self.digits_str@[j]@ == seq![
                digit_char(self.digits@[j]),
            ]
        &&& start_table_ok(self.occurrences.deep_view())
    }

    /// The lines the enumerator emits from `pos` given already-chosen tokens.
    spec fn lines_from(self, prefix: Seq<Seq<char>>, pos: int, cfs: bool) -> Seq<Seq<char>> {
        emit_lines(
            self.occurrences.deep_view(),
            self.word_reach@,
            self.skip_reach@,
            self.digits@,
            self.source_number@,
            prefix,
            pos,
            cfs,
        )
    }
}

/// Backtracking enumerator: appends to `out` one formatted line for every
/// decomposition of the digit suffix starting at `current_pos`, with the
/// tokens in `buf` as the already-fixed beginning.  `is_last_digit` records
/// whether the token just taken was a skipped digit, so that two digits are
/// never skipped in a row.
fn print_answers(
    state: &AnswerCalcState,
    current_pos: usize,
    is_last_digit: bool,
    buf: &mut Vec<String>,
    out: &mut Vec<String>,
)
    requires
        state.wf(),
        current_pos <= state.digits@.len(),
    ensures
        final(buf)@ == old(buf)@,
        final(out).deep_view() == old(out).deep_view() + state.lines_from(
            old(buf).deep_view(),
            current_pos as int,
            is_last_digit,
        ),
    decreases state.digits@.len() - current_pos,
{
    let ghost st = state.occurrences.deep_view();
    let ghost base = out.deep_view();
    let ghost prefix = buf.deep_view();
    let n = state.digits_str.len();
    if current_pos == n {
        let line = format_line(&state.source_number, buf);
        out.push(line);
        proof {
            assert(out.deep_view() =~= base + state.lines_from(prefix, current_pos as int, is_last_digit));
        }
        return ;
    }
    if state.word_reach[current_pos] {
        let row_len = state.occurrences[current_pos].len();
        proof {
            assert(st[current_pos as int] == state.occurrences@[current_pos as int].deep_view());
        }
        let mut k: usize = 0;
        while k < row_len
            invariant
                state.wf(),
                st == state.occurrences.deep_view(),
                n == state.digits@.len(),
                current_pos < n,
                state.word_reach@[current_pos as int],
                row_len == st[current_pos as int].len(),
                k <= row_len,
                buf@ == old(buf)@,
                prefix == buf.deep_view(),
                base + entry_lines(
                    st,
                    state.word_reach@,
                    state.skip_reach@,
                    state.digits@,
                    state.source_number@,
                    prefix,
                    current_pos as int,
                    0,
                ) == out.deep_view() + entry_lines(
                    st,
                    state.word_reach@,
                    state.skip_reach@,
                    state.digits@,
                    state.source_number@,
                    prefix,
                    current_pos as int,
                    k as int,
                ),
            decreases row_len - k,
        {
            proof {
                assert(st[current_pos as int][k as int] == state.occurrences@[
                    current_pos as int
                ]@[k as int].deep_view());
            }
            let ghost entry = st[current_pos as int][k as int];
            let l = state.occurrences[current_pos][k].0;
            let word_count = state.occurrences[current_pos][k].1.len();
            proof {
                assert(entry.0 == l && entry.1.len() == word_count);
                assert(1 <= l && current_pos + l < st.len());
            }
            let mut m: usize = 0;
            while m < word_count
                invariant
                    state.wf(),
                    st == state.occurrences.deep_view(),
                    n == state.digits@.len(),
                    current_pos < n,
                    k < row_len,
                    row_len == st[current_pos as int].len(),
                    entry == st[current_pos as int][k as int],
                    l == entry.0,
                    word_count == entry.1.len(),
                    1 <= l && current_pos + l < st.len(),
                    m <= word_count,
                    buf@ == old(buf)@,
                    prefix == buf.deep_view(),
                    base + entry_lines(
                        st,
                        state.word_reach@,
                        state.skip_reach@,
                        state.digits@,
                        state.source_number@,
                        prefix,
                        current_pos as int,
                        0,
                    ) == out.deep_view() + word_lines(
                        st,
                        state.word_reach@,
                        state.skip_reach@,
                        state.digits@,
                        state.source_number@,
                        prefix,
                        current_pos as int,
                        k as int,
                        m as int,
                    ) + entry_lines(
                        st,
                        state.word_reach@,
                        state.skip_reach@,
                        state.digits@,
                        state.source_number@,
                        prefix,
                        current_pos as int,
                        k as int + 1,
                    ),
                decreases word_count - m,
            {
                proof {
                    assert(st[current_pos as int][k as int].1[m as int] == state.occurrences@[
                        current_pos as int
                    ]@[k as int].1@[m as int]@);
                }
                let w = state.occurrences[current_pos][k].1[m].clone();
                let ghost out_pre = out.deep_view();
                buf.push(w);
                proof {
                    assert(buf.deep_view() =~= prefix.push(entry.1[m as int]));
                }
                print_answers(state, current_pos + l, false, buf, out);
                let _ = buf.pop();
                proof {
                    assert(buf@ =~= old(buf)@);
                    assert(buf.deep_view() == prefix);
                    assert(word_lines(
                        st,
                        state.word_reach@,
                        state.skip_reach@,
                        state.digits@,
                        state.source_number@,
                        prefix,
                        current_pos as int,
                        k as int,
                        m as int,
                    ) == emit_lines(
                        st,
                        state.word_reach@,
                        state.skip_reach@,
                        state.digits@,
                        state.source_number@,
                        prefix.push(entry.1[m as int]),
                        current_pos + l,
                        false,
                    ) + word_lines(
                        st,
                        state.word_reach@,
                        state.skip_reach@,
                        state.digits@,
                        state.source_number@,
                        prefix,
                        current_pos as int,
                        k as int,
                        m as int + 1,
                    ));
                    vstd::seq_lib::lemma_concat_associative(
                        out_pre,
                        emit_lines(
                            st,
                            state.word_reach@,
                            state.skip_reach@,
                            state.digits@,
                            state.source_number@,
                            prefix.push(entry.1[m as int]),
                            current_pos + l,
                            false,
                        ),
                        word_lines(
                            st,
                            state.word_reach@,
                            state.skip_reach@,
                            state.digits@,
                            state.source_number@,
                            prefix,
                            current_pos as int,
                            k as int,
                            m as int + 1,
                        ) + entry_lines(
                            st,
                            state.word_reach@,
                            state.skip_reach@,
                            state.digits@,
                            state.source_number@,
                            prefix,
                            current_pos as int,
                            k as int + 1,
                        ),
                    );
                    assert(base + entry_lines(
                        st,
                        state.word_reach@,
                        state.skip_reach@,
                        state.digits@,
                        state.source_number@,
                        prefix,
                        current_pos as int,
                        0,
                    ) =~= out.deep_view() + word_lines(
                        st,
                        state.word_reach@,
                        state.skip_reach@,
                        state.digits@,
                        state.source_number@,
                        prefix,
                        current_pos as int,
                        k as int,
                        m as int + 1,
                    ) + entry_lines(
                        st,
                        state.word_reach@,
                        state.skip_reach@,
                        state.digits@,
                        state.source_number@,
                        prefix,
                        current_pos as int,
                        k as int + 1,
                    ));
                }
                m += 1;
            }
            proof {
                assert(word_lines(
                    st,
                    state.word_reach@,
                    state.skip_reach@,
                    state.digits@,
                    state.source_number@,
                    prefix,
                    current_pos as int,
                    k as int,
                    word_count as int,
                ) == Seq::<Seq<char>>::empty());
                assert(entry_lines(
                    st,
                    state.word_reach@,
                    state.skip_reach@,
                    state.digits@,
                    state.source_number@,
                    prefix,
                    current_pos as int,
                    k as int,
                ) == word_lines(
                    st,
                    state.word_reach@,
                    state.skip_reach@,
                    state.digits@,
                    state.source_number@,
                    prefix,
                    current_pos as int,
                    k as int,
                    0,
                ) + entry_lines(
                    st,
                    state.word_reach@,
                    state.skip_reach@,
                    state.digits@,
                    state.source_number@,
                    prefix,
                    current_pos as int,
                    k as int + 1,
                ));
                assert(base + entry_lines(
                    st,
                    state.word_reach@,
                    state.skip_reach@,
                    state.digits@,
                    state.source_number@,
                    prefix,
                    current_pos as int,
                    0,
                ) =~= out.deep_view() + entry_lines(
                    st,
                    state.word_reach@,
                    state.skip_reach@,
                    state.digits@,
                    state.source_number@,
                    prefix,
                    current_pos as int,
                    k as int + 1,
                ));
            }
            k += 1;
        }
        proof {
            assert(entry_lines(
                st,
                state.word_reach@,
                state.skip_reach@,
                state.digits@,
                state.source_number@,
                prefix,
                current_pos as int,
                row_len as int,
            ) == Seq::<Seq<char>>::empty());
            assert(out.deep_view() =~= base + state.lines_from(
                prefix,
                current_pos as int,
                is_last_digit,
            ));
        }
    } else if state.skip_reach[current_pos] && !is_last_digit {
        let w = state.digits_str[current_pos].clone();
        buf.push(w);
        proof {
            assert(buf.deep_view() =~= prefix.push(seq![digit_char(
                state.digits@[current_pos as int],
            )]));
        }
        print_answers(state, current_pos + 1, true, buf, out);
        let _ = buf.pop();
        proof {
            assert(buf@ =~= old(buf)@);
            assert(out.deep_view() == base + state.lines_from(
                prefix,
                current_pos as int,
                is_last_digit,
            ));
        }
    } else {
        proof {
            assert(state.lines_from(prefix, current_pos as int, is_last_digit) == Seq::<
                Seq<char>,
            >::empty());
            assert(out.deep_view() =~= base + state.lines_from(
                prefix,
                current_pos as int,
                is_last_digit,
            ));
        }
    }
}


/// Every entry collected by `row_entries_of_len` has the requested length
/// and comes from the row.
proof fn lemma_row_entries_member(row: OccRow, l: int, k: int)
    ensures
        forall|q: int|
            0 <= q < row_entries_of_len(row, l, k).len() ==> (#[trigger] row_entries_of_len(
                row,
                l,
                k,
            )[q]).0 as int == l && exists|b: int|
                0 <= b < row.len() && row[b] == row_entries_of_len(row, l, k)[q],
    decreases row.len() - k,
{
    if 0 <= k < row.len() {
        lemma_row_entries_member(row, l, k + 1);
        assert forall|q: int| 0 <= q < row_entries_of_len(row, l, k).len() implies (
        #[trigger] row_entries_of_len(row, l, k)[q]).0 as int == l && exists|b: int|
            0 <= b < row.len() && row[b] == row_entries_of_len(row, l, k)[q] by {
            if row[k].0 as int == l {
                if q == 0 {
                    assert(row_entries_of_len(row, l, k)[0] == row[k]);
                } else {
                    assert(row_entries_of_len(row, l, k)[q] == row_entries_of_len(
                        row,
                        l,
                        k + 1,
                    )[q - 1]);
                }
            } else {
                assert(row_entries_of_len(row, l, k)[q] == row_entries_of_len(row, l, k + 1)[q]);
            }
        }
    }
}

/// If every occurrence length in the end-indexed table is positive, the
/// start-indexed table keeps every occurrence inside the sequence.
proof fn lemma_start_row_ok(t: OccTable, j: int, i: int)
    requires
        forall|a: int, b: int|
            0 <= a < t.len() && 0 <= b < t[a].len() ==> 1 <= (#[trigger] t[a][b]).0,
        j >= 0,
    ensures
        forall|q: int|
            0 <= q < start_row(t, j, i).len() ==> 1 <= (#[trigger] start_row(t, j, i)[q]).0 && j
                + start_row(t, j, i)[q].0 < t.len(),
    decreases t.len() - i,
{
    if 0 <= i < t.len() {
        lemma_row_entries_member(t[i], i - j, 0);
        lemma_start_row_ok(t, j, i + 1);
        let head = row_entries_of_len(t[i], i - j, 0);
        assert forall|q: int| 0 <= q < start_row(t, j, i).len() implies 1 <= (
        #[trigger] start_row(t, j, i)[q]).0 && j + start_row(t, j, i)[q].0 < t.len() by {
            if q < head.len() {
                assert(start_row(t, j, i)[q] == head[q]);
                let b = choose|b: int| 0 <= b < t[i].len() && t[i][b] == head[q];
                assert(1 <= t[i][b].0);
            } else {
                assert(start_row(t, j, i)[q] == start_row(t, j, i + 1)[q - head.len()]);
            }
        }
    }
}

/// The start-indexed table built from a sound end-indexed occurrence table
/// satisfies the structural bounds the reachability pass needs.
proof fn lemma_by_start_ok(t: OccTable)
    requires
        t.len() >= 1,
        forall|a: int, b: int|
            0 <= a < t.len() && 0 <= b < t[a].len() ==> 1 <= (#[trigger] t[a][b]).0,
    ensures
        start_table_ok(spec_by_start(t)),
{
    assert forall|j: int, k: int|
        0 <= j < spec_by_start(t).len() && 0 <= k < spec_by_start(t)[j].len() implies 1 <= (
    #[trigger] spec_by_start(t)[j][k]).0 && j + spec_by_start(t)[j][k].0 < spec_by_start(
        t,
    ).len() by {
        lemma_start_row_ok(t, j, j + 1);
        assert(spec_by_start(t)[j] == start_row(t, j, j + 1));
    }
}

/// Everything `process_sequence` returns, as a function of the automaton,
/// the digit sequence and its display string: no lines for an empty input,
/// otherwise the enumeration over the scanned occurrence table and its
/// reachability classification.
pub open spec fn spec_process(t: crate::trie::Trie, s: Seq<usize>, src: Seq<char>) -> Seq<
    Seq<char>,
> {
    if s.len() == 0 {
        Seq::empty()
    } else {
        let st = spec_by_start(t.spec_occurrences(s));
        let wr = Seq::new(s.len() + 1, |i: int| spec_wr(st, i));
        let sr = Seq::new(s.len() + 1, |i: int| spec_sr(st, i));
        emit_lines(st, wr, sr, s, src, Seq::empty(), 0, false)
    }
}

/// Decomposes one digit sequence against the automaton and returns one
/// formatted line per decomposition: `"<display>: <token> <token> ..."`,
/// word branches before skip branches, occurrences shortest word first.
///
/// An input of length zero yields no decomposition at all: there is no
/// token sequence covering it, so no line is emitted.
pub fn process_sequence(trie: &crate::trie::Trie, digits: &[usize], source_number: String) -> (out:
    Vec<String>)
    requires
        trie.wf(),
        forall|k: int| 0 <= k < digits@.len() ==> valid_digit(#[trigger] digits@[k]),
    ensures
        out.deep_view() == spec_process(*trie, digits@, source_number@),
        digits@.len() == 0 ==> out@.len() == 0,
        forall|q: int|
            0 <= q < out@.len() ==> line_ok(
                trie.dict(),
                digits@,
                source_number@,
                Seq::empty(),
                0,
                false,
                #[trigger] out.deep_view()[q],
            ),
        trie.links_built() ==> forall|q: int|
            0 <= q < out@.len() ==> line_ok_dict(
                trie.dict(),
                digits@,
                source_number@,
                Seq::empty(),
                0,
                false,
                #[trigger] out.deep_view()[q],
            ),
        trie.links_built() && digits@.len() > 0 ==> forall|toks: Seq<Seq<char>>|
            #[trigger] dict_cover(trie.dict(), digits@, 0, toks, false) ==> out.deep_view().contains(
                line_of(source_number@, toks),
            ),
{
    if digits.len() == 0 {
        let out: Vec<String> = Vec::new();
        proof {
            assert(out.deep_view() =~= spec_process(*trie, digits@, source_number@));
        }
        return out;
    }
    let n = digits.len();
    let end_occ = trie.find_all_occurrences(digits);
    let ghost end_t = end_occ.deep_view();
    let start_occ = occurrences_by_start(&end_occ);
    let ghost st = start_occ.deep_view();
    proof {
        assert forall|a: int, b: int|
            0 <= a < end_t.len() && 0 <= b < end_t[a].len() implies 1 <= (
        #[trigger] end_t[a][b]).0 by {
            if a == 0 {
                assert(end_t[0].len() == 0);
            } else {
                assert(trie.occ_entry_ok(digits@, a, end_t[a][b]));
            }
        }
        lemma_by_start_ok(end_t);
    }
    let (word_reach, skip_reach) = compute_reachability(&start_occ);
    let mut digits_str: Vec<String> = Vec::new();
    let mut j: usize = 0;
    while j < n
        invariant
            n == digits@.len(),
            forall|k: int| 0 <= k < digits@.len() ==> valid_digit(#[trigger] digits@[k]),
            j <= n,
            digits_str@.len() == j,
            forall|k: int| 0 <= k < j ==> (#[trigger] digits_str@[k])@ == seq![
                digit_char(digits@[k]),
            ],
        decreases n - j,
    {
        let ds = digit_str(digits[j]);
        digits_str.push(String::from_str(ds));
        j += 1;
    }
    let state = AnswerCalcState {
        source_number,
        digits_str,
        word_reach,
        skip_reach,
        occurrences: start_occ,
        digits: Ghost(digits@),
    };
    let mut buf: Vec<String> = Vec::new();
    let mut out: Vec<String> = Vec::new();
    proof {
        assert(state.wf());
    }
    print_answers(&state, 0, false, &mut buf, &mut out);
    proof {
        let wr_seq = Seq::new(digits@.len() + 1, |i: int| spec_wr(st, i));
        let sr_seq = Seq::new(digits@.len() + 1, |i: int| spec_sr(st, i));
        assert(state.word_reach@ =~= wr_seq);
        assert(state.skip_reach@ =~= sr_seq);
        assert(buf.deep_view() =~= Seq::<Seq<char>>::empty());
        assert(out.deep_view() =~= spec_process(*trie, digits@, source_number@));
        lemma_process_sound(*trie, digits@, source_number@);
        if trie.links_built() {
            lemma_process_sound_dict(*trie, digits@, source_number@);
            assert forall|toks: Seq<Seq<char>>|
                #[trigger] dict_cover(trie.dict(), digits@, 0, toks, false)
                implies out.deep_view().contains(line_of(source_number@, toks)) by {
                lemma_process_complete_dict(*trie, digits@, source_number@, toks);
            }
        }
    }
    out
}


/// `toks` is a valid decomposition of `s` from position `i` on: each token
/// is either a dictionary word whose digit encoding is the next run of `s`,
/// or the display of the single next digit, where skipped digits are never
/// adjacent (`prev_skip` carries that state in) and the final digit is
/// never a lone skipped digit.
pub open spec fn valid_cover(
    dict: Seq<(Seq<usize>, Seq<char>)>,
    s: Seq<usize>,
    i: int,
    toks: Seq<Seq<char>>,
    prev_skip: bool,
) -> bool
    decreases toks.len(),
{
    if i == s.len() {
        toks.len() == 0
    } else if toks.len() == 0 {
        false
    } else {
        ||| exists|l: int|
            1 <= l <= s.len() - i && #[trigger] dict.contains((s.subrange(i, i + l), toks[0]))
                && valid_cover(dict, s, i + l, toks.drop_first(), false)
        ||| (!prev_skip && i + 1 < s.len() && toks[0] == seq![digit_char(s[i])] && valid_cover(
            dict,
            s,
            i + 1,
            toks.drop_first(),
            true,
        ))
    }
}

/// `line` extends the already-chosen tokens in `prefix` by a valid
/// decomposition of the rest of the sequence.
pub open spec fn line_ok(
    dict: Seq<(Seq<usize>, Seq<char>)>,
    s: Seq<usize>,
    src: Seq<char>,
    prefix: Seq<Seq<char>>,
    pos: int,
    cfs: bool,
    line: Seq<char>,
) -> bool {
    exists|toks: Seq<Seq<char>>|
        line == line_of(src, prefix + toks) && #[trigger] valid_cover(dict, s, pos, toks, cfs)
}

/// Soundness of a start-indexed occurrence table against a dictionary:
/// every entry at position `j` reports words whose encoding is exactly the
/// next `e.0` digits of `s`.
pub open spec fn start_table_sound(
    st: OccTable,
    dict: Seq<(Seq<usize>, Seq<char>)>,
    s: Seq<usize>,
) -> bool {
    &&& st.len() == s.len() + 1
    &&& forall|j: int, k: int|
        0 <= j < st.len() && 0 <= k < st[j].len() ==> {
            let e = #[trigger] st[j][k];
            &&& 1 <= e.0
            &&& j + e.0 <= s.len()
            &&& forall|m: int|
                0 <= m < e.1.len() ==> dict.contains((s.subrange(j, j + e.0), #[trigger] e.1[m]))
        }
}

/// `line` extends the already-chosen tokens in `prefix` by a decomposition
/// the occurrence table supports.
pub open spec fn line_ok_table(
    st: OccTable,
    s: Seq<usize>,
    src: Seq<char>,
    prefix: Seq<Seq<char>>,
    pos: int,
    cfs: bool,
    line: Seq<char>,
) -> bool {
    exists|toks: Seq<Seq<char>>|
        line == line_of(src, prefix + toks) && #[trigger] table_cover(st, s, pos, toks, cfs)
}

/// Skip bits are sound: a skip-marked position is never the last digit and
/// offers no occurrence at all.
pub open spec fn sr_ok(sr: Seq<bool>, st: OccTable, n: int) -> bool {
    forall|i: int| 0 <= i < sr.len() && #[trigger] sr[i] ==> i + 1 < n && st[i].len() == 0
}

/// Every line emitted from `pos` extends the prefix by a valid
/// decomposition of the rest of the sequence.
proof fn lemma_emit_lines_sound(
    st: OccTable,
    wr: Seq<bool>,
    sr: Seq<bool>,
    digits: Seq<usize>,
    src: Seq<char>,
    prefix: Seq<Seq<char>>,
    pos: int,
    cfs: bool,
)
    requires
        0 <= pos <= digits.len(),
        st.len() == digits.len() + 1,
        wr.len() == digits.len() + 1,
        sr.len() == digits.len() + 1,
        start_table_ok(st),
        sr_ok(sr, st, digits.len() as int),
    ensures
        forall|q: int|
            0 <= q < emit_lines(st, wr, sr, digits, src, prefix, pos, cfs).len() ==> line_ok_table(
                st,
                digits,
                src,
                prefix,
                pos,
                cfs,
                #[trigger] emit_lines(st, wr, sr, digits, src, prefix, pos, cfs)[q],
            ),
    decreases digits.len() - pos, 2int, 0int, 1int, 0int,
{
    let lines = emit_lines(st, wr, sr, digits, src, prefix, pos, cfs);
    if pos == digits.len() {
        assert forall|q: int| 0 <= q < lines.len() implies line_ok_table(
            st,
            digits,
            src,
            prefix,
            pos,
            cfs,
            lines[q],
        ) by {
            let toks = Seq::<Seq<char>>::empty();
            assert(prefix + toks =~= prefix);
            assert(lines[q] == line_of(src, prefix + toks));
            assert(table_cover(st, digits, pos, toks, cfs));
        }
    } else if wr[pos] {
        lemma_entry_lines_sound(st, wr, sr, digits, src, prefix, pos, 0, cfs);
        assert forall|q: int| 0 <= q < lines.len() implies line_ok_table(
            st,
            digits,
            src,
            prefix,
            pos,
            cfs,
            lines[q],
        ) by {
            assert(lines[q] == entry_lines(st, wr, sr, digits, src, prefix, pos, 0)[q]);
        }
    } else if sr[pos] && !cfs {
        let dt = seq![digit_char(digits[pos])];
        lemma_emit_lines_sound(st, wr, sr, digits, src, prefix.push(dt), pos + 1, true);
        let inner = emit_lines(st, wr, sr, digits, src, prefix.push(dt), pos + 1, true);
        assert forall|q: int| 0 <= q < lines.len() implies line_ok_table(
            st,
            digits,
            src,
            prefix,
            pos,
            cfs,
            lines[q],
        ) by {
            assert(lines[q] == inner[q]);
            assert(line_ok_table(st, digits, src, prefix.push(dt), pos + 1, true, inner[q]));
            let toks0 = choose|toks0: Seq<Seq<char>>|
                inner[q] == line_of(src, prefix.push(dt) + toks0) && #[trigger] table_cover(
                    st,
                    digits,
                    pos + 1,
                    toks0,
                    true,
                );
            let toks = seq![dt] + toks0;
            assert(prefix + toks =~= prefix.push(dt) + toks0);
            assert(toks.drop_first() =~= toks0);
            assert(toks[0] == dt);
            assert(pos + 1 < digits.len());
            assert(table_cover(st, digits, pos, toks, cfs));
            assert(lines[q] == line_of(src, prefix + toks));
        }
    }
}

/// Every line contributed by the entries of `st[pos]` from `k` on extends
/// the prefix by a valid decomposition.
proof fn lemma_entry_lines_sound(
    st: OccTable,
    wr: Seq<bool>,
    sr: Seq<bool>,
    digits: Seq<usize>,
    src: Seq<char>,
    prefix: Seq<Seq<char>>,
    pos: int,
    k: int,
    cfs: bool,
)
    requires
        0 <= pos < digits.len(),
        st.len() == digits.len() + 1,
        wr.len() == digits.len() + 1,
        sr.len() == digits.len() + 1,
        start_table_ok(st),
        sr_ok(sr, st, digits.len() as int),
    ensures
        forall|q: int|
            0 <= q < entry_lines(st, wr, sr, digits, src, prefix, pos, k).len() ==> line_ok_table(
                st,
                digits,
                src,
                prefix,
                pos,
                cfs,
                #[trigger] entry_lines(st, wr, sr, digits, src, prefix, pos, k)[q],
            ),
    decreases digits.len() - pos, 1int, st[pos].len() - k, 1int, 0int,
{
    if 0 <= k < st[pos].len() {
        lemma_word_lines_sound(st, wr, sr, digits, src, prefix, pos, k, 0, cfs);
        lemma_entry_lines_sound(st, wr, sr, digits, src, prefix, pos, k + 1, cfs);
        let head = word_lines(st, wr, sr, digits, src, prefix, pos, k, 0);
        let lines = entry_lines(st, wr, sr, digits, src, prefix, pos, k);
        assert forall|q: int| 0 <= q < lines.len() implies line_ok_table(
            st,
            digits,
            src,
            prefix,
            pos,
            cfs,
            lines[q],
        ) by {
            if q < head.len() {
                assert(lines[q] == head[q]);
            } else {
                assert(lines[q] == entry_lines(st, wr, sr, digits, src, prefix, pos, k + 1)[q
                    - head.len()]);
            }
        }
    }
}

/// Every line contributed by the words of entry `st[pos][k]` from `m` on
/// extends the prefix by a valid decomposition.
proof fn lemma_word_lines_sound(
    st: OccTable,
    wr: Seq<bool>,
    sr: Seq<bool>,
    digits: Seq<usize>,
    src: Seq<char>,
    prefix: Seq<Seq<char>>,
    pos: int,
    k: int,
    m: int,
    cfs: bool,
)
    requires
        0 <= pos < digits.len(),
        0 <= k < st[pos].len(),
        st.len() == digits.len() + 1,
        wr.len() == digits.len() + 1,
        sr.len() == digits.len() + 1,
        start_table_ok(st),
        sr_ok(sr, st, digits.len() as int),
    ensures
        forall|q: int|
            0 <= q < word_lines(st, wr, sr, digits, src, prefix, pos, k, m).len() ==> line_ok_table(
                st,
                digits,
                src,
                prefix,
                pos,
                cfs,
                #[trigger] word_lines(st, wr, sr, digits, src, prefix, pos, k, m)[q],
            ),
    decreases digits.len() - pos, 1int, st[pos].len() - k, 0int, st[pos][k].1.len() - m,
{
    let e = st[pos][k];
    if 0 <= m < e.1.len() {
        let w = e.1[m];
        let l = e.0 as int;
        assert(1 <= l && pos + l <= digits.len());
        lemma_emit_lines_sound(st, wr, sr, digits, src, prefix.push(w), pos + l, false);
        lemma_word_lines_sound(st, wr, sr, digits, src, prefix, pos, k, m + 1, cfs);
        let head = emit_lines(st, wr, sr, digits, src, prefix.push(w), pos + l, false);
        let lines = word_lines(st, wr, sr, digits, src, prefix, pos, k, m);
        assert forall|q: int| 0 <= q < lines.len() implies line_ok_table(
            st,
            digits,
            src,
            prefix,
            pos,
            cfs,
            lines[q],
        ) by {
            if q < head.len() {
                assert(lines[q] == head[q]);
                assert(line_ok_table(st, digits, src, prefix.push(w), pos + l, false, head[q]));
                let toks0 = choose|toks0: Seq<Seq<char>>|
                    head[q] == line_of(src, prefix.push(w) + toks0) && #[trigger] table_cover(
                        st,
                        digits,
                        pos + l,
                        toks0,
                        false,
                    );
                let toks = seq![w] + toks0;
                assert(prefix + toks =~= prefix.push(w) + toks0);
                assert(toks.drop_first() =~= toks0);
                assert(toks[0] == w);
                assert(0 <= k < st[pos].len() && 0 <= m < st[pos][k].1.len() && st[pos][k].1[m]
                    == toks[0] && 1 <= st[pos][k].0 && pos + st[pos][k].0 <= digits.len()
                    && table_cover(st, digits, pos + st[pos][k].0, toks.drop_first(), false));
                assert(table_cover(st, digits, pos, toks, cfs));
                assert(lines[q] == line_of(src, prefix + toks));
            } else {
                assert(lines[q] == word_lines(st, wr, sr, digits, src, prefix, pos, k, m + 1)[q
                    - head.len()]);
            }
        }
    }
}

/// The start-indexed table built from a sound end-indexed table is sound:
/// the entry lengths translate between end and start indexing.
proof fn lemma_by_start_sound(
    t: OccTable,
    dict: Seq<(Seq<usize>, Seq<char>)>,
    s: Seq<usize>,
    j: int,
    i: int,
)
    requires
        t.len() == s.len() + 1,
        0 <= j < t.len(),
        forall|a: int, b: int|
            0 <= a < t.len() && 0 <= b < t[a].len() ==> {
                let e = #[trigger] t[a][b];
                &&& 1 <= e.0 <= a
                &&& forall|m: int|
                    0 <= m < e.1.len() ==> dict.contains((s.subrange(a - e.0, a), #[trigger] e.1[m]))
            },
    ensures
        forall|q: int|
            0 <= q < start_row(t, j, i).len() ==> {
                let e = #[trigger] start_row(t, j, i)[q];
                &&& 1 <= e.0
                &&& j + e.0 <= s.len()
                &&& forall|m: int|
                    0 <= m < e.1.len() ==> dict.contains((s.subrange(j, j + e.0), #[trigger] e.1[m]))
            },
    decreases t.len() - i,
{
    if 0 <= i < t.len() {
        lemma_row_entries_member(t[i], i - j, 0);
        lemma_by_start_sound(t, dict, s, j, i + 1);
        let head = row_entries_of_len(t[i], i - j, 0);
        assert forall|q: int| 0 <= q < start_row(t, j, i).len() implies {
            let e = #[trigger] start_row(t, j, i)[q];
            &&& 1 <= e.0
            &&& j + e.0 <= s.len()
            &&& forall|m: int|
                0 <= m < e.1.len() ==> dict.contains((s.subrange(j, j + e.0), #[trigger] e.1[m]))
        } by {
            if q < head.len() {
                assert(start_row(t, j, i)[q] == head[q]);
                let b = choose|b: int| 0 <= b < t[i].len() && t[i][b] == head[q];
                assert(1 <= t[i][b].0 <= i);
                assert(head[q].0 as int == i - j);
            } else {
                assert(start_row(t, j, i)[q] == start_row(t, j, i + 1)[q - head.len()]);
            }
        }
    }
}

/// Soundness of the whole decomposition pipeline: every emitted line is the
/// display string followed by the tokens of a valid decomposition of the
/// input into dictionary words and isolated un-encoded digits, with no two
/// skipped digits adjacent and no trailing skipped digit.
pub proof fn lemma_process_sound(t: crate::trie::Trie, s: Seq<usize>, src: Seq<char>)
    requires
        t.wf(),
        forall|k: int| 0 <= k < s.len() ==> crate::valid_digit(#[trigger] s[k]),
    ensures
        forall|q: int|
            0 <= q < spec_process(t, s, src).len() ==> line_ok(
                t.dict(),
                s,
                src,
                Seq::empty(),
                0,
                false,
                #[trigger] spec_process(t, s, src)[q],
            ),
{
    if s.len() == 0 {
    } else {
        let end_t = t.spec_occurrences(s);
        let st = spec_by_start(end_t);
        let wr = Seq::new(s.len() + 1, |i: int| spec_wr(st, i));
        let sr = Seq::new(s.len() + 1, |i: int| spec_sr(st, i));
        t.lemma_occurrences_sound(s);
        assert forall|a: int, b: int| 0 <= a < end_t.len() && 0 <= b < end_t[a].len() implies {
            let e = #[trigger] end_t[a][b];
            &&& 1 <= e.0 <= a
            &&& forall|m: int|
                0 <= m < e.1.len() ==> t.dict().contains(
                    (s.subrange(a - e.0, a), #[trigger] e.1[m]),
                )
        } by {
            if a == 0 {
                assert(end_t[0].len() == 0);
            } else {
                assert(t.occ_entry_ok(s, a, end_t[a][b]));
            }
        }
        assert(start_table_sound(st, t.dict(), s)) by {
            assert forall|j: int, k: int| 0 <= j < st.len() && 0 <= k < st[j].len() implies {
                let e = #[trigger] st[j][k];
                &&& 1 <= e.0
                &&& j + e.0 <= s.len()
                &&& forall|m: int|
                    0 <= m < e.1.len() ==> t.dict().contains(
                        (s.subrange(j, j + e.0), #[trigger] e.1[m]),
                    )
            } by {
                lemma_by_start_sound(end_t, t.dict(), s, j, j + 1);
                assert(st[j] == start_row(end_t, j, j + 1));
            }
        }
        assert(sr_ok(sr, st, s.len() as int));
        assert(start_table_ok(st));
        lemma_emit_lines_sound(st, wr, sr, s, src, Seq::empty(), 0, false);
        assert forall|q: int| 0 <= q < spec_process(t, s, src).len() implies line_ok(
            t.dict(),
            s,
            src,
            Seq::empty(),
            0,
            false,
            #[trigger] spec_process(t, s, src)[q],
        ) by {
            let line = spec_process(t, s, src)[q];
            assert(line == emit_lines(st, wr, sr, s, src, Seq::empty(), 0, false)[q]);
            assert(line_ok_table(st, s, src, Seq::empty(), 0, false, line));
            let toks = choose|toks: Seq<Seq<char>>|
                line == line_of(src, Seq::empty() + toks) && #[trigger] table_cover(
                    st,
                    s,
                    0,
                    toks,
                    false,
                );
            lemma_table_cover_valid(st, t.dict(), s, 0, toks, false);
        }
    }
}

/// A decomposition the occurrence table supports is a valid decomposition
/// against the dictionary the table is sound for.
proof fn lemma_table_cover_valid(
    st: OccTable,
    dict: Seq<(Seq<usize>, Seq<char>)>,
    s: Seq<usize>,
    pos: int,
    toks: Seq<Seq<char>>,
    cfs: bool,
)
    requires
        start_table_sound(st, dict, s),
        0 <= pos <= s.len(),
        table_cover(st, s, pos, toks, cfs),
    ensures
        valid_cover(dict, s, pos, toks, cfs),
    decreases toks.len(),
{
    if pos < s.len() {
        if exists|k: int, m: int|
            0 <= k < st[pos].len() && 0 <= m < st[pos][k].1.len() && (#[trigger] st[pos][k].1[m])
                == toks[0] && 1 <= st[pos][k].0 && pos + st[pos][k].0 <= s.len() && table_cover(
                st,
                s,
                pos + st[pos][k].0,
                toks.drop_first(),
                false,
            ) {
            let (k, m): (int, int) = choose|k: int, m: int|
                0 <= k < st[pos].len() && 0 <= m < st[pos][k].1.len() && (#[trigger] st[pos][k].1[
                    m
                ]) == toks[0] && 1 <= st[pos][k].0 && pos + st[pos][k].0 <= s.len() && table_cover(
                    st,
                    s,
                    pos + st[pos][k].0,
                    toks.drop_first(),
                    false,
                );
            let l = st[pos][k].0 as int;
            lemma_table_cover_valid(st, dict, s, pos + l, toks.drop_first(), false);
            assert(dict.contains((s.subrange(pos, pos + l), toks[0])));
            assert(1 <= l <= s.len() - pos && dict.contains((s.subrange(pos, pos + l), toks[0]))
                && valid_cover(dict, s, pos + l, toks.drop_first(), false));
        } else {
            lemma_table_cover_valid(st, dict, s, pos + 1, toks.drop_first(), true);
        }
    }
}


/// `toks` decomposes `s` from position `pos` on, reading word tokens out of
/// the start-indexed occurrence table `st`: each word token is one of the
/// words of an occurrence entry at its position, each skipped digit stands
/// at a position where no occurrence starts at all, skips are never
/// adjacent (`cfs` carries that state), and the final digit is never a lone
/// skipped digit.
pub open spec fn table_cover(
    st: OccTable,
    digits: Seq<usize>,
    pos: int,
    toks: Seq<Seq<char>>,
    cfs: bool,
) -> bool
    decreases toks.len(),
{
    if pos == digits.len() {
        toks.len() == 0
    } else if toks.len() == 0 {
        false
    } else {
        ||| exists|k: int, m: int|
            0 <= k < st[pos].len() && 0 <= m < st[pos][k].1.len() && (#[trigger] st[pos][k].1[m])
                == toks[0] && 1 <= st[pos][k].0 && pos + st[pos][k].0 <= digits.len()
                && table_cover(st, digits, pos + st[pos][k].0, toks.drop_first(), false)
        ||| (!cfs && st[pos].len() == 0 && pos + 1 < digits.len() && toks[0] == seq![
            digit_char(digits[pos]),
        ] && table_cover(st, digits, pos + 1, toks.drop_first(), true))
    }
}

/// A position from which a table decomposition starts is word-reachable
/// when it starts with a word and skip-reachable when it starts with a skip.
proof fn lemma_cover_reachable(
    st: OccTable,
    digits: Seq<usize>,
    pos: int,
    toks: Seq<Seq<char>>,
    cfs: bool,
)
    requires
        st.len() == digits.len() + 1,
        0 <= pos <= digits.len(),
        table_cover(st, digits, pos, toks, cfs),
    ensures
        pos == digits.len() || spec_wr(st, pos) || (!cfs && spec_sr(st, pos)),
    decreases toks.len(),
{
    if pos < digits.len() {
        if exists|k: int, m: int|
            0 <= k < st[pos].len() && 0 <= m < st[pos][k].1.len() && (#[trigger] st[pos][k].1[m])
                == toks[0] && 1 <= st[pos][k].0 && pos + st[pos][k].0 <= digits.len()
                && table_cover(st, digits, pos + st[pos][k].0, toks.drop_first(), false) {
            let (k, m): (int, int) = choose|k: int, m: int|
                0 <= k < st[pos].len() && 0 <= m < st[pos][k].1.len() && (#[trigger] st[pos][k].1[
                    m
                ]) == toks[0] && 1 <= st[pos][k].0 && pos + st[pos][k].0 <= digits.len()
                    && table_cover(st, digits, pos + st[pos][k].0, toks.drop_first(), false);
            let l = st[pos][k].0 as int;
            lemma_cover_reachable(st, digits, pos + l, toks.drop_first(), false);
            assert(spec_wr(st, pos)) by {
                if pos + l == digits.len() {
                    assert(spec_wr(st, pos + l));
                }
                assert(1 <= (st[pos][k]).0 && pos + st[pos][k].0 < st.len() && (spec_wr(
                    st,
                    pos + st[pos][k].0,
                ) || spec_sr(st, pos + st[pos][k].0)));
            }
        } else {
            lemma_cover_reachable(st, digits, pos + 1, toks.drop_first(), true);
            assert(toks.drop_first().len() > 0) by {
                if toks.drop_first().len() == 0 {
                    assert(!table_cover(st, digits, pos + 1, toks.drop_first(), true));
                }
            }
            assert(spec_wr(st, pos + 1));
            assert(spec_sr(st, pos));
        }
    }
}

/// Concatenation keeps members of its left part.
proof fn lemma_contains_left<A>(a: Seq<A>, b: Seq<A>, x: A)
    requires
        a.contains(x),
    ensures
        (a + b).contains(x),
{
    let idx = choose|idx: int| 0 <= idx < a.len() && a[idx] == x;
    assert((a + b)[idx] == x);
}

/// Concatenation keeps members of its right part.
proof fn lemma_contains_right<A>(a: Seq<A>, b: Seq<A>, x: A)
    requires
        b.contains(x),
    ensures
        (a + b).contains(x),
{
    let idx = choose|idx: int| 0 <= idx < b.len() && b[idx] == x;
    assert((a + b)[a.len() + idx] == x);
}

/// A line contributed by entries from index `k` on is contributed by the
/// entries from any earlier index on.
proof fn lemma_entry_lines_super(
    st: OccTable,
    wr: Seq<bool>,
    sr: Seq<bool>,
    digits: Seq<usize>,
    src: Seq<char>,
    prefix: Seq<Seq<char>>,
    pos: int,
    kk: int,
    k: int,
    x: Seq<char>,
)
    requires
        0 <= pos < digits.len(),
        st.len() == digits.len() + 1,
        0 <= kk <= k,
        entry_lines(st, wr, sr, digits, src, prefix, pos, k).contains(x),
    ensures
        entry_lines(st, wr, sr, digits, src, prefix, pos, kk).contains(x),
    decreases k - kk,
{
    if kk < k {
        lemma_entry_lines_super(st, wr, sr, digits, src, prefix, pos, kk + 1, k, x);
        assert(0 <= kk < st[pos].len()) by {
            if !(kk < st[pos].len()) {
                assert(entry_lines(st, wr, sr, digits, src, prefix, pos, k).len() == 0) by {
                    lemma_entry_lines_empty(st, wr, sr, digits, src, prefix, pos, kk, k);
                }
            }
        }
        lemma_contains_right(
            word_lines(st, wr, sr, digits, src, prefix, pos, kk, 0),
            entry_lines(st, wr, sr, digits, src, prefix, pos, kk + 1),
            x,
        );
    }
}

/// Entries out of range contribute nothing.
proof fn lemma_entry_lines_empty(
    st: OccTable,
    wr: Seq<bool>,
    sr: Seq<bool>,
    digits: Seq<usize>,
    src: Seq<char>,
    prefix: Seq<Seq<char>>,
    pos: int,
    kk: int,
    k: int,
)
    requires
        0 <= pos < digits.len(),
        st.len() == digits.len() + 1,
        st[pos].len() <= kk <= k,
    ensures
        entry_lines(st, wr, sr, digits, src, prefix, pos, k).len() == 0,
    decreases k - kk,
{
    if kk < k {
        lemma_entry_lines_empty(st, wr, sr, digits, src, prefix, pos, kk + 1, k);
    }
}

/// A line contributed by the words of one entry from index `m` on is
/// contributed from any earlier index on.
proof fn lemma_word_lines_super(
    st: OccTable,
    wr: Seq<bool>,
    sr: Seq<bool>,
    digits: Seq<usize>,
    src: Seq<char>,
    prefix: Seq<Seq<char>>,
    pos: int,
    k: int,
    mm: int,
    m: int,
    x: Seq<char>,
)
    requires
        0 <= pos < digits.len(),
        st.len() == digits.len() + 1,
        0 <= k < st[pos].len(),
        0 <= mm <= m,
        word_lines(st, wr, sr, digits, src, prefix, pos, k, m).contains(x),
    ensures
        word_lines(st, wr, sr, digits, src, prefix, pos, k, mm).contains(x),
    decreases m - mm,
{
    if mm < m {
        lemma_word_lines_super(st, wr, sr, digits, src, prefix, pos, k, mm + 1, m, x);
        assert(0 <= mm < st[pos][k].1.len()) by {
            if !(mm < st[pos][k].1.len()) {
                lemma_word_lines_empty(st, wr, sr, digits, src, prefix, pos, k, mm, m);
            }
        }
        let head = if 1 <= st[pos][k].0 && pos + st[pos][k].0 <= digits.len() {
            emit_lines(
                st,
                wr,
                sr,
                digits,
                src,
                prefix.push(st[pos][k].1[mm]),
                pos + st[pos][k].0,
                false,
            )
        } else {
            Seq::empty()
        };
        lemma_contains_right(
            head,
            word_lines(st, wr, sr, digits, src, prefix, pos, k, mm + 1),
            x,
        );
    }
}

/// Word indices out of range contribute nothing.
proof fn lemma_word_lines_empty(
    st: OccTable,
    wr: Seq<bool>,
    sr: Seq<bool>,
    digits: Seq<usize>,
    src: Seq<char>,
    prefix: Seq<Seq<char>>,
    pos: int,
    k: int,
    mm: int,
    m: int,
)
    requires
        0 <= pos < digits.len(),
        st.len() == digits.len() + 1,
        0 <= k < st[pos].len(),
        st[pos][k].1.len() <= mm <= m,
    ensures
        word_lines(st, wr, sr, digits, src, prefix, pos, k, m).len() == 0,
    decreases m - mm,
{
    if mm < m {
        lemma_word_lines_empty(st, wr, sr, digits, src, prefix, pos, k, mm + 1, m);
    }
}

/// Every table decomposition's line is emitted: the enumerator misses
/// nothing the occurrence table supports.
proof fn lemma_emit_lines_complete(
    st: OccTable,
    wr: Seq<bool>,
    sr: Seq<bool>,
    digits: Seq<usize>,
    src: Seq<char>,
    prefix: Seq<Seq<char>>,
    pos: int,
    cfs: bool,
    toks: Seq<Seq<char>>,
)
    requires
        st.len() == digits.len() + 1,
        wr.len() == digits.len() + 1,
        sr.len() == digits.len() + 1,
        forall|i: int| 0 <= i < wr.len() ==> #[trigger] wr[i] == spec_wr(st, i),
        forall|i: int| 0 <= i < sr.len() ==> #[trigger] sr[i] == spec_sr(st, i),
        0 <= pos <= digits.len(),
        table_cover(st, digits, pos, toks, cfs),
    ensures
        emit_lines(st, wr, sr, digits, src, prefix, pos, cfs).contains(line_of(src, prefix + toks)),
    decreases toks.len(),
{
    if pos == digits.len() {
        assert(prefix + toks =~= prefix);
        assert(emit_lines(st, wr, sr, digits, src, prefix, pos, cfs)[0] == line_of(src, prefix));
    } else if exists|k: int, m: int|
        0 <= k < st[pos].len() && 0 <= m < st[pos][k].1.len() && (#[trigger] st[pos][k].1[m])
            == toks[0] && 1 <= st[pos][k].0 && pos + st[pos][k].0 <= digits.len() && table_cover(
            st,
            digits,
            pos + st[pos][k].0,
            toks.drop_first(),
            false,
        ) {
        let (k, m): (int, int) = choose|k: int, m: int|
            0 <= k < st[pos].len() && 0 <= m < st[pos][k].1.len() && (#[trigger] st[pos][k].1[m])
                == toks[0] && 1 <= st[pos][k].0 && pos + st[pos][k].0 <= digits.len()
                && table_cover(st, digits, pos + st[pos][k].0, toks.drop_first(), false);
        let l = st[pos][k].0 as int;
        let w = st[pos][k].1[m];
        let rest = toks.drop_first();
        lemma_cover_reachable(st, digits, pos + l, rest, false);
        assert(spec_wr(st, pos)) by {
            if pos + l == digits.len() {
                assert(spec_wr(st, pos + l));
            }
            assert(1 <= (st[pos][k]).0 && pos + st[pos][k].0 < st.len() && (spec_wr(
                st,
                pos + st[pos][k].0,
            ) || spec_sr(st, pos + st[pos][k].0)));
        }
        assert(wr[pos]);
        lemma_emit_lines_complete(st, wr, sr, digits, src, prefix.push(w), pos + l, false, rest);
        let line = line_of(src, prefix + toks);
        assert(prefix.push(w) + rest =~= prefix + toks) by {
            assert(toks =~= seq![toks[0]] + rest);
        }
        let head = emit_lines(st, wr, sr, digits, src, prefix.push(w), pos + l, false);
        assert(head.contains(line));
        lemma_contains_left(
            head,
            word_lines(st, wr, sr, digits, src, prefix, pos, k, m + 1),
            line,
        );
        assert(word_lines(st, wr, sr, digits, src, prefix, pos, k, m).contains(line));
        lemma_word_lines_super(st, wr, sr, digits, src, prefix, pos, k, 0, m, line);
        lemma_contains_left(
            word_lines(st, wr, sr, digits, src, prefix, pos, k, 0),
            entry_lines(st, wr, sr, digits, src, prefix, pos, k + 1),
            line,
        );
        assert(entry_lines(st, wr, sr, digits, src, prefix, pos, k).contains(line));
        lemma_entry_lines_super(st, wr, sr, digits, src, prefix, pos, 0, k, line);
        assert(emit_lines(st, wr, sr, digits, src, prefix, pos, cfs) == entry_lines(
            st,
            wr,
            sr,
            digits,
            src,
            prefix,
            pos,
            0,
        ));
    } else {
        let rest = toks.drop_first();
        let dt = seq![digit_char(digits[pos])];
        lemma_cover_reachable(st, digits, pos + 1, rest, true);
        assert(rest.len() > 0) by {
            if rest.len() == 0 {
                assert(!table_cover(st, digits, pos + 1, rest, true));
            }
        }
        assert(spec_sr(st, pos));
        assert(!spec_wr(st, pos)) by {
            if spec_wr(st, pos) {
                let k0 = choose|k0: int|
                    0 <= k0 < st[pos].len() && 1 <= (#[trigger] st[pos][k0]).0 && pos + st[pos][
                        k0
                    ].0 < st.len() && (spec_wr(st, pos + st[pos][k0].0) || spec_sr(
                        st,
                        pos + st[pos][k0].0,
                    ));
            }
        }
        assert(!wr[pos] && sr[pos] && !cfs);
        lemma_emit_lines_complete(st, wr, sr, digits, src, prefix.push(dt), pos + 1, true, rest);
        assert(prefix.push(dt) + rest =~= prefix + toks) by {
            assert(toks =~= seq![toks[0]] + rest);
        }
    }
}

/// Completeness of the decomposition pipeline relative to its occurrence
/// table: every decomposition the table supports (words taken from the
/// occurrence entries, digits skipped only where no occurrence starts,
/// never two in a row and never the last digit) is emitted as a line.
pub proof fn lemma_process_complete(
    t: crate::trie::Trie,
    s: Seq<usize>,
    src: Seq<char>,
    toks: Seq<Seq<char>>,
)
    requires
        t.wf(),
        forall|k: int| 0 <= k < s.len() ==> crate::valid_digit(#[trigger] s[k]),
        s.len() > 0,
        table_cover(spec_by_start(t.spec_occurrences(s)), s, 0, toks, false),
    ensures
        spec_process(t, s, src).contains(line_of(src, toks)),
{
    let st = spec_by_start(t.spec_occurrences(s));
    let wr = Seq::new(s.len() + 1, |i: int| spec_wr(st, i));
    let sr = Seq::new(s.len() + 1, |i: int| spec_sr(st, i));
    t.lemma_occurrences_sound(s);
    lemma_emit_lines_complete(st, wr, sr, s, src, Seq::empty(), 0, false, toks);
    assert(Seq::empty() + toks =~= toks);
}


/// An entry of the requested length is collected by `row_entries_of_len`.
proof fn lemma_row_entries_contains(row: OccRow, l: int, kk: int, b: int)
    requires
        0 <= kk <= b < row.len(),
        row[b].0 as int == l,
    ensures
        row_entries_of_len(row, l, kk).contains(row[b]),
    decreases b - kk,
{
    if kk == b {
        assert(row_entries_of_len(row, l, kk)[0] == row[b]);
    } else {
        lemma_row_entries_contains(row, l, kk + 1, b);
        lemma_contains_right(
            if row[kk].0 as int == l {
                seq![row[kk]]
            } else {
                Seq::empty()
            },
            row_entries_of_len(row, l, kk + 1),
            row[b],
        );
    }
}

/// An entry collected for end position `i` appears in the start row.
proof fn lemma_start_row_contains(t: OccTable, j: int, ii: int, i: int, e: (usize, Seq<Seq<char>>))
    requires
        0 <= j,
        j < ii <= i < t.len(),
        row_entries_of_len(t[i], i - j, 0).contains(e),
    ensures
        start_row(t, j, ii).contains(e),
    decreases i - ii,
{
    if ii == i {
        lemma_contains_left(row_entries_of_len(t[i], i - j, 0), start_row(t, j, i + 1), e);
    } else {
        lemma_start_row_contains(t, j, ii + 1, i, e);
        lemma_contains_right(row_entries_of_len(t[ii], ii - j, 0), start_row(t, j, ii + 1), e);
    }
}

/// Start rows built from an end table with non-empty word lists have
/// non-empty word lists.
proof fn lemma_start_row_nonempty_words(t: OccTable, j: int, ii: int)
    requires
        forall|a: int, b: int|
            0 <= a < t.len() && 0 <= b < t[a].len() ==> (#[trigger] t[a][b]).1.len() >= 1,
    ensures
        forall|q: int|
            0 <= q < start_row(t, j, ii).len() ==> (#[trigger] start_row(t, j, ii)[q]).1.len() >= 1,
    decreases t.len() - ii,
{
    if 0 <= ii < t.len() {
        lemma_row_entries_member(t[ii], ii - j, 0);
        lemma_start_row_nonempty_words(t, j, ii + 1);
        let head = row_entries_of_len(t[ii], ii - j, 0);
        assert forall|q: int| 0 <= q < start_row(t, j, ii).len() implies (#[trigger] start_row(
            t,
            j,
            ii,
        )[q]).1.len() >= 1 by {
            if q < head.len() {
                assert(start_row(t, j, ii)[q] == head[q]);
                let b = choose|b: int| 0 <= b < t[ii].len() && t[ii][b] == head[q];
            } else {
                assert(start_row(t, j, ii)[q] == start_row(t, j, ii + 1)[q - head.len()]);
            }
        }
    }
}

/// No dictionary word's encoding matches the digits of `s` starting at `pos`.
pub open spec fn no_word_starts(
    dict: Seq<(Seq<usize>, Seq<char>)>,
    s: Seq<usize>,
    pos: int,
) -> bool {
    forall|j: int|
        0 <= j < dict.len() ==> !(1 <= (#[trigger] dict[j]).0.len() && pos + dict[j].0.len()
            <= s.len() && dict[j].0 == s.subrange(pos, pos + dict[j].0.len()))
}

/// `toks` decomposes `s` from position `pos` on against the dictionary
/// itself: word tokens are dictionary words whose encoding is the next run
/// of digits, digits are skipped only where no dictionary word starts at
/// all, skips are never adjacent and the final digit is never a lone skip.
pub open spec fn dict_cover(
    dict: Seq<(Seq<usize>, Seq<char>)>,
    s: Seq<usize>,
    pos: int,
    toks: Seq<Seq<char>>,
    cfs: bool,
) -> bool
    decreases toks.len(),
{
    if pos == s.len() {
        toks.len() == 0
    } else if toks.len() == 0 {
        false
    } else {
        ||| exists|j: int|
            0 <= j < dict.len() && 1 <= (#[trigger] dict[j]).0.len() && pos + dict[j].0.len()
                <= s.len() && dict[j].0 == s.subrange(pos, pos + dict[j].0.len()) && dict[j].1
                == toks[0] && dict_cover(dict, s, pos + dict[j].0.len(), toks.drop_first(), false)
        ||| (!cfs && no_word_starts(dict, s, pos) && pos + 1 < s.len() && toks[0] == seq![
            digit_char(s[pos]),
        ] && dict_cover(dict, s, pos + 1, toks.drop_first(), true))
    }
}

/// A dictionary-level decomposition is supported by the occurrence table
/// the scan of `s` produces.
proof fn lemma_dict_cover_table(
    t: crate::trie::Trie,
    s: Seq<usize>,
    pos: int,
    toks: Seq<Seq<char>>,
    cfs: bool,
)
    requires
        t.wf(),
        t.links_built(),
        forall|k: int| 0 <= k < s.len() ==> crate::valid_digit(#[trigger] s[k]),
        0 <= pos <= s.len(),
        dict_cover(t.dict(), s, pos, toks, cfs),
    ensures
        table_cover(spec_by_start(t.spec_occurrences(s)), s, pos, toks, cfs),
    decreases toks.len(),
{
    let dict = t.dict();
    let end_t = t.spec_occurrences(s);
    let st = spec_by_start(end_t);
    t.lemma_occurrences_sound(s);
    if pos == s.len() {
    } else if exists|j: int|
        0 <= j < dict.len() && 1 <= (#[trigger] dict[j]).0.len() && pos + dict[j].0.len() <= s.len()
            && dict[j].0 == s.subrange(pos, pos + dict[j].0.len()) && dict[j].1 == toks[0]
            && dict_cover(dict, s, pos + dict[j].0.len(), toks.drop_first(), false) {
        let j = choose|j: int|
            0 <= j < dict.len() && 1 <= (#[trigger] dict[j]).0.len() && pos + dict[j].0.len()
                <= s.len() && dict[j].0 == s.subrange(pos, pos + dict[j].0.len()) && dict[j].1
                == toks[0] && dict_cover(dict, s, pos + dict[j].0.len(), toks.drop_first(), false);
        let l = dict[j].0.len() as int;
        let i = pos + l;
        t.lemma_occurrences_complete(s);
        assert(s.subrange(i - dict[j].0.len(), i) == s.subrange(pos, pos + dict[j].0.len()));
        assert(exists|k: int|
            0 <= k < end_t[i].len() && (#[trigger] end_t[i][k]).0 as int == dict[j].0.len()
                && end_t[i][k].1.contains(dict[j].1));
        let k = choose|k: int|
            0 <= k < end_t[i].len() && (#[trigger] end_t[i][k]).0 as int == dict[j].0.len()
                && end_t[i][k].1.contains(dict[j].1);
        let e = end_t[i][k];
        lemma_row_entries_contains(end_t[i], i - pos, 0, k);
        lemma_start_row_contains(end_t, pos, pos + 1, i, e);
        assert(st[pos] == start_row(end_t, pos, pos + 1));
        let k2 = choose|k2: int| 0 <= k2 < st[pos].len() && st[pos][k2] == e;
        let m = choose|m: int| 0 <= m < e.1.len() && e.1[m] == dict[j].1;
        lemma_dict_cover_table(t, s, pos + l, toks.drop_first(), false);
        assert(0 <= k2 < st[pos].len() && 0 <= m < st[pos][k2].1.len() && st[pos][k2].1[m]
            == toks[0] && 1 <= st[pos][k2].0 && pos + st[pos][k2].0 <= s.len() && table_cover(
            st,
            s,
            pos + st[pos][k2].0,
            toks.drop_first(),
            false,
        ));
    } else {
        // Skip step: the table offers nothing at `pos`, since an entry there
        // would name a dictionary word starting at `pos`.
        assert(st[pos].len() == 0) by {
            if st[pos].len() > 0 {
                assert forall|a: int, b: int|
                    0 <= a < end_t.len() && 0 <= b < end_t[a].len() implies {
                    let e2 = #[trigger] end_t[a][b];
                    &&& 1 <= e2.0 <= a
                    &&& forall|m2: int|
                        0 <= m2 < e2.1.len() ==> dict.contains(
                            (s.subrange(a - e2.0, a), #[trigger] e2.1[m2]),
                        )
                } by {
                    if a == 0 {
                        assert(end_t[0].len() == 0);
                    } else {
                        assert(t.occ_entry_ok(s, a, end_t[a][b]));
                    }
                }
                lemma_by_start_sound(end_t, dict, s, pos, pos + 1);
                t.lemma_occurrence_words_nonempty(s);
                lemma_start_row_nonempty_words(end_t, pos, pos + 1);
                assert(st[pos] == start_row(end_t, pos, pos + 1));
                let e = st[pos][0];
                assert(1 <= e.0 && pos + e.0 <= s.len());
                assert(e.1.len() >= 1);
                assert(dict.contains((s.subrange(pos, pos + e.0), e.1[0])));
                let jj = choose|jj: int|
                    0 <= jj < dict.len() && dict[jj] == (s.subrange(pos, pos + e.0), e.1[0]);
                assert(!(1 <= dict[jj].0.len() && pos + dict[jj].0.len() <= s.len() && dict[jj].0
                    == s.subrange(pos, pos + dict[jj].0.len())));
            }
        }
        lemma_dict_cover_table(t, s, pos + 1, toks.drop_first(), true);
    }
}

/// Completeness of the decomposition pipeline against the dictionary: after
/// `build`, every decomposition of `s` into dictionary words and isolated
/// un-encoded digits — skips only where no dictionary word starts, never
/// two in a row, never the last digit — is emitted as a line.
pub proof fn lemma_process_complete_dict(
    t: crate::trie::Trie,
    s: Seq<usize>,
    src: Seq<char>,
    toks: Seq<Seq<char>>,
)
    requires
        t.wf(),
        t.links_built(),
        forall|k: int| 0 <= k < s.len() ==> crate::valid_digit(#[trigger] s[k]),
        s.len() > 0,
        dict_cover(t.dict(), s, 0, toks, false),
    ensures
        spec_process(t, s, src).contains(line_of(src, toks)),
{
    lemma_dict_cover_table(t, s, 0, toks, false);
    lemma_process_complete(t, s, src, toks);
}


/// Completeness of a start-indexed occurrence table against a dictionary:
/// every dictionary word matching the digits at a position is offered there.
pub open spec fn start_table_complete(
    st: OccTable,
    dict: Seq<(Seq<usize>, Seq<char>)>,
    s: Seq<usize>,
) -> bool {
    forall|j: int, pos: int|
        0 <= j < dict.len() && 0 <= pos && 1 <= dict[j].0.len() && pos + dict[j].0.len() <= s.len()
            && (#[trigger] dict[j]).0 == #[trigger] s.subrange(pos, pos + dict[j].0.len())
            ==> exists|k: int, m: int|
            0 <= k < st[pos].len() && 0 <= m < st[pos][k].1.len() && st[pos][k].0 as int == dict[
                j
            ].0.len() && (#[trigger] st[pos][k].1[m]) == dict[j].1
}

/// After `build`, the start-indexed table of a scan is complete for the
/// automaton's dictionary.
proof fn lemma_start_table_complete(t: crate::trie::Trie, s: Seq<usize>)
    requires
        t.wf(),
        t.links_built(),
        forall|k: int| 0 <= k < s.len() ==> crate::valid_digit(#[trigger] s[k]),
    ensures
        start_table_complete(spec_by_start(t.spec_occurrences(s)), t.dict(), s),
{
    let dict = t.dict();
    let end_t = t.spec_occurrences(s);
    let st = spec_by_start(end_t);
    t.lemma_occurrences_sound(s);
    t.lemma_occurrences_complete(s);
    assert forall|j: int, pos: int|
        0 <= j < dict.len() && 0 <= pos && 1 <= dict[j].0.len() && pos + dict[j].0.len() <= s.len()
            && (#[trigger] dict[j]).0 == #[trigger] s.subrange(pos, pos + dict[j].0.len())
        implies exists|k: int, m: int|
        0 <= k < st[pos].len() && 0 <= m < st[pos][k].1.len() && st[pos][k].0 as int == dict[
            j
        ].0.len() && (#[trigger] st[pos][k].1[m]) == dict[j].1 by {
        let l = dict[j].0.len() as int;
        let i = pos + l;
        assert(s.subrange(i - dict[j].0.len(), i) == s.subrange(pos, pos + dict[j].0.len()));
        let k = choose|k: int|
            0 <= k < end_t[i].len() && (#[trigger] end_t[i][k]).0 as int == dict[j].0.len()
                && end_t[i][k].1.contains(dict[j].1);
        let e = end_t[i][k];
        lemma_row_entries_contains(end_t[i], i - pos, 0, k);
        lemma_start_row_contains(end_t, pos, pos + 1, i, e);
        assert(st[pos] == start_row(end_t, pos, pos + 1));
        let k2 = choose|k2: int| 0 <= k2 < st[pos].len() && st[pos][k2] == e;
        let m = choose|m: int| 0 <= m < e.1.len() && e.1[m] == dict[j].1;
        assert(0 <= k2 < st[pos].len() && 0 <= m < st[pos][k2].1.len() && st[pos][k2].0 as int
            == dict[j].0.len() && st[pos][k2].1[m] == dict[j].1);
    }
}

/// A decomposition the occurrence table supports is a decomposition against
/// the dictionary itself, once the table is both sound and complete for it.
proof fn lemma_table_cover_dict(
    st: OccTable,
    dict: Seq<(Seq<usize>, Seq<char>)>,
    s: Seq<usize>,
    pos: int,
    toks: Seq<Seq<char>>,
    cfs: bool,
)
    requires
        start_table_sound(st, dict, s),
        start_table_complete(st, dict, s),
        0 <= pos <= s.len(),
        table_cover(st, s, pos, toks, cfs),
    ensures
        dict_cover(dict, s, pos, toks, cfs),
    decreases toks.len(),
{
    if pos < s.len() {
        if exists|k: int, m: int|
            0 <= k < st[pos].len() && 0 <= m < st[pos][k].1.len() && (#[trigger] st[pos][k].1[m])
                == toks[0] && 1 <= st[pos][k].0 && pos + st[pos][k].0 <= s.len() && table_cover(
                st,
                s,
                pos + st[pos][k].0,
                toks.drop_first(),
                false,
            ) {
            let (k, m): (int, int) = choose|k: int, m: int|
                0 <= k < st[pos].len() && 0 <= m < st[pos][k].1.len() && (#[trigger] st[pos][k].1[
                    m
                ]) == toks[0] && 1 <= st[pos][k].0 && pos + st[pos][k].0 <= s.len() && table_cover(
                    st,
                    s,
                    pos + st[pos][k].0,
                    toks.drop_first(),
                    false,
                );
            let l = st[pos][k].0 as int;
            lemma_table_cover_dict(st, dict, s, pos + l, toks.drop_first(), false);
            assert(dict.contains((s.subrange(pos, pos + l), toks[0])));
            let j = choose|j: int|
                0 <= j < dict.len() && dict[j] == (s.subrange(pos, pos + l), toks[0]);
            assert(0 <= j < dict.len() && 1 <= dict[j].0.len() && pos + dict[j].0.len() <= s.len()
                && dict[j].0 == s.subrange(pos, pos + dict[j].0.len()) && dict[j].1 == toks[0]
                && dict_cover(dict, s, pos + dict[j].0.len(), toks.drop_first(), false));
        } else {
            lemma_table_cover_dict(st, dict, s, pos + 1, toks.drop_first(), true);
            assert(no_word_starts(dict, s, pos)) by {
                assert forall|j: int|
                    0 <= j < dict.len() implies !(1 <= (#[trigger] dict[j]).0.len() && pos + dict[
                    j
                ].0.len() <= s.len() && dict[j].0 == s.subrange(pos, pos + dict[j].0.len())) by {
                    if 1 <= dict[j].0.len() && pos + dict[j].0.len() <= s.len() && dict[j].0
                        == s.subrange(pos, pos + dict[j].0.len()) {
                        assert(exists|k: int, m: int|
                            0 <= k < st[pos].len() && 0 <= m < st[pos][k].1.len() && st[pos][
                                k
                            ].0 as int == dict[j].0.len() && (#[trigger] st[pos][k].1[m]) == dict[
                                j
                            ].1);
                    }
                }
            }
        }
    }
}

/// `line` extends the already-chosen tokens in `prefix` by a dictionary
/// decomposition in which digits are skipped only where no dictionary word
/// starts.
pub open spec fn line_ok_dict(
    dict: Seq<(Seq<usize>, Seq<char>)>,
    s: Seq<usize>,
    src: Seq<char>,
    prefix: Seq<Seq<char>>,
    pos: int,
    cfs: bool,
    line: Seq<char>,
) -> bool {
    exists|toks: Seq<Seq<char>>|
        line == line_of(src, prefix + toks) && #[trigger] dict_cover(dict, s, pos, toks, cfs)
}

/// Exact soundness of the decomposition pipeline after `build`: every
/// emitted line is the display string followed by the tokens of a
/// dictionary decomposition in which digits are skipped only where no
/// dictionary word starts — the same notion the completeness law uses, so
/// together they pin the emitted set exactly.
pub proof fn lemma_process_sound_dict(t: crate::trie::Trie, s: Seq<usize>, src: Seq<char>)
    requires
        t.wf(),
        t.links_built(),
        forall|k: int| 0 <= k < s.len() ==> crate::valid_digit(#[trigger] s[k]),
    ensures
        forall|q: int|
            0 <= q < spec_process(t, s, src).len() ==> line_ok_dict(
                t.dict(),
                s,
                src,
                Seq::empty(),
                0,
                false,
                #[trigger] spec_process(t, s, src)[q],
            ),
{
    if s.len() == 0 {
    } else {
        let end_t = t.spec_occurrences(s);
        let st = spec_by_start(end_t);
        let wr = Seq::new(s.len() + 1, |i: int| spec_wr(st, i));
        let sr = Seq::new(s.len() + 1, |i: int| spec_sr(st, i));
        t.lemma_occurrences_sound(s);
        assert forall|a: int, b: int| 0 <= a < end_t.len() && 0 <= b < end_t[a].len() implies {
            let e = #[trigger] end_t[a][b];
            &&& 1 <= e.0 <= a
            &&& forall|m: int|
                0 <= m < e.1.len() ==> t.dict().contains(
                    (s.subrange(a - e.0, a), #[trigger] e.1[m]),
                )
        } by {
            if a == 0 {
                assert(end_t[0].len() == 0);
            } else {
                assert(t.occ_entry_ok(s, a, end_t[a][b]));
            }
        }
        assert(start_table_sound(st, t.dict(), s)) by {
            assert forall|j: int, k: int| 0 <= j < st.len() && 0 <= k < st[j].len() implies {
                let e = #[trigger] st[j][k];
                &&& 1 <= e.0
                &&& j + e.0 <= s.len()
                &&& forall|m: int|
                    0 <= m < e.1.len() ==> t.dict().contains(
                        (s.subrange(j, j + e.0), #[trigger] e.1[m]),
                    )
            } by {
                lemma_by_start_sound(end_t, t.dict(), s, j, j + 1);
                assert(st[j] == start_row(end_t, j, j + 1));
            }
        }
        lemma_start_table_complete(t, s);
        assert(sr_ok(sr, st, s.len() as int));
        assert(start_table_ok(st));
        lemma_emit_lines_sound(st, wr, sr, s, src, Seq::empty(), 0, false);
        assert forall|q: int| 0 <= q < spec_process(t, s, src).len() implies line_ok_dict(
            t.dict(),
            s,
            src,
            Seq::empty(),
            0,
            false,
            #[trigger] spec_process(t, s, src)[q],
        ) by {
            let line = spec_process(t, s, src)[q];
            assert(line == emit_lines(st, wr, sr, s, src, Seq::empty(), 0, false)[q]);
            assert(line_ok_table(st, s, src, Seq::empty(), 0, false, line));
            let toks = choose|toks: Seq<Seq<char>>|
                line == line_of(src, Seq::empty() + toks) && #[trigger] table_cover(
                    st,
                    s,
                    0,
                    toks,
                    false,
                );
            lemma_table_cover_dict(st, t.dict(), s, 0, toks, false);
            assert(dict_cover(t.dict(), s, 0, toks, false));
            assert(line == line_of(src, Seq::empty() + toks));
        }
    }
}

} // verus!

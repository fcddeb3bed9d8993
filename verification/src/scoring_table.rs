//! Letter scoring: turning a score → letters table into a letter → score
//! table, and scoring a word against it.
//!
//! The letter table is keyed by the character's code point (as `u32`) after
//! ASCII lowercasing, since scores are looked up case-insensitively.

use vstd::prelude::*;
use std::collections::HashMap;

verus! {

broadcast use vstd::std_specs::hash::group_hash_axioms;

/// The code point of `c` with ASCII upper-case letters folded to lower case.
pub open spec fn lower_code(c: char) -> u32 {
    if 65 <= c as u32 <= 90 {
        (c as u32 + 32) as u32
    } else {
        c as u32
    }
}

/// Computes `lower_code` of a character.
pub fn lower_code_of(c: char) -> (r: u32)
    ensures
        r == lower_code(c),
{
    let u = c as u32;
    if 65 <= u && u <= 90 {
        u + 32
    } else {
        u
    }
}

/// The table after crediting `sc` points to the first `q` letters of `cs`
/// (each folded to lower case), starting from `m`.
pub open spec fn add_chars(m: Map<u32, int>, sc: u32, cs: Seq<char>, q: int) -> Map<u32, int>
    decreases q,
{
    if q <= 0 {
        m
    } else {
        let m2 = add_chars(m, sc, cs, q - 1);
        let key = lower_code(cs[q - 1]);
        m2.insert(
            key,
            (if m2.dom().contains(key) {
                m2[key]
            } else {
                0
            }) + sc,
        )
    }
}

/// The letter → score table after the first `j` (score, letters) rows.
pub open spec fn table_upto(rows: Seq<(u32, Seq<char>)>, j: int) -> Map<u32, int>
    decreases j,
{
    if j <= 0 {
        Map::empty()
    } else {
        add_chars(table_upto(rows, j - 1), rows[j - 1].0, rows[j - 1].1, rows[j - 1].1.len() as int)
    }
}

/// The complete letter → score table of a rows list.
pub open spec fn score_table(rows: Seq<(u32, Seq<char>)>) -> Map<u32, int> {
    table_upto(rows, rows.len() as int)
}

/// No accumulated score ever exceeds `u32::MAX` while the table is built.
pub open spec fn table_fits(rows: Seq<(u32, Seq<char>)>) -> bool {
    forall|j: int, q: int, key: u32|
        0 <= j < rows.len() && 0 <= q <= rows[j].1.len() && (#[trigger] add_chars(
            table_upto(rows, j),
            rows[j].0,
            rows[j].1,
            q,
        ).dom().contains(key)) ==> add_chars(table_upto(rows, j), rows[j].0, rows[j].1, q)[key]
            <= u32::MAX
}

/// The executable hash table holds exactly the model table.
pub open spec fn table_agrees(m: Map<u32, u32>, t: Map<u32, int>) -> bool {
    &&& m.dom() == t.dom()
    &&& forall|key: u32| t.dom().contains(key) ==> (#[trigger] m[key]) as int == t[key]
}

/// Folds a list of (score, letters) rows into a letter → score table:
/// every letter of a row is credited that row's score, accumulating when a
/// letter appears more than once, with keys folded to lower case.
pub fn transform_iter(rows: &Vec<(u32, Vec<char>)>) -> (res: HashMap<u32, u32>)
    requires
        table_fits(rows.deep_view()),
    ensures
        table_agrees(res@, score_table(rows.deep_view())),
{
    let ghost rs = rows.deep_view();
    let mut res: HashMap<u32, u32> = HashMap::new();
    let mut j: usize = 0;
    proof {
        assert(res@.dom() =~= table_upto(rs, 0).dom());
    }
    while j < rows.len()
        invariant
            rs == rows.deep_view(),
            table_fits(rs),
            j <= rows@.len(),
            table_agrees(res@, table_upto(rs, j as int)),
        decreases rows@.len() - j,
    {
        let sc = rows[j].0;
        let cnt = rows[j].1.len();
        proof {
            assert(rs[j as int] == rows@[j as int].deep_view());
        }
        let mut q: usize = 0;
        while q < cnt
            invariant
                rs == rows.deep_view(),
                table_fits(rs),
                j < rows@.len(),
                rs[j as int] == rows@[j as int].deep_view(),
                sc == rs[j as int].0,
                cnt == rs[j as int].1.len(),
                q <= cnt,
                table_agrees(res@, add_chars(table_upto(rs, j as int), sc, rs[j as int].1, q as int)),
            decreases cnt - q,
        {
            let c = rows[j].1[q];
            proof {
                assert(rs[j as int].1[q as int] == rows@[j as int].1@[q as int]);
            }
            let key = lower_code_of(c);
            let cur: u32 = match res.get(&key) {
                Some(v) => *v,
                None => 0,
            };
            let ghost before = add_chars(table_upto(rs, j as int), sc, rs[j as int].1, q as int);
            proof {
                let after = add_chars(
                    table_upto(rs, j as int),
                    sc,
                    rs[j as int].1,
                    q as int + 1,
                );
                assert(after.dom().contains(key));
                assert(after[key] <= u32::MAX);
                assert(after == before.insert(key, (if before.dom().contains(key) {
                    before[key]
                } else {
                    0
                }) + sc));
                assert(cur as int == if before.dom().contains(key) {
                    before[key]
                } else {
                    0
                });
            }
            res.insert(key, cur + sc);
            proof {
                assert(res@.dom() =~= add_chars(
                    table_upto(rs, j as int),
                    sc,
                    rs[j as int].1,
                    q as int + 1,
                ).dom());
            }
            q += 1;
        }
        proof {
            assert(table_upto(rs, j as int + 1) == add_chars(
                table_upto(rs, j as int),
                sc,
                rs[j as int].1,
                cnt as int,
            ));
        }
        j += 1;
    }
    res
}

/// Same folding, named for callers that hold the rows directly.
pub fn transform(old: &Vec<(u32, Vec<char>)>) -> (res: HashMap<u32, u32>)
    requires
        table_fits(old.deep_view()),
    ensures
        table_agrees(res@, score_table(old.deep_view())),
{
    transform_iter(old)
}

/// The score of one character against the table: its entry under the
/// lowercased code, or 0 when absent.
pub open spec fn char_score(c: char, t: Map<u32, u32>) -> int {
    if t.dom().contains(lower_code(c)) {
        t[lower_code(c)] as int
    } else {
        0
    }
}

/// The total score of a character sequence.
pub open spec fn spec_score(s: Seq<char>, t: Map<u32, u32>) -> int
    decreases s.len(),
{
    if s.len() == 0 {
        0
    } else {
        spec_score(s.drop_last(), t) + char_score(s.last(), t)
    }
}

/// Scores are sums of non-negative entries.
proof fn lemma_score_nonneg(s: Seq<char>, t: Map<u32, u32>)
    ensures
        spec_score(s, t) >= 0,
    decreases s.len(),
{
    if s.len() > 0 {
        lemma_score_nonneg(s.drop_last(), t);
    }
}

/// Every prefix scores at most the whole sequence.
proof fn lemma_score_prefix_le(s: Seq<char>, t: Map<u32, u32>, i: int)
    requires
        0 <= i <= s.len(),
    ensures
        spec_score(s.take(i), t) <= spec_score(s, t),
        spec_score(s.take(i), t) >= 0,
    decreases s.len() - i,
{
    lemma_score_nonneg(s.take(i), t);
    if i == s.len() {
        assert(s.take(i) =~= s);
    } else {
        lemma_score_prefix_le(s, t, i + 1);
        assert(s.take(i + 1).drop_last() =~= s.take(i));
        assert(s.take(i + 1).last() == s[i]);
        assert(spec_score(s.take(i + 1), t) == spec_score(s.take(i), t) + char_score(s[i], t));
    }
}

/// Sums the scores of the characters of `input` against the table,
/// counting 0 for characters without an entry.
pub fn score(input: &str, score_table: &HashMap<u32, u32>) -> (r: u32)
    requires
        spec_score(input@, score_table@) <= u32::MAX,
    ensures
        r as int == spec_score(input@, score_table@),
{
    let chars = crate::text::chars_of(input);
    let mut acc: u32 = 0;
    let mut i: usize = 0;
    while i < chars.len()
        invariant
            chars@ == input@,
            spec_score(input@, score_table@) <= u32::MAX,
            i <= chars@.len(),
            acc as int == spec_score(input@.take(i as int), score_table@),
        decreases chars@.len() - i,
    {
        let c = chars[i];
        let key = lower_code_of(c);
        let add: u32 = match score_table.get(&key) {
            Some(v) => *v,
            None => 0,
        };
        proof {
            lemma_score_prefix_le(input@, score_table@, i as int + 1);
            assert(input@.take(i as int + 1).drop_last() =~= input@.take(i as int));
            assert(input@.take(i as int + 1).last() == input@[i as int]);
            assert(add as int == char_score(c, score_table@));
        }
        acc = acc + add;
        i += 1;
    }
    proof {
        assert(input@.take(input@.len() as int) =~= input@);
    }
    acc
}


/// The total credit handed out by the first `j` rows: each row contributes
/// its score once per letter.
pub open spec fn rows_credit_upto(rows: Seq<(u32, Seq<char>)>, j: int) -> int
    decreases j,
{
    if j <= 0 {
        0
    } else {
        rows_credit_upto(rows, j - 1) + rows[j - 1].0 * rows[j - 1].1.len()
    }
}

/// The total credit handed out by a rows list.
pub open spec fn rows_credit(rows: Seq<(u32, Seq<char>)>) -> int {
    rows_credit_upto(rows, rows.len() as int)
}

/// Crediting `q` letters of one row raises no table value beyond the old
/// bound plus the row's share.
proof fn lemma_add_chars_bounded(m: Map<u32, int>, sc: u32, cs: Seq<char>, q: int, b: int)
    requires
        0 <= q,
        forall|key: u32| m.dom().contains(key) ==> 0 <= #[trigger] m[key] <= b,
        0 <= b,
    ensures
        forall|key: u32|
            add_chars(m, sc, cs, q).dom().contains(key) ==> 0 <= #[trigger] add_chars(
                m,
                sc,
                cs,
                q,
            )[key] <= b + sc * q,
    decreases q,
{
    if q > 0 {
        lemma_add_chars_bounded(m, sc, cs, q - 1, b);
        assert(sc * q == sc * (q - 1) + sc) by (nonlinear_arith);
        assert(sc * (q - 1) >= 0) by (nonlinear_arith)
            requires
                q >= 1,
        ;
        let m2 = add_chars(m, sc, cs, q - 1);
        let k0 = lower_code(cs[q - 1]);
        assert forall|key: u32| add_chars(m, sc, cs, q).dom().contains(key) implies 0
            <= #[trigger] add_chars(m, sc, cs, q)[key] <= b + sc * q by {
            if key == k0 {
                assert(add_chars(m, sc, cs, q)[key] == (if m2.dom().contains(k0) {
                    m2[k0]
                } else {
                    0
                }) + sc);
            } else {
                assert(add_chars(m, sc, cs, q)[key] == m2[key]);
            }
        }
    } else {
        assert(sc * 0 == 0) by (nonlinear_arith);
    }
}

/// Row credits are non-negative, so the total only grows with more rows.
proof fn lemma_credit_monotone(rows: Seq<(u32, Seq<char>)>, j1: int, j2: int)
    requires
        0 <= j1 <= j2,
    ensures
        rows_credit_upto(rows, j1) <= rows_credit_upto(rows, j2),
        0 <= rows_credit_upto(rows, j1),
    decreases j2,
{
    if j2 > 0 {
        if j1 == j2 {
            lemma_credit_monotone(rows, j1 - 1, j2 - 1);
        } else {
            lemma_credit_monotone(rows, j1, j2 - 1);
        }
        assert(rows[j2 - 1].0 * rows[j2 - 1].1.len() >= 0) by (nonlinear_arith);
    }
}

/// Every value of the table after `j` rows stays within the credit handed
/// out by those rows.
proof fn lemma_table_upto_bounded(rows: Seq<(u32, Seq<char>)>, j: int)
    requires
        0 <= j,
    ensures
        forall|key: u32|
            table_upto(rows, j).dom().contains(key) ==> 0 <= #[trigger] table_upto(rows, j)[key]
                <= rows_credit_upto(rows, j),
    decreases j,
{
    if j > 0 {
        lemma_table_upto_bounded(rows, j - 1);
        lemma_credit_monotone(rows, j - 1, j - 1);
        lemma_add_chars_bounded(
            table_upto(rows, j - 1),
            rows[j - 1].0,
            rows[j - 1].1,
            rows[j - 1].1.len() as int,
            rows_credit_upto(rows, j - 1),
        );
    }
}

/// Discharges `table_fits` for a rows list whose total credit fits in
/// `u32`: no intermediate accumulation can then overflow either.
pub proof fn lemma_table_fits_from_credit(rows: Seq<(u32, Seq<char>)>)
    requires
        rows_credit(rows) <= u32::MAX,
    ensures
        table_fits(rows),
{
    assert forall|j: int, q: int, key: u32|
        0 <= j < rows.len() && 0 <= q <= rows[j].1.len() && (#[trigger] add_chars(
            table_upto(rows, j),
            rows[j].0,
            rows[j].1,
            q,
        ).dom().contains(key)) implies add_chars(table_upto(rows, j), rows[j].0, rows[j].1, q)[key]
        <= u32::MAX by {
        lemma_table_upto_bounded(rows, j);
        lemma_credit_monotone(rows, j, j);
        lemma_add_chars_bounded(
            table_upto(rows, j),
            rows[j].0,
            rows[j].1,
            q,
            rows_credit_upto(rows, j),
        );
        assert(rows[j].0 * q <= rows[j].0 * rows[j].1.len()) by (nonlinear_arith)
            requires
                0 <= q <= rows[j].1.len(),
        ;
        assert(rows_credit_upto(rows, j) + rows[j].0 * rows[j].1.len() == rows_credit_upto(
            rows,
            j + 1,
        ));
        lemma_credit_monotone(rows, j + 1, rows.len() as int);
    }
}

} // verus!

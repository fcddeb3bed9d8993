//! Keypad tables: turning a digit → letters table into a letter → digit
//! table, and encoding a string as a digit sequence through it.
//!
//! Letter tables are keyed by the character's code point (as `u32`); lookups
//! fold ASCII upper-case letters to lower case, as the keypad table lists
//! lower-case letters.

use vstd::prelude::*;
use std::collections::HashMap;

verus! {

broadcast use vstd::std_specs::hash::group_hash_axioms;

/// Is `c` an ASCII letter?
pub open spec fn is_ascii_letter(c: char) -> bool {
    (65 <= c as u32 <= 90) || (97 <= c as u32 <= 122)
}

/// The code point of `c` with ASCII upper-case letters folded to lower case.
pub open spec fn folded_code(c: char) -> u32 {
    if 65 <= c as u32 <= 90 {
        (c as u32 + 32) as u32
    } else {
        c as u32
    }
}

/// The letter → digit table after inserting the first `q` letters of the
/// row mapping to `digit`, starting from `m`.
pub open spec fn enc_chars(m: Map<u32, usize>, digit: usize, cs: Seq<char>, q: int) -> Map<
    u32,
    usize,
>
    decreases q,
{
    if q <= 0 {
        m
    } else {
        enc_chars(m, digit, cs, q - 1).insert(cs[q - 1] as u32, digit)
    }
}

/// The letter → digit table after the first `j` (digit, letters) rows.
pub open spec fn enc_upto(rows: Seq<(usize, Seq<char>)>, j: int) -> Map<u32, usize>
    decreases j,
{
    if j <= 0 {
        Map::empty()
    } else {
        enc_chars(enc_upto(rows, j - 1), rows[j - 1].0, rows[j - 1].1, rows[j - 1].1.len() as int)
    }
}

/// The complete letter → digit table of a (digit, letters) rows list.
pub open spec fn spec_encoding(rows: Seq<(usize, Seq<char>)>) -> Map<u32, usize> {
    enc_upto(rows, rows.len() as int)
}

/// Inverts a digit → letters table into a letter → digit table, keyed by
/// the letters' code points (later rows win on duplicate letters).
pub fn convert_encoding(digits_coding: &Vec<(usize, Vec<char>)>) -> (res: HashMap<u32, usize>)
    ensures
        res@ == spec_encoding(digits_coding.deep_view()),
{
    let ghost rows = digits_coding.deep_view();
    let mut res: HashMap<u32, usize> = HashMap::new();
    let mut j: usize = 0;
    proof {
        assert(res@ =~= enc_upto(rows, 0));
    }
    while j < digits_coding.len()
        invariant
            rows == digits_coding.deep_view(),
            j <= digits_coding@.len(),
            res@ == enc_upto(rows, j as int),
        decreases digits_coding@.len() - j,
    {
        let digit = digits_coding[j].0;
        let cnt = digits_coding[j].1.len();
        proof {
            assert(rows[j as int] == digits_coding@[j as int].deep_view());
        }
        let mut q: usize = 0;
        while q < cnt
            invariant
                rows == digits_coding.deep_view(),
                j < digits_coding@.len(),
                rows[j as int] == digits_coding@[j as int].deep_view(),
                digit == rows[j as int].0,
                cnt == rows[j as int].1.len(),
                q <= cnt,
                res@ == enc_chars(enc_upto(rows, j as int), digit, rows[j as int].1, q as int),
            decreases cnt - q,
        {
            let c = digits_coding[j].1[q];
            proof {
                assert(rows[j as int].1[q as int] == digits_coding@[j as int].1@[q as int]);
            }
            let key = c as u32;
            res.insert(key, digit);
            q += 1;
        }
        proof {
            assert(enc_upto(rows, j as int + 1) == enc_chars(
                enc_upto(rows, j as int),
                digit,
                rows[j as int].1,
                cnt as int,
            ));
        }
        j += 1;
    }
    res
}

/// The digit sequence a string encodes to: each ASCII letter contributes
/// the digit its lower-cased code maps to, every other character is
/// dropped.
pub open spec fn spec_convert(s: Seq<char>, m: Map<u32, usize>) -> Seq<usize>
    decreases s.len(),
{
    if s.len() == 0 {
        Seq::empty()
    } else {
        spec_convert(s.drop_last(), m) + (if is_ascii_letter(s.last()) {
            seq![m[folded_code(s.last())]]
        } else {
            Seq::empty()
        })
    }
}

/// Encodes a string as a digit sequence: ASCII letters are folded to lower
/// case and looked up in the letter → digit table, everything else is
/// dropped.  The table must cover every ASCII letter that occurs.
pub fn convert_string(s: &str, chars_encoding: &HashMap<u32, usize>) -> (res: Vec<usize>)
    requires
        forall|k: int|
            0 <= k < s@.len() && is_ascii_letter(s@[k]) ==> chars_encoding@.dom().contains(
                folded_code(#[trigger] s@[k]),
            ),
    ensures
        res@ == spec_convert(s@, chars_encoding@),
{
    let chars = crate::text::chars_of(s);
    let mut res: Vec<usize> = Vec::new();
    let mut i: usize = 0;
    proof {
        assert(s@.take(0) =~= Seq::<char>::empty());
    }
    while i < chars.len()
        invariant
            chars@ == s@,
            forall|k: int|
                0 <= k < s@.len() && is_ascii_letter(s@[k]) ==> chars_encoding@.dom().contains(
                    folded_code(#[trigger] s@[k]),
                ),
            i <= chars@.len(),
            res@ == spec_convert(s@.take(i as int), chars_encoding@),
        decreases chars@.len() - i,
    {
        let c = chars[i];
        let code = c as u32;
        proof {
            assert(s@.take(i as int + 1).drop_last() =~= s@.take(i as int));
            assert(s@.take(i as int + 1).last() == s@[i as int]);
        }
        if (65 <= code && code <= 90) || (97 <= code && code <= 122) {
            let folded = if code <= 90 {
                code + 32
            } else {
                code
            };
            proof {
                assert(folded == folded_code(c));
            }
            let digit = match chars_encoding.get(&folded) {
                Some(d) => *d,
                None => 0,
            };
            res.push(digit);
            proof {
                assert(res@ =~= spec_convert(s@.take(i as int + 1), chars_encoding@));
            }
        } else {
            proof {
                assert(res@ =~= spec_convert(s@.take(i as int + 1), chars_encoding@));
            }
        }
        i += 1;
    }
    proof {
        assert(s@.take(s@.len() as int) =~= s@);
    }
    res
}

} // verus!

//! Scoring the text of a solution and comparing a score with the best one known.

use crate::system::Solution;
use crate::text::{pieces, split_on, split_ranges};
use vstd::prelude::*;
use vstd::string::{StrSliceExecFns, StringExecFns, StringSliceAdditionalSpecFns};
use vstd::utf8::encode_utf8;

verus! {

/// The characters of the Unicode property `White_Space`.
pub open spec fn is_white_space(c: char) -> bool {
    let n = c as u32;
    ||| 0x09 <= n <= 0x0d
    ||| n == 0x20
    ||| n == 0x85
    ||| n == 0xa0
    ||| n == 0x1680
    ||| 0x2000 <= n <= 0x200a
    ||| n == 0x2028
    ||| n == 0x2029
    ||| n == 0x202f
    ||| n == 0x205f
    ||| n == 0x3000
}

/// The part of `s` from `a` to `b` is `s` without the white space at its ends.
pub open spec fn is_trim(s: Seq<char>, a: int, b: int) -> bool {
    &&& 0 <= a <= b <= s.len()
    &&& forall|i: int| 0 <= i < a ==> is_white_space(#[trigger] s[i])
    &&& forall|i: int| b <= i < s.len() ==> is_white_space(#[trigger] s[i])
    &&& a < b ==> !is_white_space(s[a]) && !is_white_space(s[b - 1])
}

fn white_space(c: char) -> (r: bool)
    ensures
        r == is_white_space(c),
{
    let n = c as u32;
    (0x09 <= n && n <= 0x0d) || n == 0x20 || n == 0x85 || n == 0xa0 || n == 0x1680 || (0x2000 <= n && n
        <= 0x200a) || n == 0x2028 || n == 0x2029 || n == 0x202f || n == 0x205f || n == 0x3000
}

/// The text without the white space at its ends.
pub fn trim(s: &str) -> (r: &str)
    ensures
        exists|a: int, b: int| is_trim(s@, a, b) && r@ == #[trigger] s@.subrange(a, b),
{
    let n = s.unicode_len();
    let mut a: usize = 0;
    while a < n && white_space(s.get_char(a))
        invariant
            a <= n,
            n == s@.len(),
            forall|i: int| 0 <= i < a ==> is_white_space(#[trigger] s@[i]),
        decreases n - a,
    {
        a += 1;
    }
    let mut b: usize = n;
    while b > a && white_space(s.get_char(b - 1))
        invariant
            a <= b <= n,
            n == s@.len(),
            forall|i: int| b <= i < n ==> is_white_space(#[trigger] s@[i]),
        decreases b,
    {
        b -= 1;
    }
    assert(is_trim(s@, a as int, b as int));
    s.substring_char(a, b)
}

/// The pattern of a position in the text of a solution: two decimal numbers, each with an
/// optional minus sign, in round brackets with a comma between them.
pub open spec fn point_pattern() -> Seq<char> {
    "\\(-?\\d+,-?\\d+\\)"@
}

/// What `Regex::replace_all` of the regex crate returns for the regular expression
/// `pattern`, the text `haystack` and the replacement `replacement`; `None` where
/// `Regex::new` refuses the pattern.
pub uninterp spec fn replaced_all(pattern: Seq<char>, haystack: Seq<char>, replacement: Seq<char>) -> Option<
    Seq<char>,
>;

/// Compiles `pattern` with `regex::Regex::new` and replaces every match in `haystack` with
/// `regex::Regex::replace_all`.
///
/// Not proved: that the result is what `replaced_all` names. Nothing more is claimed of it.
#[verifier::external_body]
fn replace_all(pattern: &str, haystack: &str, replacement: &str) -> (r: Option<String>)
    ensures
        match r {
            Some(text) => replaced_all(pattern@, haystack@, replacement@) == Some(text@),
            None => replaced_all(pattern@, haystack@, replacement@) is None,
        },
{
    match regex::Regex::new(pattern) {
        Ok(re) => Some(re.replace_all(haystack, replacement).into_owned()),
        Err(_) => None,
    }
}

/// `m` is the greatest length of a field.
pub open spec fn is_longest(fields: Seq<Seq<u8>>, m: int) -> bool {
    &&& forall|i: int| 0 <= i < fields.len() ==> (#[trigger] fields[i]).len() <= m
    &&& exists|i: int| 0 <= i < fields.len() && (#[trigger] fields[i]).len() == m
}

/// The length in bytes of the longest of the logs in `text`, which are divided by `#`.
pub open spec fn longest_log(text: Seq<u8>) -> int {
    choose|m: int| is_longest(split_on(text, 35), m)
}

/// The length in bytes of the longest of the logs in `text`, which are divided by `#`.
pub fn score_of(text: &str) -> (r: usize)
    ensures
        is_longest(split_on(text.spec_bytes(), 35), r as int),
        r == longest_log(text.spec_bytes()),
{
    let b = text.as_bytes();
    assert(b@.subrange(0, b@.len() as int) =~= b@);
    let f = split_ranges(b, 0, b.len(), 35);
    let ghost fields = split_on(b@, 35);
    let n = f.len();
    let mut best: usize = f[0].1 - f[0].0;
    assert(fields[0].len() == best);
    let mut i: usize = 1;
    while i < n
        invariant
            1 <= i <= n,
            n == f@.len(),
            fields == pieces(b@, f@),
            forall|k: int| 0 <= k < f@.len() ==> (#[trigger] f@[k]).0 <= f@[k].1 <= b@.len(),
            forall|k: int| 0 <= k < i ==> (#[trigger] fields[k]).len() <= best,
            exists|k: int| 0 <= k < i && (#[trigger] fields[k]).len() == best,
        decreases n - i,
    {
        let len = f[i].1 - f[i].0;
        assert(fields[i as int].len() == len);
        let ghost w = choose|k: int| 0 <= k < i && (#[trigger] fields[k]).len() == best;
        if len > best {
            best = len;
        } else {
            assert(fields[w].len() == best);
        }
        i += 1;
    }
    proof {
        let m = longest_log(b@);
        assert(is_longest(fields, best as int));
        assert(is_longest(fields, m));
        let k1 = choose|k: int| 0 <= k < fields.len() && (#[trigger] fields[k]).len() == m;
        let k2 = choose|k: int| 0 <= k < fields.len() && (#[trigger] fields[k]).len() == best;
        assert(fields[k1].len() <= best);
        assert(fields[k2].len() <= m);
    }
    best
}

/// The solution that the text `text`, found under the name `filename`, holds for the arena
/// `id`. The score counts every action as one: the positions of new arms are taken out of
/// the trimmed text, and the longest log that stays is measured.
///
/// `None` where the positions cannot be taken out.
pub fn read_solution(id: u64, filename: &str, text: &str) -> (r: Option<Solution>)
    ensures
        match r {
            Some(found) => exists|a: int, b: int|
                {
                    &&& is_trim(text@, a, b)
                    &&& found.solution@ == #[trigger] text@.subrange(a, b)
                    &&& found.id == id
                    &&& found.filename@ == filename@
                    &&& replaced_all(point_pattern(), found.solution@, Seq::empty()) matches Some(stripped)
                        && found.score == longest_log(encode_utf8(stripped))
                },
            None => exists|a: int, b: int|
                is_trim(text@, a, b) && replaced_all(
                    point_pattern(),
                    #[trigger] text@.subrange(a, b),
                    Seq::empty(),
                ) is None,
        },
{
    let solution = trim(text);
    proof {
        reveal_strlit("");
    }
    assert(""@ =~= Seq::<char>::empty());
    match replace_all("\\(-?\\d+,-?\\d+\\)", solution, "") {
        Some(stripped) => {
            let score = score_of(stripped.as_str());
            Some(
                Solution {
                    id,
                    score,
                    solution: String::from_str(solution),
                    filename: String::from_str(filename),
                },
            )
        },
        None => None,
    }
}

/// How a score stands against the best score known.
#[derive(Copy, Clone, PartialEq, Eq, Structural, Debug)]
pub enum Standing {
    /// No best score is known.
    Unknown,
    /// The score is lower, which is better, than the best known.
    New,
    /// The score is the best known.
    Same,
    /// The score is higher than the best known.
    Behind,
}

/// How `score` stands against `best`.
pub open spec fn standing_of(score: int, best: Option<usize>) -> Standing {
    match best {
        None => Standing::Unknown,
        Some(b) => if score < b {
            Standing::New
        } else if score == b {
            Standing::Same
        } else {
            Standing::Behind
        },
    }
}

/// How `score` stands against `best`.
pub fn standing(score: usize, best: Option<usize>) -> (r: Standing)
    ensures
        r == standing_of(score as int, best),
{
    match best {
        None => Standing::Unknown,
        Some(b) => if score < b {
            Standing::New
        } else if score == b {
            Standing::Same
        } else {
            Standing::Behind
        },
    }
}

/// Whether a submitted solution takes the place of the best one: where none is known, or
/// where its score is lower.
pub fn replaces_best(submitted: usize, best: Option<usize>) -> (r: bool)
    ensures
        r == (standing_of(submitted as int, best) == Standing::Unknown || standing_of(
            submitted as int,
            best,
        ) == Standing::New),
{
    match best {
        None => true,
        Some(b) => submitted < b,
    }
}

} // verus!

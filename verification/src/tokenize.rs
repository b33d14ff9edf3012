//! Tokenization of natural-language text for the full-text index.
//!
//! A token is a maximal run of ASCII letters and digits, with letters folded
//! to lower case. Every other character separates tokens. `url` values are
//! never tokenized; only `title` and `body` text passes through here.

use vstd::prelude::*;

verus! {

/// Characters that may appear inside a token: ASCII letters and digits.
pub open spec fn is_word_char(c: char) -> bool {
    (97 <= c as u32 && c as u32 <= 122) || (65 <= c as u32 && c as u32 <= 90) || (48 <= c as u32
        && c as u32 <= 57)
}

/// ASCII lower-casing of one character; everything else is unchanged.
pub open spec fn lower_char(c: char) -> char {
    match c {
        'A' => 'a',
        'B' => 'b',
        'C' => 'c',
        'D' => 'd',
        'E' => 'e',
        'F' => 'f',
        'G' => 'g',
        'H' => 'h',
        'I' => 'i',
        'J' => 'j',
        'K' => 'k',
        'L' => 'l',
        'M' => 'm',
        'N' => 'n',
        'O' => 'o',
        'P' => 'p',
        'Q' => 'q',
        'R' => 'r',
        'S' => 's',
        'T' => 't',
        'U' => 'u',
        'V' => 'v',
        'W' => 'w',
        'X' => 'x',
        'Y' => 'y',
        'Z' => 'z',
        _ => c,
    }
}

/// The tokens of `s` from position `i` on, given that the characters of an
/// unfinished token read so far are `cur`.
pub open spec fn tokens_from(s: Seq<char>, i: int, cur: Seq<char>) -> Seq<Seq<char>>
    decreases s.len() - i,
{
    if i < 0 || i >= s.len() {
        if cur.len() == 0 {
            Seq::empty()
        } else {
            seq![cur]
        }
    } else if is_word_char(s[i]) {
        tokens_from(s, i + 1, cur.push(lower_char(s[i])))
    } else if cur.len() == 0 {
        tokens_from(s, i + 1, cur)
    } else {
        seq![cur] + tokens_from(s, i + 1, Seq::empty())
    }
}

/// The token sequence of a text: maximal lower-cased alphanumeric runs,
/// in order of appearance, duplicates kept.
pub open spec fn spec_tokens(s: Seq<char>) -> Seq<Seq<char>> {
    tokens_from(s, 0, Seq::empty())
}

fn word_char(c: char) -> (r: bool)
    ensures
        r == is_word_char(c),
{
    let u = c as u32;
    (97 <= u && u <= 122) || (65 <= u && u <= 90) || (48 <= u && u <= 57)
}

fn to_lower(c: char) -> (r: char)
    ensures
        r == lower_char(c),
{
    match c {
        'A' => 'a',
        'B' => 'b',
        'C' => 'c',
        'D' => 'd',
        'E' => 'e',
        'F' => 'f',
        'G' => 'g',
        'H' => 'h',
        'I' => 'i',
        'J' => 'j',
        'K' => 'k',
        'L' => 'l',
        'M' => 'm',
        'N' => 'n',
        'O' => 'o',
        'P' => 'p',
        'Q' => 'q',
        'R' => 'r',
        'S' => 's',
        'T' => 't',
        'U' => 'u',
        'V' => 'v',
        'W' => 'w',
        'X' => 'x',
        'Y' => 'y',
        'Z' => 'z',
        _ => c,
    }
}

/// Split a text into its tokens.
pub fn tokenize(s: &str) -> (r: Vec<Vec<char>>)
    ensures
        r.deep_view() == spec_tokens(s@),
{
    let n = s.unicode_len();
    let mut out: Vec<Vec<char>> = Vec::new();
    let mut cur: Vec<char> = Vec::new();
    let mut i: usize = 0;
    proof {
        assert(out.deep_view() =~= Seq::<Seq<char>>::empty());
        assert(out.deep_view() + tokens_from(s@, 0, cur@) =~= tokens_from(s@, 0, cur@));
    }
    while i < n
        invariant
            n == s@.len(),
            i <= n,
            spec_tokens(s@) == out.deep_view() + tokens_from(s@, i as int, cur@),
        decreases n - i,
    {
        let c = s.get_char(i);
        let ghost prev_out = out.deep_view();
        let ghost prev_cur = cur@;
        if word_char(c) {
            cur.push(to_lower(c));
            proof {
                assert(tokens_from(s@, i as int, prev_cur) == tokens_from(
                    s@,
                    i + 1,
                    prev_cur.push(lower_char(c)),
                ));
            }
        } else if cur.len() == 0 {
            proof {
                assert(tokens_from(s@, i as int, prev_cur) == tokens_from(s@, i + 1, prev_cur));
            }
        } else {
            out.push(cur);
            cur = Vec::new();
            proof {
                assert(out.deep_view() =~~= prev_out.push(prev_cur));
                assert(tokens_from(s@, i as int, prev_cur) == seq![prev_cur] + tokens_from(
                    s@,
                    i + 1,
                    Seq::empty(),
                ));
                assert(prev_out + (seq![prev_cur] + tokens_from(s@, i + 1, Seq::empty()))
                    =~= out.deep_view() + tokens_from(s@, i + 1, cur@));
            }
        }
        i += 1;
    }
    if cur.len() > 0 {
        let ghost prev_out = out.deep_view();
        let ghost prev_cur = cur@;
        out.push(cur);
        proof {
            assert(out.deep_view() =~~= prev_out.push(prev_cur));
            assert(tokens_from(s@, n as int, prev_cur) == seq![prev_cur]);
            assert(prev_out + seq![prev_cur] =~= out.deep_view());
        }
    } else {
        proof {
            assert(tokens_from(s@, n as int, cur@) == Seq::<Seq<char>>::empty());
            assert(out.deep_view() + Seq::<Seq<char>>::empty() =~= out.deep_view());
        }
    }
    out
}

/// Element-wise equality of two tokens.
pub fn token_eq(a: &Vec<char>, b: &Vec<char>) -> (r: bool)
    ensures
        r == (a@ == b@),
{
    if a.len() != b.len() {
        return false;
    }
    let mut i: usize = 0;
    while i < a.len()
        invariant
            a@.len() == b@.len(),
            i <= a@.len(),
            forall|j: int| 0 <= j < i ==> a@[j] == b@[j],
        decreases a@.len() - i,
    {
        if a[i] != b[i] {
            return false;
        }
        i += 1;
    }
    proof {
        assert(a@ =~= b@);
    }
    true
}

/// Whether the token list `ts` holds the token `t`.
pub fn contains_token(ts: &Vec<Vec<char>>, t: &Vec<char>) -> (r: bool)
    ensures
        r == ts.deep_view().contains(t@),
{
    let mut i: usize = 0;
    while i < ts.len()
        invariant
            i <= ts@.len(),
            forall|j: int| 0 <= j < i ==> ts.deep_view()[j] != t@,
        decreases ts@.len() - i,
    {
        if token_eq(&ts[i], t) {
            proof {
                assert(ts.deep_view()[i as int] == t@);
            }
            return true;
        }
        proof {
            assert(ts.deep_view()[i as int] == ts@[i as int]@);
        }
        i += 1;
    }
    proof {
        assert(forall|j: int| 0 <= j < ts.deep_view().len() ==> ts.deep_view()[j] != t@);
    }
    false
}

} // verus!

//! Per-letter feedback for one guess against one answer, packed into a byte.
//!
//! Each of the five positions is classified as absent, present or correct;
//! the five classifications are base-3 digits (weights 1, 3, 9, 27, 81)
//! summed into a single byte in the range 0..=242.

use vstd::prelude::*;
use vstd::string::StringExecFns;

verus! {

/// Packed feedback code: five base-3 digits summed with weights 1, 3, 9, 27, 81.
#[derive(Clone, Copy, PartialEq, Eq, Structural, Hash, Debug)]
pub struct WordMatch(pub u8);

/// Number of positions `k < n` where the answer holds letter `c` and the guess
/// does not match the answer exactly at `k`: how many copies of `c` the answer
/// can still reveal as "present".
pub open spec fn avail_count(guess: Seq<u8>, answer: Seq<u8>, c: u8, n: int) -> int
    decreases n,
{
    if n <= 0 {
        0
    } else {
        avail_count(guess, answer, c, n - 1) + if answer[n - 1] == c && guess[n - 1] != answer[n
            - 1] {
            1int
        } else {
            0int
        }
    }
}

/// Availability of letter `c`, saturated at two occurrences.
pub open spec fn capped_avail(guess: Seq<u8>, answer: Seq<u8>, c: u8) -> int {
    if avail_count(guess, answer, c, 5) < 2 {
        avail_count(guess, answer, c, 5)
    } else {
        2
    }
}

/// Number of positions `j < n` already marked "present" that consumed a copy
/// of letter `c`.
pub open spec fn used_count(guess: Seq<u8>, answer: Seq<u8>, c: u8, n: int) -> int
    decreases n, 0int,
{
    if n <= 0 {
        0
    } else {
        used_count(guess, answer, c, n - 1) + if guess[n - 1] == c && digit_at(
            guess,
            answer,
            n - 1,
        ) == 1 {
            1int
        } else {
            0int
        }
    }
}

/// The base-3 feedback digit at position `i`: 2 when the guess letter is
/// correct, 1 when a copy of it is still available among the answer's
/// unmatched letters, 0 otherwise.
pub open spec fn digit_at(guess: Seq<u8>, answer: Seq<u8>, i: int) -> int
    decreases i, 1int,
{
    if guess[i] == answer[i] {
        2
    } else if used_count(guess, answer, guess[i], i) < capped_avail(guess, answer, guess[i]) {
        1
    } else {
        0
    }
}

/// The packed feedback code for a guess against an answer.
pub open spec fn spec_feedback(guess: Seq<u8>, answer: Seq<u8>) -> int {
    digit_at(guess, answer, 0) + digit_at(guess, answer, 1) * 3 + digit_at(guess, answer, 2) * 9
        + digit_at(guess, answer, 3) * 27 + digit_at(guess, answer, 4) * 81
}

/// Weight of position `i` in the packed code.
pub open spec fn pow3(i: int) -> int {
    if i == 0 {
        1
    } else if i == 1 {
        3
    } else if i == 2 {
        9
    } else if i == 3 {
        27
    } else {
        81
    }
}

/// The base-3 digit that position `i` of a packed code decodes to.
pub open spec fn code_digit(code: int, i: int) -> int {
    (code / pow3(i)) % 3
}

/// The display letter for one feedback digit: `a` absent, `p` present,
/// `c` correct.
pub open spec fn render_char(d: int) -> char {
    if d == 0 {
        'a'
    } else if d == 1 {
        'p'
    } else {
        'c'
    }
}

/// The five-letter rendering of a packed code.
pub open spec fn spec_render(code: int) -> Seq<char> {
    Seq::new(5, |i: int| render_char(code_digit(code, i)))
}

proof fn lemma_digit_bounds(guess: Seq<u8>, answer: Seq<u8>, i: int)
    ensures
        0 <= digit_at(guess, answer, i) <= 2,
{
}

/// Every feedback code lies in 0..=242.
pub proof fn lemma_feedback_bounds(guess: Seq<u8>, answer: Seq<u8>)
    ensures
        0 <= spec_feedback(guess, answer) <= 242,
{
    lemma_digit_bounds(guess, answer, 0);
    lemma_digit_bounds(guess, answer, 1);
    lemma_digit_bounds(guess, answer, 2);
    lemma_digit_bounds(guess, answer, 3);
    lemma_digit_bounds(guess, answer, 4);
}

/// Guessing the answer itself yields the all-correct code 242.
pub proof fn lemma_feedback_self(w: Seq<u8>)
    ensures
        spec_feedback(w, w) == 242,
{
    assert(digit_at(w, w, 0) == 2);
    assert(digit_at(w, w, 1) == 2);
    assert(digit_at(w, w, 2) == 2);
    assert(digit_at(w, w, 3) == 2);
    assert(digit_at(w, w, 4) == 2);
}

/// Conversely, only the answer itself yields 242: the all-correct code pins
/// every letter.
pub proof fn lemma_feedback_correct_only_self(guess: Seq<u8>, answer: Seq<u8>)
    requires
        guess.len() == 5,
        answer.len() == 5,
        spec_feedback(guess, answer) == 242,
    ensures
        guess =~= answer,
{
    lemma_digit_bounds(guess, answer, 0);
    lemma_digit_bounds(guess, answer, 1);
    lemma_digit_bounds(guess, answer, 2);
    lemma_digit_bounds(guess, answer, 3);
    lemma_digit_bounds(guess, answer, 4);
    assert(digit_at(guess, answer, 0) == 2);
    assert(digit_at(guess, answer, 1) == 2);
    assert(digit_at(guess, answer, 2) == 2);
    assert(digit_at(guess, answer, 3) == 2);
    assert(digit_at(guess, answer, 4) == 2);
}

/// A packed code decodes, digit by digit, back to the five classification
/// digits it was built from; in particular every code is a valid five-digit
/// base-3 number.
pub proof fn lemma_feedback_decodes(guess: Seq<u8>, answer: Seq<u8>)
    ensures
        forall|i: int|
            0 <= i < 5 ==> #[trigger] code_digit(spec_feedback(guess, answer), i) == digit_at(
                guess,
                answer,
                i,
            ),
{
    let d0 = digit_at(guess, answer, 0);
    let d1 = digit_at(guess, answer, 1);
    let d2 = digit_at(guess, answer, 2);
    let d3 = digit_at(guess, answer, 3);
    let d4 = digit_at(guess, answer, 4);
    lemma_digit_bounds(guess, answer, 0);
    lemma_digit_bounds(guess, answer, 1);
    lemma_digit_bounds(guess, answer, 2);
    lemma_digit_bounds(guess, answer, 3);
    lemma_digit_bounds(guess, answer, 4);
    let code = spec_feedback(guess, answer);
    assert(code_digit(code, 0) == d0) by (nonlinear_arith)
        requires
            code == d0 + d1 * 3 + d2 * 9 + d3 * 27 + d4 * 81,
            0 <= d0 <= 2,
            0 <= d1 <= 2,
            0 <= d2 <= 2,
            0 <= d3 <= 2,
            0 <= d4 <= 2,
            code_digit(code, 0) == code % 3,
    ;
    assert(code_digit(code, 1) == d1) by (nonlinear_arith)
        requires
            code == d0 + d1 * 3 + d2 * 9 + d3 * 27 + d4 * 81,
            0 <= d0 <= 2,
            0 <= d1 <= 2,
            0 <= d2 <= 2,
            0 <= d3 <= 2,
            0 <= d4 <= 2,
            code_digit(code, 1) == (code / 3) % 3,
    ;
    assert(code_digit(code, 2) == d2) by (nonlinear_arith)
        requires
            code == d0 + d1 * 3 + d2 * 9 + d3 * 27 + d4 * 81,
            0 <= d0 <= 2,
            0 <= d1 <= 2,
            0 <= d2 <= 2,
            0 <= d3 <= 2,
            0 <= d4 <= 2,
            code_digit(code, 2) == (code / 9) % 3,
    ;
    assert(code_digit(code, 3) == d3) by (nonlinear_arith)
        requires
            code == d0 + d1 * 3 + d2 * 9 + d3 * 27 + d4 * 81,
            0 <= d0 <= 2,
            0 <= d1 <= 2,
            0 <= d2 <= 2,
            0 <= d3 <= 2,
            0 <= d4 <= 2,
            code_digit(code, 3) == (code / 27) % 3,
    ;
    assert(code_digit(code, 4) == d4) by (nonlinear_arith)
        requires
            code == d0 + d1 * 3 + d2 * 9 + d3 * 27 + d4 * 81,
            0 <= d0 <= 2,
            0 <= d1 <= 2,
            0 <= d2 <= 2,
            0 <= d3 <= 2,
            0 <= d4 <= 2,
            code_digit(code, 4) == (code / 81) % 3,
    ;
}

/// Availability of letter `c` among the answer's unmatched positions, capped
/// at two occurrences.
fn letter_cap(guess: &[u8; 5], answer: &[u8; 5], c: u8) -> (r: u8)
    ensures
        r == capped_avail(guess@, answer@, c),
{
    let mut count: u8 = 0;
    for k in 0..5
        invariant
            count == avail_count(guess@, answer@, c, k as int),
            count <= k,
    {
        if answer[k] == c && guess[k] != answer[k] {
            count = count + 1;
        }
    }
    if count < 2 {
        count
    } else {
        2
    }
}

/// How many earlier positions were marked "present" for letter `c`.
fn used_before(guess: &[u8; 5], answer: &[u8; 5], c: u8, i: usize) -> (r: u8)
    requires
        i <= 5,
    ensures
        r == used_count(guess@, answer@, c, i as int),
        r <= i,
    decreases i, 0int,
{
    if i == 0 {
        0
    } else {
        let prev = used_before(guess, answer, c, i - 1);
        if guess[i - 1] == c && feedback_digit(guess, answer, i - 1) == 1 {
            prev + 1
        } else {
            prev
        }
    }
}

/// The feedback digit at position `i`, following the two-pass rule: exact
/// matches first, then "present" marks while capped availability lasts.
fn feedback_digit(guess: &[u8; 5], answer: &[u8; 5], i: usize) -> (r: u8)
    requires
        i < 5,
    ensures
        r == digit_at(guess@, answer@, i as int),
        r <= 2,
    decreases i, 1int,
{
    if guess[i] == answer[i] {
        2
    } else {
        let used = used_before(guess, answer, guess[i], i);
        let cap = letter_cap(guess, answer, guess[i]);
        if used < cap {
            1
        } else {
            0
        }
    }
}

impl WordMatch {
    /// Computes the feedback for `guess` against `answer`.
    pub fn from(guess: [u8; 5], answer: [u8; 5]) -> (r: WordMatch)
        ensures
            r.0 == spec_feedback(guess@, answer@),
            r.0 <= 242,
    {
        let d0 = feedback_digit(&guess, &answer, 0);
        let d1 = feedback_digit(&guess, &answer, 1);
        let d2 = feedback_digit(&guess, &answer, 2);
        let d3 = feedback_digit(&guess, &answer, 3);
        let d4 = feedback_digit(&guess, &answer, 4);
        WordMatch(d0 + d1 * 3 + d2 * 9 + d3 * 27 + d4 * 81)
    }

    /// The decoded base-3 digit at position `idx`.
    pub fn digit(&self, idx: usize) -> (d: u8)
        requires
            idx < 5,
        ensures
            d == code_digit(self.0 as int, idx as int),
            d <= 2,
    {
        let p: u8 = if idx == 0 {
            1
        } else if idx == 1 {
            3
        } else if idx == 2 {
            9
        } else if idx == 3 {
            27
        } else {
            81
        };
        (self.0 / p) % 3
    }

    /// Renders the code as five letters, one of `a`, `p` or `c` per position.
    pub fn to_string(&self) -> (s: String)
        ensures
            s@ == spec_render(self.0 as int),
    {
        let mut s = String::new();
        proof {
            reveal_strlit("a");
            reveal_strlit("p");
            reveal_strlit("c");
        }
        for i in 0..5usize
            invariant
                s@.len() == i,
                forall|j: int|
                    0 <= j < i ==> #[trigger] s@[j] == render_char(code_digit(self.0 as int, j)),
        {
            let d = self.digit(i);
            if d == 0 {
                s.append("a");
            } else if d == 1 {
                s.append("p");
            } else {
                s.append("c");
            }
            proof {
                reveal_strlit("a");
                reveal_strlit("p");
                reveal_strlit("c");
            }
        }
        proof {
            assert(s@ =~= spec_render(self.0 as int));
        }
        s
    }
}

} // verus!

//! Word dictionaries: ordered, append-only collections of five-letter words,
//! with partition-by-feedback as the central operation.

use crate::word_match::{spec_feedback, lemma_feedback_bounds, WordMatch};
use vstd::prelude::*;

verus! {

/// An ordered collection of five-letter words, append-only during
/// construction.
pub struct WordDictionary {
    words: Vec<[u8; 5]>,
}

impl View for WordDictionary {
    type V = Seq<[u8; 5]>;

    closed spec fn view(&self) -> Seq<[u8; 5]> {
        self.words@
    }
}

/// The words of `words` that `guess` maps to feedback code `c`, in source
/// order.
pub open spec fn bucket_of(words: Seq<[u8; 5]>, guess: [u8; 5], c: int) -> Seq<[u8; 5]> {
    words.filter(|w: [u8; 5]| spec_feedback(guess@, w@) == c)
}

/// All 243 feedback buckets of `words` under `guess`.
pub open spec fn buckets_of(words: Seq<[u8; 5]>, guess: [u8; 5]) -> Seq<Seq<[u8; 5]>> {
    Seq::new(243, |c: int| bucket_of(words, guess, c))
}

/// 1 when the all-correct bucket of `words` under `guess` is non-empty,
/// else 0.
pub open spec fn correct_flag(words: Seq<[u8; 5]>, guess: [u8; 5]) -> int {
    if bucket_of(words, guess, 242).len() > 0 {
        1
    } else {
        0
    }
}

/// `p` is exactly the family of feedback buckets of `words` under `guess`.
pub open spec fn is_partition_of(p: Seq<Seq<[u8; 5]>>, words: Seq<[u8; 5]>, guess: [u8; 5]) -> bool {
    &&& p.len() == 243
    &&& forall|c: int| 0 <= c < 243 ==> p[c] == bucket_of(words, guess, c)
}

/// Sum of the lengths of the first `n` buckets.
pub open spec fn total_len<A>(p: Seq<Seq<A>>, n: int) -> int
    decreases n,
{
    if n <= 0 {
        0
    } else {
        total_len(p, n - 1) + p[n - 1].len()
    }
}

/// Number of the first `n` buckets that are non-empty.
pub open spec fn nonempty_count<A>(p: Seq<Seq<A>>, n: int) -> int
    decreases n,
{
    if n <= 0 {
        0
    } else {
        nonempty_count(p, n - 1) + if p[n - 1].len() > 0 {
            1int
        } else {
            0int
        }
    }
}

/// Length of the longest of the first `n` buckets.
pub open spec fn max_bucket_len<A>(p: Seq<Seq<A>>, n: int) -> int
    decreases n,
{
    if n <= 0 {
        0
    } else {
        let m = max_bucket_len(p, n - 1);
        if p[n - 1].len() > m {
            p[n - 1].len() as int
        } else {
            m
        }
    }
}

/// The non-empty bucket count lies between 0 and `n`.
pub proof fn lemma_nonempty_count_bounds<A>(p: Seq<Seq<A>>, n: int)
    requires
        n >= 0,
    ensures
        0 <= nonempty_count(p, n) <= n,
    decreases n,
{
    if n > 0 {
        lemma_nonempty_count_bounds(p, n - 1);
    }
}

/// A non-empty bucket makes the non-empty bucket count positive.
pub proof fn lemma_nonempty_count_positive<A>(p: Seq<Seq<A>>, c: int, n: int)
    requires
        0 <= c < n,
        p[c].len() > 0,
    ensures
        nonempty_count(p, n) >= 1,
    decreases n,
{
    lemma_nonempty_count_bounds(p, n - 1);
    if c < n - 1 {
        lemma_nonempty_count_positive(p, c, n - 1);
    }
}

/// Number of the first `n` buckets that are non-empty, leaving the
/// all-correct bucket out: buckets that still need a distinguishing guess.
pub open spec fn informative_count<A>(p: Seq<Seq<A>>, n: int) -> int
    decreases n,
{
    if n <= 0 {
        0
    } else {
        informative_count(p, n - 1) + if p[n - 1].len() > 0 && n - 1 != 242 {
            1int
        } else {
            0int
        }
    }
}

/// Below the all-correct code, informative and non-empty counts agree.
pub proof fn lemma_informative_prefix<A>(p: Seq<Seq<A>>, n: int)
    requires
        n <= 242,
    ensures
        informative_count(p, n) == nonempty_count(p, n),
    decreases n,
{
    if n > 0 {
        lemma_informative_prefix(p, n - 1);
    }
}

/// The non-empty buckets split into the informative ones and, possibly, the
/// all-correct one.
pub proof fn lemma_informative_split<A>(p: Seq<Seq<A>>)
    ensures
        nonempty_count(p, 243) == informative_count(p, 243) + if p[242].len() > 0 {
            1int
        } else {
            0int
        },
{
    lemma_informative_prefix(p, 242);
}

proof fn lemma_zero_nonempty_total<A>(p: Seq<Seq<A>>, n: int)
    requires
        n >= 0,
        nonempty_count(p, n) == 0,
    ensures
        total_len(p, n) == 0,
    decreases n,
{
    if n > 0 {
        lemma_nonempty_count_bounds(p, n - 1);
        lemma_zero_nonempty_total(p, n - 1);
    }
}

/// With a single non-empty bucket, the total length is that bucket's length.
pub proof fn lemma_single_bucket_total<A>(p: Seq<Seq<A>>, c: int, n: int)
    requires
        0 <= c < n,
        p[c].len() > 0,
        nonempty_count(p, n) <= 1,
    ensures
        total_len(p, n) == p[c].len(),
    decreases n,
{
    lemma_nonempty_count_bounds(p, n - 1);
    if c == n - 1 {
        lemma_zero_nonempty_total(p, n - 1);
    } else {
        lemma_nonempty_count_positive(p, c, n - 1);
        lemma_single_bucket_total(p, c, n - 1);
    }
}

/// When every bucket holds at most one word, the total length equals the
/// number of non-empty buckets.
pub proof fn lemma_singleton_buckets_total<A>(p: Seq<Seq<A>>, n: int)
    requires
        forall|c: int| 0 <= c < n ==> (#[trigger] p[c]).len() <= 1,
    ensures
        total_len(p, n) == nonempty_count(p, n),
    decreases n,
{
    if n > 0 {
        lemma_singleton_buckets_total(p, n - 1);
    }
}

/// Every member of a feedback bucket comes from the partitioned word set.
pub proof fn lemma_bucket_member_of(words: Seq<[u8; 5]>, guess: [u8; 5], c: int, k: int)
    requires
        0 <= k < bucket_of(words, guess, c).len(),
    ensures
        words.contains(bucket_of(words, guess, c)[k]),
    decreases words.len(),
{
    reveal(Seq::filter);
    if words.len() > 0 {
        let prev = words.drop_last();
        let b = bucket_of(words, guess, c);
        let bp = bucket_of(prev, guess, c);
        if k < bp.len() {
            lemma_bucket_member_of(prev, guess, c, k);
            let i = choose|i: int| 0 <= i < prev.len() && prev[i] == bp[k];
            assert(words[i] == b[k]);
        } else {
            assert(words[words.len() - 1] == b[k]);
        }
    }
}

/// A word of the set appears in the bucket its feedback selects.
pub proof fn lemma_bucket_has_member(words: Seq<[u8; 5]>, guess: [u8; 5], i: int)
    requires
        0 <= i < words.len(),
    ensures
        ({
            let c = spec_feedback(guess@, words[i]@);
            bucket_of(words, guess, c).contains(words[i])
        }),
{
    let c = spec_feedback(guess@, words[i]@);
    words.lemma_filter_contains(|w: [u8; 5]| spec_feedback(guess@, w@) == c, i);
}

/// No bucket is longer than the longest bucket.
pub proof fn lemma_max_bucket_len_ge<A>(p: Seq<Seq<A>>, c: int, n: int)
    requires
        0 <= c < n,
    ensures
        p[c].len() <= max_bucket_len(p, n),
    decreases n,
{
    if c < n - 1 {
        lemma_max_bucket_len_ge(p, c, n - 1);
    }
}

/// Buckets holding words exist: a positive total makes some bucket
/// non-empty.
pub proof fn lemma_total_pos_nonempty<A>(p: Seq<Seq<A>>, n: int)
    requires
        total_len(p, n) > 0,
    ensures
        nonempty_count(p, n) >= 1,
    decreases n,
{
    if n > 0 {
        if p[n - 1].len() > 0 {
            lemma_nonempty_count_bounds(p, n - 1);
        } else {
            lemma_total_pos_nonempty(p, n - 1);
        }
    }
}

/// Appending one word extends exactly the bucket its feedback selects.
proof fn lemma_bucket_push(words: Seq<[u8; 5]>, w: [u8; 5], guess: [u8; 5], c: int)
    ensures
        bucket_of(words.push(w), guess, c) == if spec_feedback(guess@, w@) == c {
            bucket_of(words, guess, c).push(w)
        } else {
            bucket_of(words, guess, c)
        },
{
    reveal(Seq::filter);
    assert(words.push(w).drop_last() =~= words);
    assert(words.push(w).last() == w);
}

proof fn lemma_total_len_zero<A>(p: Seq<Seq<A>>, n: int)
    requires
        forall|c: int| 0 <= c < n ==> p[c].len() == 0,
    ensures
        total_len(p, n) == 0,
    decreases n,
{
    if n > 0 {
        lemma_total_len_zero(p, n - 1);
    }
}

proof fn lemma_total_len_pointwise<A>(p: Seq<Seq<A>>, q: Seq<Seq<A>>, cstar: int, n: int)
    requires
        forall|c: int|
            0 <= c < n ==> q[c].len() == p[c].len() + if c == cstar {
                1int
            } else {
                0int
            },
    ensures
        total_len(q, n) == total_len(p, n) + if 0 <= cstar < n {
            1int
        } else {
            0int
        },
    decreases n,
{
    if n > 0 {
        lemma_total_len_pointwise(p, q, cstar, n - 1);
    }
}

/// The bucket lengths of a partition sum to the length of the partitioned
/// word set: the buckets are exhaustive and share no slot.
pub proof fn lemma_partition_sum(words: Seq<[u8; 5]>, guess: [u8; 5])
    ensures
        total_len(buckets_of(words, guess), 243) == words.len(),
    decreases words.len(),
{
    if words.len() == 0 {
        assert forall|c: int| 0 <= c < 243 implies buckets_of(words, guess)[c].len() == 0 by {
            reveal(Seq::filter);
        }
        lemma_total_len_zero(buckets_of(words, guess), 243);
    } else {
        let prev = words.drop_last();
        let w = words.last();
        lemma_partition_sum(prev, guess);
        let cstar = spec_feedback(guess@, w@);
        lemma_feedback_bounds(guess@, w@);
        assert(prev.push(w) =~= words);
        assert forall|c: int|
            0 <= c < 243 implies buckets_of(words, guess)[c].len() == buckets_of(prev, guess)[c].len()
            + if c == cstar {
            1int
        } else {
            0int
        } by {
            lemma_bucket_push(prev, w, guess, c);
        }
        lemma_total_len_pointwise(buckets_of(prev, guess), buckets_of(words, guess), cstar, 243);
    }
}

/// Every member of bucket `c` has feedback `c` against the guess, and a word
/// never sits in two distinct buckets.
pub proof fn lemma_partition_members(words: Seq<[u8; 5]>, guess: [u8; 5])
    ensures
        forall|c: int, k: int|
            0 <= c < 243 && 0 <= k < bucket_of(words, guess, c).len() ==> spec_feedback(
                guess@,
                #[trigger] bucket_of(words, guess, c)[k]@,
            ) == c,
        forall|c1: int, c2: int, w: [u8; 5]|
            0 <= c1 < 243 && 0 <= c2 < 243 && c1 != c2 && #[trigger] bucket_of(
                words,
                guess,
                c1,
            ).contains(w) ==> !(#[trigger] bucket_of(words, guess, c2).contains(w)),
{
    assert forall|c: int, k: int|
        0 <= c < 243 && 0 <= k < bucket_of(words, guess, c).len() implies spec_feedback(
        guess@,
        #[trigger] bucket_of(words, guess, c)[k]@,
    ) == c by {
        words.lemma_filter_pred(|w: [u8; 5]| spec_feedback(guess@, w@) == c, k);
    }
    assert forall|c1: int, c2: int, w: [u8; 5]|
        0 <= c1 < 243 && 0 <= c2 < 243 && c1 != c2 && #[trigger] bucket_of(
        words,
        guess,
        c1,
    ).contains(w) implies !(#[trigger] bucket_of(words, guess, c2).contains(w)) by {
        let k1 = choose|k: int|
            0 <= k < bucket_of(words, guess, c1).len() && bucket_of(words, guess, c1)[k] == w;
        words.lemma_filter_pred(|w: [u8; 5]| spec_feedback(guess@, w@) == c1, k1);
        if bucket_of(words, guess, c2).contains(w) {
            let k2 = choose|k: int|
                0 <= k < bucket_of(words, guess, c2).len() && bucket_of(words, guess, c2)[k] == w;
            words.lemma_filter_pred(|w: [u8; 5]| spec_feedback(guess@, w@) == c2, k2);
        }
    }
}

/// Only the guess itself lands in the all-correct bucket: its members are
/// all equal to the guess word.
pub proof fn lemma_correct_bucket_members(words: Seq<[u8; 5]>, guess: [u8; 5])
    ensures
        forall|k: int|
            0 <= k < bucket_of(words, guess, 242).len() ==> #[trigger] bucket_of(
                words,
                guess,
                242,
            )[k] == guess,
{
    lemma_partition_members(words, guess);
    assert forall|k: int|
        0 <= k < bucket_of(words, guess, 242).len() implies #[trigger] bucket_of(
        words,
        guess,
        242,
    )[k] == guess by {
        let w = bucket_of(words, guess, 242)[k];
        crate::word_match::lemma_feedback_correct_only_self(guess@, w@);
        assert(guess =~= w);
    }
}

/// Partitioning is a pure function: any two partitions of the same word set
/// by the same guess have identical bucket structure.
pub proof fn lemma_partition_pure(
    p: Seq<Seq<[u8; 5]>>,
    q: Seq<Seq<[u8; 5]>>,
    words: Seq<[u8; 5]>,
    guess: [u8; 5],
)
    requires
        is_partition_of(p, words, guess),
        is_partition_of(q, words, guess),
    ensures
        p =~= q,
{
}

/// The feedback partition of a word set: bucket `c` holds, in source order,
/// the words the guess maps to code `c`.
pub struct Partition {
    buckets: Vec<WordDictionary>,
}

impl View for Partition {
    type V = Seq<Seq<[u8; 5]>>;

    closed spec fn view(&self) -> Seq<Seq<[u8; 5]>> {
        self.buckets@.map(|i: int, d: WordDictionary| d@)
    }
}

impl Partition {
    /// The bucket keyed by feedback code `c`.
    pub fn bucket(&self, c: usize) -> (r: &WordDictionary)
        requires
            c < 243,
            self@.len() == 243,
        ensures
            r@ == self@[c as int],
    {
        &self.buckets[c]
    }

    /// How many buckets are non-empty.
    pub fn nonempty_buckets(&self) -> (r: usize)
        requires
            self@.len() == 243,
        ensures
            r == nonempty_count(self@, 243),
    {
        let mut count: usize = 0;
        for c in 0..243usize
            invariant
                self@.len() == 243,
                count == nonempty_count(self@, c as int),
                count <= c,
        {
            if self.buckets[c].len() > 0 {
                count = count + 1;
            }
        }
        count
    }

    /// The length of the largest bucket.
    pub fn max_len(&self) -> (r: usize)
        requires
            self@.len() == 243,
        ensures
            r == max_bucket_len(self@, 243),
    {
        let mut m: usize = 0;
        for c in 0..243usize
            invariant
                self@.len() == 243,
                m == max_bucket_len(self@, c as int),
        {
            let l = self.buckets[c].len();
            if l > m {
                m = l;
            }
        }
        m
    }
}

/// Element-wise equality of two five-letter words.
pub fn eq_word(a: &[u8; 5], b: &[u8; 5]) -> (r: bool)
    ensures
        r <==> (a@ == b@),
{
    let r = a[0] == b[0] && a[1] == b[1] && a[2] == b[2] && a[3] == b[3] && a[4] == b[4];
    if r {
        assert(a@ =~= b@);
    }
    r
}

impl WordDictionary {
    /// Builds a dictionary from a flat, concatenated list of five-letter
    /// words. A length that is not a multiple of five is a construction
    /// contract violation and is excluded up front.
    pub fn new(words: &[u8]) -> (r: Self)
        requires
            words@.len() % 5 == 0,
        ensures
            r@.len() * 5 == words@.len(),
            forall|i: int| 0 <= i < r@.len() ==> #[trigger] r@[i]@ == words@.subrange(5 * i, 5 * i + 5),
    {
        let n = words.len() / 5;
        let mut out: Vec<[u8; 5]> = Vec::with_capacity(n);
        for i in 0..n
            invariant
                n == words@.len() / 5,
                words@.len() % 5 == 0,
                words@.len() <= usize::MAX,
                out@.len() == i,
                forall|j: int|
                    0 <= j < i ==> #[trigger] out@[j]@ == words@.subrange(5 * j, 5 * j + 5),
        {
            proof {
                vstd::arithmetic::div_mod::lemma_fundamental_div_mod(words@.len() as int, 5);
                assert(5 * (i as int) + 5 <= words@.len());
            }
            let w: [u8; 5] = [
                words[5 * i],
                words[5 * i + 1],
                words[5 * i + 2],
                words[5 * i + 3],
                words[5 * i + 4],
            ];
            assert(w@ =~= words@.subrange(5 * i as int, 5 * i as int + 5));
            out.push(w);
        }
        WordDictionary { words: out }
    }

    /// An empty dictionary with room reserved for `cap` words.
    pub fn with_capacity(cap: usize) -> (r: Self)
        ensures
            r@ =~= Seq::<[u8; 5]>::empty(),
    {
        WordDictionary { words: Vec::with_capacity(cap) }
    }

    /// Appends one word.
    pub fn push(&mut self, word: [u8; 5])
        ensures
            final(self)@ == old(self)@.push(word),
    {
        self.words.push(word);
    }

    /// Number of words held.
    pub fn len(&self) -> (r: usize)
        ensures
            r == self@.len(),
    {
        self.words.len()
    }

    /// The word at position `idx`.
    pub fn word(&self, idx: usize) -> (r: [u8; 5])
        requires
            idx < self@.len(),
        ensures
            r == self@[idx as int],
    {
        self.words[idx]
    }

    /// Position of the first occurrence of `word`, if any.
    pub fn index_of(&self, word: [u8; 5]) -> (r: Option<usize>)
        ensures
            match r {
                Some(i) => i < self@.len() && self@[i as int]@ == word@ && forall|j: int|
                    0 <= j < i ==> self@[j]@ != word@,
                None => forall|j: int| 0 <= j < self@.len() ==> self@[j]@ != word@,
            },
    {
        for i in 0..self.words.len()
            invariant
                forall|j: int| 0 <= j < i ==> self@[j]@ != word@,
        {
            if eq_word(&self.words[i], &word) {
                return Some(i);
            }
        }
        None
    }

    /// Splits the dictionary into its 243 feedback buckets under `guess`.
    pub fn partition(&self, guess: [u8; 5]) -> (r: Partition)
        ensures
            is_partition_of(r@, self@, guess),
    {
        let n = self.words.len();
        let mut buckets: Vec<WordDictionary> = Vec::with_capacity(243);
        for c in 0..243usize
            invariant
                buckets@.len() == c,
                forall|cc: int| 0 <= cc < c ==> #[trigger] buckets@[cc]@ == Seq::<[u8; 5]>::empty(),
        {
            buckets.push(WordDictionary::with_capacity(n / 50));
        }
        proof {
            assert(self@.take(0) =~= Seq::<[u8; 5]>::empty());
            assert forall|c: int| 0 <= c < 243 implies buckets@[c]@ == bucket_of(
                self@.take(0),
                guess,
                c,
            ) by {
                reveal(Seq::filter);
            }
        }
        for i in 0..n
            invariant
                n == self@.len(),
                buckets@.len() == 243,
                forall|c: int|
                    0 <= c < 243 ==> #[trigger] buckets@[c]@ == bucket_of(
                        self@.take(i as int),
                        guess,
                        c,
                    ),
        {
            let w = self.words[i];
            let m = WordMatch::from(guess, w);
            let ghost before = buckets@;
            let b = &mut buckets[m.0 as usize];
            b.push(w);
            proof {
                assert(self@.take(i + 1).drop_last() =~= self@.take(i as int));
                assert(self@.take(i + 1) =~= self@.take(i as int).push(self@[i as int]));
                assert forall|c: int| 0 <= c < 243 implies buckets@[c]@ == bucket_of(
                    self@.take(i + 1),
                    guess,
                    c,
                ) by {
                    lemma_bucket_push(self@.take(i as int), w, guess, c);
                    assert(buckets@ == before.update(m.0 as int, buckets@[m.0 as int]));
                }
            }
        }
        proof {
            assert(self@.take(n as int) =~= self@);
        }
        Partition { buckets }
    }
}

/// A flat, precomputed matrix of feedback codes over one canonical word
/// list: entry `g * n + a` holds the feedback of word `g` guessed against
/// word `a`. A performance aid for the table-backed search variant.
pub struct FeedbackTable {
    words: Vec<[u8; 5]>,
    table: Vec<u8>,
}

impl FeedbackTable {
    /// The canonical word list the table was built over.
    pub closed spec fn word_list(&self) -> Seq<[u8; 5]> {
        self.words@
    }

    /// Every entry of the matrix matches the feedback of its word pair.
    pub closed spec fn wf(&self) -> bool {
        let n = self.words@.len() as int;
        &&& n <= 0xFFFF
        &&& self.table@.len() == n * n
        &&& forall|i: int|
            0 <= i < n * n ==> #[trigger] self.table@[i] == spec_feedback(
                self.words@[i / n]@,
                self.words@[i % n]@,
            )
    }

    /// Number of words in the canonical list.
    pub fn word_count(&self) -> (r: usize)
        ensures
            r == self.word_list().len(),
    {
        self.words.len()
    }

    /// The canonical word at index `i`.
    pub fn canonical_word(&self, i: u16) -> (r: [u8; 5])
        requires
            (i as int) < self.word_list().len(),
        ensures
            r == self.word_list()[i as int],
    {
        self.words[i as usize]
    }

    /// Precomputes the full feedback matrix of `answers` against itself.
    pub fn new(answers: &WordDictionary) -> (r: FeedbackTable)
        requires
            answers@.len() <= 0xFFFF,
        ensures
            r.wf(),
            r.word_list() == answers@,
    {
        let n = answers.len();
        let mut words: Vec<[u8; 5]> = Vec::with_capacity(n);
        for i in 0..n
            invariant
                n == answers@.len(),
                words@.len() == i,
                forall|j: int| 0 <= j < i ==> #[trigger] words@[j] == answers@[j],
        {
            words.push(answers.word(i));
        }
        proof {
            assert(words@ =~= answers@);
        }
        assert(n * n <= 0xFFFF * 0xFFFF) by (nonlinear_arith)
            requires
                0 <= n <= 0xFFFF,
        ;
        let total = n * n;
        let mut table: Vec<u8> = Vec::new();
        for idx in 0..total
            invariant
                n == answers@.len(),
                total == n * n,
                table@.len() == idx,
                forall|i: int|
                    0 <= i < idx ==> #[trigger] table@[i] == spec_feedback(
                        answers@[i / (n as int)]@,
                        answers@[i % (n as int)]@,
                    ),
        {
            proof {
                if n == 0 {
                    assert(n * n == 0) by (nonlinear_arith)
                        requires
                            n == 0,
                    ;
                }
                vstd::arithmetic::div_mod::lemma_multiply_divide_lt(
                    idx as int,
                    n as int,
                    n as int,
                );
                vstd::arithmetic::div_mod::lemma_mod_division_less_than_divisor(
                    idx as int,
                    n as int,
                );
            }
            let g = idx / n;
            let a = idx % n;
            let m = WordMatch::from(answers.word(g), answers.word(a));
            table.push(m.0);
        }
        FeedbackTable { words, table }
    }

    /// Feedback of canonical word `g` guessed against canonical word `a`,
    /// read from the matrix.
    pub fn lookup(&self, g: u16, a: u16) -> (r: u8)
        requires
            self.wf(),
            (g as int) < self.word_list().len(),
            (a as int) < self.word_list().len(),
        ensures
            r == spec_feedback(self.word_list()[g as int]@, self.word_list()[a as int]@),
            r <= 242,
    {
        let n = self.words.len();
        assert((g as int) * n + (a as int) < n * n) by (nonlinear_arith)
            requires
                0 <= (g as int) < n,
                0 <= (a as int) < n,
        ;
        assert(n * n <= 0xFFFF * 0xFFFF) by (nonlinear_arith)
            requires
                0 <= n <= 0xFFFF,
        ;
        let idx = (g as usize) * n + (a as usize);
        proof {
            vstd::arithmetic::div_mod::lemma_fundamental_div_mod_converse(
                idx as int,
                n as int,
                g as int,
                a as int,
            );
            lemma_feedback_bounds(self.word_list()[g as int]@, self.word_list()[a as int]@);
        }
        self.table[idx]
    }
}

/// A dictionary of indices into a canonical word list, used with a
/// precomputed feedback matrix in place of feedback recomputation.
pub struct OffsetDictionary {
    words: Vec<u16>,
}

impl View for OffsetDictionary {
    type V = Seq<u16>;

    closed spec fn view(&self) -> Seq<u16> {
        self.words@
    }
}

/// The indices of `words` whose canonical word `guess` maps to feedback
/// code `c`, in source order.
pub open spec fn index_bucket_of(words: Seq<u16>, canon: Seq<[u8; 5]>, guess: u16, c: int) -> Seq<
    u16,
> {
    words.filter(|a: u16| spec_feedback(canon[guess as int]@, canon[a as int]@) == c)
}

/// All 243 feedback buckets of the index set `words`.
pub open spec fn index_buckets_of(words: Seq<u16>, canon: Seq<[u8; 5]>, guess: u16) -> Seq<
    Seq<u16>,
> {
    Seq::new(243, |c: int| index_bucket_of(words, canon, guess, c))
}

/// `p` is exactly the family of feedback buckets of the index set `words`.
pub open spec fn index_is_partition_of(
    p: Seq<Seq<u16>>,
    words: Seq<u16>,
    canon: Seq<[u8; 5]>,
    guess: u16,
) -> bool {
    &&& p.len() == 243
    &&& forall|c: int| 0 <= c < 243 ==> p[c] == index_bucket_of(words, canon, guess, c)
}

proof fn lemma_index_bucket_push(words: Seq<u16>, w: u16, canon: Seq<[u8; 5]>, guess: u16, c: int)
    ensures
        index_bucket_of(words.push(w), canon, guess, c) == if spec_feedback(
            canon[guess as int]@,
            canon[w as int]@,
        ) == c {
            index_bucket_of(words, canon, guess, c).push(w)
        } else {
            index_bucket_of(words, canon, guess, c)
        },
{
    reveal(Seq::filter);
    assert(words.push(w).drop_last() =~= words);
    assert(words.push(w).last() == w);
}

impl OffsetDictionary {
    /// Every index points into a canonical list of length `n`.
    pub open spec fn wf_for(&self, n: int) -> bool {
        forall|i: int| 0 <= i < self@.len() ==> (#[trigger] self@[i] as int) < n
    }

    /// The full index set 0, 1, ..., n-1 over a canonical list of `n` words.
    pub fn new(n: u16) -> (r: Self)
        ensures
            r@.len() == n,
            forall|i: int| 0 <= i < n ==> #[trigger] r@[i] == i,
    {
        let mut words: Vec<u16> = Vec::with_capacity(n as usize);
        for k in 0..n
            invariant
                words@.len() == k,
                forall|i: int| 0 <= i < k ==> #[trigger] words@[i] == i,
        {
            words.push(k);
        }
        OffsetDictionary { words }
    }

    /// An empty index set with room reserved for `cap` entries.
    pub fn with_capacity(cap: usize) -> (r: Self)
        ensures
            r@ =~= Seq::<u16>::empty(),
    {
        OffsetDictionary { words: Vec::with_capacity(cap) }
    }

    /// Appends one index.
    fn push(&mut self, word: u16)
        ensures
            final(self)@ == old(self)@.push(word),
    {
        self.words.push(word);
    }

    /// Number of indices held.
    pub fn len(&self) -> (r: usize)
        ensures
            r == self@.len(),
    {
        self.words.len()
    }

    /// The index at position `idx`.
    pub fn word(&self, idx: usize) -> (r: u16)
        requires
            idx < self@.len(),
        ensures
            r == self@[idx as int],
    {
        self.words[idx]
    }

    /// Splits the index set into its 243 feedback buckets under canonical
    /// guess `guess`, using matrix lookups in place of recomputation.
    pub fn partition(&self, table: &FeedbackTable, guess: u16) -> (r: OffsetPartition)
        requires
            table.wf(),
            (guess as int) < table.word_list().len(),
            self.wf_for(table.word_list().len() as int),
        ensures
            index_is_partition_of(r@, self@, table.word_list(), guess),
            forall|c: int|
                0 <= c < 243 ==> (#[trigger] r@[c]).len() <= self@.len() && forall|k: int|
                    0 <= k < r@[c].len() ==> (#[trigger] r@[c][k] as int) < table.word_list().len(),
    {
        let ghost canon = table.word_list();
        let n = self.words.len();
        let mut buckets: Vec<OffsetDictionary> = Vec::with_capacity(243);
        for c in 0..243usize
            invariant
                buckets@.len() == c,
                forall|cc: int| 0 <= cc < c ==> #[trigger] buckets@[cc]@ == Seq::<u16>::empty(),
        {
            buckets.push(OffsetDictionary::with_capacity(n / 50));
        }
        proof {
            assert(self@.take(0) =~= Seq::<u16>::empty());
            assert forall|c: int| 0 <= c < 243 implies buckets@[c]@ == index_bucket_of(
                self@.take(0),
                canon,
                guess,
                c,
            ) by {
                reveal(Seq::filter);
            }
        }
        for i in 0..n
            invariant
                n == self@.len(),
                table.wf(),
                canon == table.word_list(),
                (guess as int) < canon.len(),
                self.wf_for(canon.len() as int),
                buckets@.len() == 243,
                forall|c: int|
                    0 <= c < 243 ==> #[trigger] buckets@[c]@ == index_bucket_of(
                        self@.take(i as int),
                        canon,
                        guess,
                        c,
                    ),
                forall|c: int, k: int|
                    0 <= c < 243 && 0 <= k < buckets@[c]@.len() ==> (#[trigger] buckets@[c]@[k] as int)
                        < canon.len(),
        {
            let a = self.words[i];
            let m = table.lookup(guess, a);
            let ghost before = buckets@;
            let b = &mut buckets[m as usize];
            b.push(a);
            proof {
                assert(self@.take(i + 1).drop_last() =~= self@.take(i as int));
                assert(self@.take(i + 1) =~= self@.take(i as int).push(self@[i as int]));
                assert forall|c: int| 0 <= c < 243 implies buckets@[c]@ == index_bucket_of(
                    self@.take(i + 1),
                    canon,
                    guess,
                    c,
                ) by {
                    lemma_index_bucket_push(self@.take(i as int), a, canon, guess, c);
                    assert(buckets@ == before.update(m as int, buckets@[m as int]));
                }
            }
        }
        proof {
            assert(self@.take(n as int) =~= self@);
            assert forall|c: int| 0 <= c < 243 implies (#[trigger] buckets@[c]@).len()
                <= self@.len() by {
                self@.lemma_filter_len(
                    |a: u16| spec_feedback(canon[guess as int]@, canon[a as int]@) == c,
                );
            }
        }
        OffsetPartition { buckets }
    }
}

/// The feedback partition of an index set over a canonical word list.
pub struct OffsetPartition {
    buckets: Vec<OffsetDictionary>,
}

impl View for OffsetPartition {
    type V = Seq<Seq<u16>>;

    closed spec fn view(&self) -> Seq<Seq<u16>> {
        self.buckets@.map(|i: int, d: OffsetDictionary| d@)
    }
}

impl OffsetPartition {
    /// The bucket keyed by feedback code `c`.
    pub fn bucket(&self, c: usize) -> (r: &OffsetDictionary)
        requires
            c < 243,
            self@.len() == 243,
        ensures
            r@ == self@[c as int],
    {
        &self.buckets[c]
    }

    /// How many buckets are non-empty.
    pub fn nonempty_buckets(&self) -> (r: usize)
        requires
            self@.len() == 243,
        ensures
            r == nonempty_count(self@, 243),
    {
        let mut count: usize = 0;
        for c in 0..243usize
            invariant
                self@.len() == 243,
                count == nonempty_count(self@, c as int),
                count <= c,
        {
            if self.buckets[c].len() > 0 {
                count = count + 1;
            }
        }
        count
    }
}

/// Whether two dictionaries hold the same words in the same order.
pub fn same_words(a: &WordDictionary, b: &WordDictionary) -> (r: bool)
    ensures
        r <==> (a@ == b@),
{
    if a.len() != b.len() {
        assert(a@ !~= b@);
        return false;
    }
    let n = a.len();
    for i in 0..n
        invariant
            n == a@.len(),
            n == b@.len(),
            forall|j: int| 0 <= j < i ==> a@[j]@ == b@[j]@,
    {
        if !eq_word(&a.word(i), &b.word(i)) {
            assert(a@[i as int] != b@[i as int]) by {
                assert(a@[i as int]@ != b@[i as int]@);
            }
            return false;
        }
    }
    assert forall|j: int| 0 <= j < n implies a@[j] == b@[j] by {
        assert(a@[j]@ == b@[j]@);
        assert(a@[j] =~= b@[j]);
    }
    assert(a@ =~= b@);
    true
}

} // verus!

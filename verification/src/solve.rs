//! Branch-and-bound search for guess policies: full decision trees in tree
//! mode, scalar aggregate costs in batch mode, under easy and hard rules.
//!
//! Minimum reductions over candidate pools are sequential loops: the minimum
//! is order-independent, and together with the lexicographic tie-break this
//! keeps every result deterministic. Callers that want parallelism fan out
//! over independent opening guesses, each of which is a separate call into
//! this module.

use crate::dict::{
    bucket_of, buckets_of, correct_flag, index_bucket_of, index_buckets_of, informative_count,
    is_partition_of,
    lemma_correct_bucket_members, lemma_max_bucket_len_ge, lemma_nonempty_count_bounds,
    lemma_nonempty_count_positive, max_bucket_len, nonempty_count, same_words, FeedbackTable,
    OffsetDictionary, Partition, WordDictionary,
};
use crate::word_match::WordMatch;
use vstd::prelude::*;

verus! {

/// A decision tree: a guess, the total cost `size` (guesses summed over every
/// reachable terminal outcome) and one child per feedback code that can still
/// occur. A node without children is terminal.
pub struct Solution {
    pub guess: [u8; 5],
    pub size: u16,
    pub solution: Vec<(WordMatch, Solution)>,
}

/// Number of terminal outcomes reachable in a decision tree: a node without
/// children is one outcome, otherwise the outcomes of its children add up.
pub open spec fn leaf_count(s: Solution) -> int
    decreases s, 0int,
{
    if s.solution@.len() == 0 {
        1
    } else {
        leaf_count_sum(s.solution, s.solution@.len() as int)
    }
}

/// Sum of the leaf counts of the first `n` children.
pub open spec fn leaf_count_sum(cs: Vec<(WordMatch, Solution)>, n: int) -> int
    decreases cs, n,
{
    if n <= 0 || cs@.len() < n {
        0
    } else {
        leaf_count_sum(cs, n - 1) + leaf_count(cs[n - 1].1)
    }
}

/// Every decision tree reaches at least one terminal outcome.
pub proof fn lemma_leaf_count_pos(s: Solution)
    ensures
        leaf_count(s) >= 1,
    decreases s, 0int, 0int,
{
    if s.solution@.len() > 0 {
        lemma_leaf_sum_at_least(s.solution, s.solution@.len() as int);
    }
}

/// A sum of leaf counts over `n` children is at least `n`.
pub proof fn lemma_leaf_sum_at_least(cs: Vec<(WordMatch, Solution)>, n: int)
    requires
        n <= cs@.len(),
    ensures
        leaf_count_sum(cs, n) >= if n >= 0 {
            n
        } else {
            0
        },
    decreases cs, n, 1int,
{
    if n > 0 {
        lemma_leaf_sum_at_least(cs, n - 1);
        lemma_leaf_count_pos(cs[n - 1].1);
    }
}

/// A decision tree resolves an answer set when, for every feedback code its
/// guess can still receive from a member other than itself, a child keyed by
/// that code resolves that bucket; a terminal node resolves only sets whose
/// members all equal its own guess. The all-correct code needs no child: it
/// is resolved by the node's guess itself.
pub open spec fn solves(s: Solution, answers: Seq<[u8; 5]>) -> bool
    decreases s, 0int,
{
    if s.solution@.len() == 0 {
        forall|k: int| 0 <= k < answers.len() ==> answers[k] == s.guess
    } else {
        forall|c: int|
            0 <= c < 243 && c != 242 && (#[trigger] bucket_of(answers, s.guess, c)).len() > 0
                ==> exists|k: int|
                0 <= k < s.solution@.len() && (#[trigger] s.solution[k]).0.0 == c && solves(
                    s.solution[k].1,
                    bucket_of(answers, s.guess, c),
                )
    }
}

/// Structural soundness at every node of a decision tree: the cost covers
/// the leaves beneath it, and the children are keyed by strictly increasing
/// (hence pairwise distinct) feedback codes.
pub open spec fn wf_tree(s: Solution) -> bool
    decreases s, 0int,
{
    &&& s.size >= leaf_count(s)
    &&& (forall|k1: int, k2: int|
        0 <= k1 < k2 < s.solution@.len() ==> (#[trigger] s.solution[k1]).0.0 < (
        #[trigger] s.solution[k2]).0.0)
    &&& (forall|k: int| 0 <= k < s.solution@.len() ==> wf_tree((#[trigger] s.solution[k]).1))
}

/// Plies a decision tree can consume: the node's own guess plus its deepest
/// child.
pub open spec fn tree_depth(s: Solution) -> int
    decreases s, 0int,
{
    1 + tree_depth_children(s.solution, s.solution@.len() as int)
}

/// Deepest of the first `n` children; zero without children.
pub open spec fn tree_depth_children(cs: Vec<(WordMatch, Solution)>, n: int) -> int
    decreases cs, n,
{
    if n <= 0 || cs@.len() < n {
        0
    } else {
        let rest = tree_depth_children(cs, n - 1);
        let d = tree_depth(cs[n - 1].1);
        if d > rest {
            d
        } else {
            rest
        }
    }
}

/// Child depths only look at the children before `n`, so equal prefixes
/// agree.
proof fn lemma_tree_depth_prefix(
    a: Vec<(WordMatch, Solution)>,
    b: Vec<(WordMatch, Solution)>,
    n: int,
)
    requires
        n <= a@.len(),
        n <= b@.len(),
        forall|i: int| 0 <= i < n ==> a@[i] == b@[i],
    ensures
        tree_depth_children(a, n) == tree_depth_children(b, n),
    decreases n,
{
    if n > 0 {
        lemma_tree_depth_prefix(a, b, n - 1);
    }
}

/// The cost that a full expansion accounts, over the first `n` children: per
/// child, the length of the bucket its key selects, plus the child's own
/// cost — except under the all-correct code, which the node's guess itself
/// resolves.
pub open spec fn acc_size(cs: Vec<(WordMatch, Solution)>, p: Seq<Seq<[u8; 5]>>, n: int) -> int
    decreases n,
{
    if n <= 0 || cs@.len() < n {
        0
    } else {
        acc_size(cs, p, n - 1) + p[cs[n - 1].0.0 as int].len() + if cs[n - 1].0.0 != 242 {
            cs[n - 1].1.size as int
        } else {
            0int
        }
    }
}

/// Accounted costs only look at the children before `n`.
proof fn lemma_acc_size_prefix(
    a: Vec<(WordMatch, Solution)>,
    b: Vec<(WordMatch, Solution)>,
    p: Seq<Seq<[u8; 5]>>,
    n: int,
)
    requires
        n <= a@.len(),
        n <= b@.len(),
        forall|i: int| 0 <= i < n ==> a@[i] == b@[i],
    ensures
        acc_size(a, p, n) == acc_size(b, p, n),
    decreases n,
{
    if n > 0 {
        lemma_acc_size_prefix(a, b, p, n - 1);
    }
}

/// Leaf sums only look at the children before `n`, so equal prefixes give
/// equal sums.
proof fn lemma_leaf_sum_prefix(a: Vec<(WordMatch, Solution)>, b: Vec<(WordMatch, Solution)>, n: int)
    requires
        n <= a@.len(),
        n <= b@.len(),
        forall|i: int| 0 <= i < n ==> a@[i] == b@[i],
    ensures
        leaf_count_sum(a, n) == leaf_count_sum(b, n),
    decreases n,
{
    if n > 0 {
        lemma_leaf_sum_prefix(a, b, n - 1);
    }
}

/// A candidate opening move: a guess word together with its feedback
/// partition of the target answer set and the integer ranking key derived
/// from it.
pub struct Guess {
    word: [u8; 5],
    partition: Partition,
    n_buckets: usize,
    max_len: usize,
}

impl Guess {
    /// The candidate's word.
    pub closed spec fn spec_word(&self) -> [u8; 5] {
        self.word
    }

    /// The candidate's feedback buckets.
    pub closed spec fn spec_partition(&self) -> Seq<Seq<[u8; 5]>> {
        self.partition@
    }

    /// The cached ranking fields agree with the partition.
    pub closed spec fn wf(&self) -> bool {
        &&& self.partition@.len() == 243
        &&& self.n_buckets == nonempty_count(self.partition@, 243)
        &&& self.max_len == max_bucket_len(self.partition@, 243)
    }

    /// The candidate partitions `answers` by its word.
    pub open spec fn wf_for(&self, answers: Seq<[u8; 5]>) -> bool {
        &&& self.wf()
        &&& is_partition_of(self.spec_partition(), answers, self.spec_word())
    }

    /// Ranks `guess` against the answer set `answers`: partitions it and
    /// caches the bucket statistics the ranking order uses.
    pub fn new(guess: [u8; 5], answers: &WordDictionary) -> (r: Guess)
        ensures
            r.wf_for(answers@),
            r.spec_word() == guess,
    {
        let partition = answers.partition(guess);
        let n_buckets = partition.nonempty_buckets();
        let max_len = partition.max_len();
        Guess { word: guess, partition, n_buckets, max_len }
    }

    /// Heuristic shortcut: when every bucket is a singleton and the guess
    /// itself can be the answer, a two-ply tree resolves every outcome, so it
    /// is synthesised directly instead of recursing. An intentional greedy
    /// approximation, accepted as authoritative whenever it fires.
    fn fast_solution(&self, depth: usize, Ghost(answers): Ghost<Seq<[u8; 5]>>) -> (r: Option<
        Solution,
    >)
        requires
            self.wf_for(answers),
        ensures
            ({
                let p = self.spec_partition();
                max_bucket_len(p, 243) <= 1 && depth > 1 && p[242].len() > 0 ==> r is Some
            }),
            match r {
                Some(s) => ({
                    let p = self.spec_partition();
                    &&& s.guess == self.spec_word()
                    &&& max_bucket_len(p, 243) <= 1
                    &&& p[242].len() > 0
                    &&& s.size == 2 * nonempty_count(p, 243) - 1
                    &&& s.solution@.len() == nonempty_count(p, 243)
                    &&& (forall|k: int|
                        0 <= k < s.solution@.len() ==> {
                            let c = (#[trigger] s.solution[k]).0.0 as int;
                            &&& p[c].len() == 1
                            &&& s.solution[k].1.guess == p[c][0]
                            &&& s.solution[k].1.size == 1
                            &&& s.solution[k].1.solution@.len() == 0
                        })
                    &&& (forall|c: int|
                        0 <= c < 243 && (#[trigger] p[c]).len() > 0 ==> exists|k: int|
                            0 <= k < s.solution@.len() && (#[trigger] s.solution[k]).0.0 == c)
                    &&& wf_tree(s)
                    &&& tree_depth(s) <= 2
                    &&& leaf_count(s) >= 1
                    &&& solves(s, answers)
                }),
                None => true,
            },
    {
        if self.max_len == 1 && depth > 1 && self.partition.bucket(242).len() > 0 {
            proof {
                lemma_nonempty_count_positive(self.partition@, 242, 243);
                lemma_nonempty_count_bounds(self.partition@, 243);
                lemma_correct_bucket_members(answers, self.word);
            }
            let root_guess = self.partition.bucket(242).word(0);
            proof {
                assert(root_guess == self.word);
            }
            let size: u16 = (2 * self.n_buckets - 1) as u16;
            let mut children: Vec<(WordMatch, Solution)> = Vec::new();
            for c in 0..243usize
                invariant
                    self.wf_for(answers),
                    self.max_len == 1,
                    children@.len() == nonempty_count(self.partition@, c as int),
                    leaf_count_sum(children, children@.len() as int) == children@.len(),
                    tree_depth_children(children, children@.len() as int) <= 1,
                    forall|k: int|
                        0 <= k < children@.len() ==> {
                            let c2 = (#[trigger] children@[k]).0.0 as int;
                            &&& c2 < c
                            &&& self.spec_partition()[c2].len() == 1
                            &&& children@[k].1.guess == self.spec_partition()[c2][0]
                            &&& children@[k].1.size == 1
                            &&& children@[k].1.solution@.len() == 0
                        },
                    forall|k1: int, k2: int|
                        0 <= k1 < k2 < children@.len() ==> (#[trigger] children@[k1]).0.0 < (
                        #[trigger] children@[k2]).0.0,
                    forall|c2: int|
                        0 <= c2 < c && (#[trigger] self.spec_partition()[c2]).len() > 0
                            ==> exists|k: int|
                            0 <= k < children@.len() && (#[trigger] children@[k]).0.0 == c2
                                && solves(children@[k].1, self.spec_partition()[c2]),
            {
                let dict = self.partition.bucket(c);
                if dict.len() > 0 {
                    let ghost oldc = children;
                    children.push(
                        (
                            WordMatch(c as u8),
                            Solution { guess: dict.word(0), size: 1, solution: Vec::new() },
                        ),
                    );
                    proof {
                        let l = oldc@.len() as int;
                        lemma_leaf_sum_prefix(children, oldc, l);
                        lemma_tree_depth_prefix(children, oldc, l);
                        assert(leaf_count(children[l].1) == 1);
                        assert(leaf_count_sum(children, l + 1) == leaf_count_sum(children, l)
                            + leaf_count(children[l].1));
                        assert(tree_depth(children[l].1) == 1);
                        lemma_max_bucket_len_ge(self.spec_partition(), c as int, 243);
                        assert(self.spec_partition()[c as int].len() == 1);
                        assert(solves(children@[l].1, self.spec_partition()[c as int]));
                        assert forall|c2: int|
                            0 <= c2 < c + 1 && (#[trigger] self.spec_partition()[c2]).len()
                                > 0 implies exists|k: int|
                            0 <= k < children@.len() && (#[trigger] children@[k]).0.0 == c2
                                && solves(children@[k].1, self.spec_partition()[c2]) by {
                            if c2 == c {
                                assert(children@[l].0.0 == c2 && solves(
                                    children@[l].1,
                                    self.spec_partition()[c2],
                                ));
                            } else {
                                let k = choose|k: int|
                                    0 <= k < oldc@.len() && (#[trigger] oldc@[k]).0.0 == c2
                                        && solves(oldc@[k].1, self.spec_partition()[c2]);
                                assert(children@[k].0.0 == c2 && solves(
                                    children@[k].1,
                                    self.spec_partition()[c2],
                                ));
                            }
                        }
                    }
                }
            }
            let s = Solution { guess: root_guess, size, solution: children };
            proof {
                assert(leaf_count(s) == self.n_buckets);
                assert forall|c: int|
                    0 <= c < 243 && c != 242 && (#[trigger] bucket_of(answers, s.guess, c)).len()
                        > 0 implies exists|k: int|
                    0 <= k < s.solution@.len() && (#[trigger] s.solution[k]).0.0 == c && solves(
                        s.solution[k].1,
                        bucket_of(answers, s.guess, c),
                    ) by {
                    assert(self.spec_partition()[c] == bucket_of(answers, s.guess, c));
                    let k = choose|k: int|
                        0 <= k < children@.len() && (#[trigger] children@[k]).0.0 == c && solves(
                            children@[k].1,
                            self.spec_partition()[c],
                        );
                    assert(0 <= k < s.solution@.len() && s.solution[k].0.0 == c && solves(
                        s.solution[k].1,
                        bucket_of(answers, s.guess, c),
                    ));
                }
                assert(solves(s, answers));
                assert forall|k: int| 0 <= k < s.solution@.len() implies wf_tree(
                    (#[trigger] s.solution[k]).1,
                ) by {
                    assert(leaf_count(s.solution[k].1) == 1);
                }
                assert(wf_tree(s));
                assert(tree_depth(s) <= 2);
            }
            Some(s)
        } else {
            None
        }
    }

    /// Full expansion: recurses into every bucket of this candidate's
    /// partition, in hard mode restricting the next guess pool to words
    /// consistent with the bucket's feedback. The expansion is absent when
    /// some bucket's recursive search is, when duplicated words make the
    /// all-correct bucket unresolvable, or when the cost would not fit the
    /// `size` field; when every bucket is a singleton it always succeeds.
    pub fn slow_solution(
        self,
        guesses: &WordDictionary,
        answers: &WordDictionary,
        breadth: usize,
        depth: usize,
        hard: bool,
    ) -> (r: Option<Solution>)
        requires
            self.wf_for(answers@),
            depth >= 1,
        ensures
            max_bucket_len(self.spec_partition(), 243) <= 1 ==> r is Some,
            match r {
                Some(s) => ({
                    let p = self.spec_partition();
                    &&& s.guess == self.spec_word()
                    &&& s.solution@.len() == nonempty_count(p, 243)
                    &&& s.size == acc_size(s.solution, p, s.solution@.len() as int)
                    &&& (forall|k: int|
                        0 <= k < s.solution@.len() ==> p[(#[trigger] s.solution[k]).0.0 as int].len()
                            > 0)
                    &&& (forall|c: int|
                        0 <= c < 243 && (#[trigger] p[c]).len() > 0 ==> exists|k: int|
                            0 <= k < s.solution@.len() && (#[trigger] s.solution[k]).0.0 == c)
                    &&& tree_depth(s) <= depth + 1
                    &&& solves(s, answers@)
                    &&& (answers@.len() >= 1 ==> wf_tree(s) && leaf_count(s) >= 1)
                }),
                None => true,
            },
        decreases depth, 1int,
    {
        let pools_equal = same_words(guesses, answers);
        let guess_partition: Option<Partition> = if hard && !pools_equal {
            Some(guesses.partition(self.word))
        } else {
            None
        };
        let mut size: u16 = 0;
        let mut children: Vec<(WordMatch, Solution)> = Vec::new();
        for c in 0..243usize
            invariant
                self.wf_for(answers@),
                depth >= 1,
                match guess_partition {
                    Some(gp) => gp@.len() == 243,
                    None => true,
                },
                children@.len() == nonempty_count(self.spec_partition(), c as int),
                size >= leaf_count_sum(children, children@.len() as int),
                size == acc_size(children, self.spec_partition(), children@.len() as int),
                tree_depth_children(children, children@.len() as int) <= depth,
                max_bucket_len(self.spec_partition(), 243) <= 1 ==> size <= 2 * children@.len(),
                forall|k: int|
                    0 <= k < children@.len() ==> {
                        let c2 = (#[trigger] children@[k]).0.0 as int;
                        &&& c2 < c
                        &&& self.spec_partition()[c2].len() > 0
                        &&& wf_tree(children@[k].1)
                    },
                forall|k1: int, k2: int|
                    0 <= k1 < k2 < children@.len() ==> (#[trigger] children@[k1]).0.0 < (
                    #[trigger] children@[k2]).0.0,
                forall|c2: int|
                    0 <= c2 < c && (#[trigger] self.spec_partition()[c2]).len() > 0
                        ==> exists|k: int|
                        0 <= k < children@.len() && (#[trigger] children@[k]).0.0 == c2 && solves(
                            children@[k].1,
                            self.spec_partition()[c2],
                        ),
        {
            let dict = self.partition.bucket(c);
            if dict.len() > 0 {
                proof {
                    lemma_max_bucket_len_ge(self.spec_partition(), c as int, 243);
                    lemma_nonempty_count_bounds(self.spec_partition(), c as int);
                }
                if c == 242 && dict.len() > 1 {
                    // several identical words: no later guess can tell them
                    // apart, so this branch admits no solution
                    return None;
                }
                let next_guesses: &WordDictionary = if hard && pools_equal {
                    dict
                } else if hard {
                    match &guess_partition {
                        Some(gp) => gp.bucket(c),
                        None => guesses,
                    }
                } else {
                    guesses
                };
                let sub = solve(next_guesses, dict, breadth, depth, hard);
                match sub {
                    None => {
                        return None;
                    },
                    Some(sub) => {
                        match add_size(size, dict.len()) {
                            None => {
                                return None;
                            },
                            Some(s) => {
                                size = s;
                            },
                        }
                        if c != 242 {
                            match add_size(size, sub.size as usize) {
                                None => {
                                    return None;
                                },
                                Some(s) => {
                                    size = s;
                                },
                            }
                        }
                        let ghost oldc = children;
                        children.push((WordMatch(c as u8), sub));
                        proof {
                            let l = oldc@.len() as int;
                            lemma_leaf_sum_prefix(children, oldc, l);
                            lemma_acc_size_prefix(children, oldc, self.spec_partition(), l);
                            lemma_tree_depth_prefix(children, oldc, l);
                            assert(acc_size(children, self.spec_partition(), l + 1) == acc_size(
                                children,
                                self.spec_partition(),
                                l,
                            ) + self.spec_partition()[c as int].len() + if c != 242 {
                                children[l].1.size as int
                            } else {
                                0int
                            });
                            assert forall|c2: int|
                                0 <= c2 < c + 1 && (#[trigger] self.spec_partition()[c2]).len()
                                    > 0 implies exists|k: int|
                                0 <= k < children@.len() && (#[trigger] children@[k]).0.0 == c2
                                    && solves(children@[k].1, self.spec_partition()[c2]) by {
                                if c2 == c {
                                    assert(children@[l].0.0 == c2 && solves(
                                        children@[l].1,
                                        self.spec_partition()[c2],
                                    ));
                                } else {
                                    let k = choose|k: int|
                                        0 <= k < oldc@.len() && (#[trigger] oldc@[k]).0.0 == c2
                                            && solves(oldc@[k].1, self.spec_partition()[c2]);
                                    assert(children@[k].0.0 == c2 && solves(
                                        children@[k].1,
                                        self.spec_partition()[c2],
                                    ));
                                }
                            }
                        }
                    },
                }
            }
        }
        let s = Solution { guess: self.word, size, solution: children };
        proof {
            assert(self.spec_partition() =~= buckets_of(answers@, self.spec_word()));
            crate::dict::lemma_partition_sum(answers@, self.spec_word());
            if answers@.len() >= 1 {
                crate::dict::lemma_total_pos_nonempty(self.spec_partition(), 243);
                lemma_leaf_sum_at_least(children, children@.len() as int);
            }
            if children@.len() == 0 {
                if answers@.len() > 0 {
                    crate::dict::lemma_total_pos_nonempty(self.spec_partition(), 243);
                }
                assert(answers@.len() == 0);
                assert(solves(s, answers@));
            } else {
                assert forall|c: int|
                    0 <= c < 243 && c != 242 && (#[trigger] bucket_of(answers@, s.guess, c)).len()
                        > 0 implies exists|k: int|
                    0 <= k < s.solution@.len() && (#[trigger] s.solution[k]).0.0 == c && solves(
                        s.solution[k].1,
                        bucket_of(answers@, s.guess, c),
                    ) by {
                    assert(self.spec_partition()[c] == bucket_of(answers@, s.guess, c));
                    let k = choose|k: int|
                        0 <= k < children@.len() && (#[trigger] children@[k]).0.0 == c && solves(
                            children@[k].1,
                            self.spec_partition()[c],
                        );
                    assert(0 <= k < s.solution@.len() && s.solution[k].0.0 == c && solves(
                        s.solution[k].1,
                        bucket_of(answers@, s.guess, c),
                    ));
                }
                assert(solves(s, answers@));
            }
            assert forall|c2: int|
                0 <= c2 < 243 && (#[trigger] self.spec_partition()[c2]).len() > 0 implies exists|
                k: int,
            | 0 <= k < s.solution@.len() && (#[trigger] s.solution[k]).0.0 == c2 by {
                let k = choose|k: int|
                    0 <= k < children@.len() && (#[trigger] children@[k]).0.0 == c2 && solves(
                        children@[k].1,
                        self.spec_partition()[c2],
                    );
                assert(0 <= k < s.solution@.len() && s.solution[k].0.0 == c2);
            }
            if answers@.len() >= 1 {
                assert(wf_tree(s));
            }
            assert(tree_depth(s) <= depth + 1);
        }
        Some(s)
    }
}

/// `a + b` as a `u16`, or nothing when it does not fit.
fn add_size(a: u16, b: usize) -> (r: Option<u16>)
    ensures
        match r {
            Some(v) => v == a + b,
            None => a + b > u16::MAX,
        },
{
    if b <= u16::MAX as usize && a <= u16::MAX - (b as u16) {
        Some(a + (b as u16))
    } else {
        None
    }
}

/// `total + len + m` as a `u32`, or nothing when it does not fit.
fn add_cost(total: u32, len: usize, m: u32) -> (r: Option<u32>)
    ensures
        match r {
            Some(v) => v == total + len + m,
            None => total + len + m > u32::MAX,
        },
{
    if len <= u32::MAX as usize {
        let l = len as u32;
        if total <= u32::MAX - l {
            let t = total + l;
            if t <= u32::MAX - m {
                return Some(t + m);
            }
        }
    }
    None
}

/// The firing condition of the heuristic shortcut for one candidate guess:
/// every feedback bucket of the answer set holds at most one word, the guess
/// itself can be the answer, and the partition is informative (at least two
/// buckets).
pub open spec fn fast_path_fires(answers: Seq<[u8; 5]>, g: [u8; 5]) -> bool {
    &&& max_bucket_len(buckets_of(answers, g), 243) <= 1
    &&& bucket_of(answers, g, 242).len() > 0
    &&& nonempty_count(buckets_of(answers, g), 243) >= 2
}

/// Strict lexicographic order on five-letter words.
pub open spec fn spec_word_lt(a: Seq<u8>, b: Seq<u8>) -> bool {
    exists|i: int| 0 <= i < 5 && a[i] < b[i] && (forall|j: int| 0 <= j < i ==> a[j] == b[j])
}

/// Lexicographic order on words; the deterministic tie-break of the search.
fn word_lt(a: &[u8; 5], b: &[u8; 5]) -> (r: bool)
    ensures
        r == spec_word_lt(a@, b@),
{
    let mut i: usize = 0;
    while i < 5
        invariant
            i <= 5,
            forall|j: int| 0 <= j < i ==> a@[j] == b@[j],
        decreases 5 - i,
    {
        if a[i] != b[i] {
            if a[i] < b[i] {
                proof {
                    assert(spec_word_lt(a@, b@)) by {
                        assert(0 <= i < 5 && a@[i as int] < b@[i as int] && (forall|j: int|
                            0 <= j < i ==> a@[j] == b@[j]));
                    }
                }
                return true;
            } else {
                proof {
                    assert(!spec_word_lt(a@, b@)) by {
                        if spec_word_lt(a@, b@) {
                            let w = choose|w: int|
                                0 <= w < 5 && a@[w] < b@[w] && (forall|j: int|
                                    0 <= j < w ==> a@[j] == b@[j]);
                            assert(w < i ==> a@[w] == b@[w]);
                            assert(w > i ==> a@[i as int] == b@[i as int]);
                        }
                    }
                }
                return false;
            }
        }
        i = i + 1;
    }
    proof {
        assert(!spec_word_lt(a@, b@)) by {
            if spec_word_lt(a@, b@) {
                let w = choose|w: int|
                    0 <= w < 5 && a@[w] < b@[w] && (forall|j: int| 0 <= j < w ==> a@[j] == b@[j]);
                assert(a@[w] == b@[w]);
            }
        }
    }
    false
}

/// The ranking order the beam retains candidates by: a smaller largest
/// bucket first, then more buckets, then the lexicographically smaller
/// word. A deterministic, integer-valued stand-in for the ascending
/// information score: that score is a floating-point sum of bucket-size
/// logarithms and cannot appear in verified code, so this order — the one
/// the original engine's earlier solver used — replaces it deliberately;
/// the two orders can rank candidates differently.
pub open spec fn spec_ranks_before(a: Guess, b: Guess) -> bool {
    let am = max_bucket_len(a.spec_partition(), 243);
    let bm = max_bucket_len(b.spec_partition(), 243);
    let an = nonempty_count(a.spec_partition(), 243);
    let bn = nonempty_count(b.spec_partition(), 243);
    am < bm || (am == bm && (an > bn || (an == bn && spec_word_lt(
        a.spec_word()@,
        b.spec_word()@,
    ))))
}

/// Whether candidate `a` ranks strictly more promising than `b`.
fn better(a: &Guess, b: &Guess) -> (r: bool)
    requires
        a.wf(),
        b.wf(),
    ensures
        r == spec_ranks_before(*a, *b),
{
    if a.max_len != b.max_len {
        return a.max_len < b.max_len;
    }
    if a.n_buckets != b.n_buckets {
        return a.n_buckets > b.n_buckets;
    }
    word_lt(&a.word, &b.word)
}

/// Index of the least promising retained candidate.
fn worst_index(best: &Vec<Guess>) -> (r: usize)
    requires
        best@.len() > 0,
        forall|k: int| 0 <= k < best@.len() ==> (#[trigger] best@[k]).wf(),
    ensures
        r < best@.len(),
{
    let mut w: usize = 0;
    for i in 1..best.len()
        invariant
            w < best@.len(),
            forall|k: int| 0 <= k < best@.len() ==> (#[trigger] best@[k]).wf(),
    {
        if better(&best[w], &best[i]) {
            w = i;
        }
    }
    w
}

/// Tree-mode search: finds a guess policy for `answers`, drawing guesses from
/// `guesses`, keeping the `breadth` most promising candidates per level and
/// spending at most `depth` plies. Returns the minimal-cost expansion found,
/// ties broken by word order, or nothing when no candidate resolves every
/// bucket in the remaining depth. When some candidate's shortcut fires, the
/// first such candidate in pool order is returned with its exact two-ply
/// cost; otherwise which expansion comes back follows the beam heuristic
/// above, which the contract deliberately leaves open.
pub fn solve(
    guesses: &WordDictionary,
    answers: &WordDictionary,
    breadth: usize,
    depth: usize,
    hard: bool,
) -> (r: Option<Solution>)
    requires
        answers@.len() == 1 || depth >= 1,
    ensures
        answers@.len() == 1 ==> match r {
            Some(s) => s.guess == answers@[0] && s.size == 1 && s.solution@.len() == 0,
            None => false,
        },
        depth == 1 && answers@.len() != 1 ==> r is None,
        match r {
            Some(s) => solves(s, answers@) && (answers@.len() == 1 || guesses@.contains(s.guess))
                && (answers@.len() >= 1 ==> wf_tree(s) && leaf_count(s) >= 1) && (depth >= 1
                ==> tree_depth(s) <= depth),
            None => true,
        },
        answers@.len() != 1 && depth >= 3 && (exists|i: int|
            0 <= i < guesses@.len() && fast_path_fires(answers@, #[trigger] guesses@[i]))
            ==> match r {
            Some(s) => exists|i: int|
                0 <= i < guesses@.len() && #[trigger] fast_path_fires(answers@, guesses@[i]) && (
                forall|j: int| 0 <= j < i ==> !fast_path_fires(answers@, #[trigger] guesses@[j]))
                    && s.guess == guesses@[i] && s.size == 2 * nonempty_count(
                    buckets_of(answers@, guesses@[i]),
                    243,
                ) - 1,
            None => false,
        },
    decreases depth, 0int,
{
    if answers.len() == 1 {
        let s0 = Solution { guess: answers.word(0), size: 1, solution: Vec::new() };
        proof {
            assert(wf_tree(s0));
            assert(tree_depth(s0) == 1);
        }
        return Some(s0);
    }
    if depth == 1 {
        return None;
    }
    let mut best: Vec<Guess> = Vec::with_capacity(breadth);
    let n = guesses.len();
    for i in 0..n
        invariant
            n == guesses@.len(),
            answers@.len() != 1,
            depth >= 2,
            best@.len() <= breadth,
            forall|k: int|
                0 <= k < best@.len() ==> (#[trigger] best@[k]).wf_for(answers@)
                    && guesses@.contains(best@[k].spec_word()),
            depth >= 3 ==> forall|i2: int|
                0 <= i2 < i ==> !fast_path_fires(answers@, #[trigger] guesses@[i2]),
    {
        let g = Guess::new(guesses.word(i), answers);
        proof {
            assert(guesses@[i as int] == g.spec_word());
            assert(guesses@.contains(g.spec_word()));
            assert(g.spec_partition() =~= buckets_of(answers@, guesses@[i as int]));
        }
        if g.n_buckets != 1 {
            if let Some(sol) = g.fast_solution(depth - 1, Ghost(answers@)) {
                proof {
                    lemma_nonempty_count_positive(g.spec_partition(), 242, 243);
                    assert(fast_path_fires(answers@, guesses@[i as int]));
                }
                return Some(sol);
            }
            proof {
                if depth >= 3 {
                    assert(!fast_path_fires(answers@, guesses@[i as int])) by {
                        if fast_path_fires(answers@, guesses@[i as int]) {
                            assert(max_bucket_len(g.spec_partition(), 243) <= 1);
                            assert(g.spec_partition()[242].len() > 0);
                        }
                    }
                }
            }
            if best.len() < breadth {
                best.push(g);
            } else if breadth > 0 {
                let w = worst_index(&best);
                if better(&g, &best[w]) {
                    best[w] = g;
                }
            }
        } else {
            proof {
                if depth >= 3 {
                    assert(nonempty_count(buckets_of(answers@, guesses@[i as int]), 243) == 1);
                }
            }
        }
    }
    let mut best_sol: Option<Solution> = None;
    while best.len() > 0
        invariant
            answers@.len() != 1,
            depth >= 2,
            forall|k: int|
                0 <= k < best@.len() ==> (#[trigger] best@[k]).wf_for(answers@)
                    && guesses@.contains(best@[k].spec_word()),
            depth >= 3 ==> forall|i2: int|
                0 <= i2 < guesses@.len() ==> !fast_path_fires(answers@, #[trigger] guesses@[i2]),
            match best_sol {
                Some(cur) => solves(cur, answers@) && guesses@.contains(cur.guess) && (
                answers@.len() >= 1 ==> wf_tree(cur) && leaf_count(cur) >= 1) && tree_depth(cur)
                    <= depth,
                None => true,
            },
        decreases best@.len(),
    {
        let g = match best.pop() {
            Some(g) => g,
            None => {
                return best_sol;
            },
        };
        let sub = g.slow_solution(guesses, answers, breadth, depth - 1, hard);
        if let Some(v) = sub {
            best_sol = match best_sol {
                None => Some(v),
                Some(cur) => {
                    if v.size < cur.size || (v.size == cur.size && word_lt(&v.guess, &cur.guess)) {
                        Some(v)
                    } else {
                        Some(cur)
                    }
                },
            };
        }
    }
    best_sol
}

/// The cost that the easy-rules batch search defines: one guess for a lone
/// answer; nothing once the depth budget is spent or the guess fails to
/// split the answers; the short-circuit total when every remaining bucket is
/// a singleton; otherwise the correct-bucket credit plus, per remaining
/// bucket, its word count and the cheapest follow-up over the whole guess
/// pool — absent as soon as any bucket has no successful follow-up.
pub open spec fn easy_cost(
    guess: [u8; 5],
    gs: Seq<[u8; 5]>,
    answers: Seq<[u8; 5]>,
    depth: int,
) -> Option<int>
    decreases depth, 0int, 0int,
{
    if answers.len() == 1 {
        Some(1)
    } else if depth <= 0 {
        None
    } else {
        let nb = nonempty_count(buckets_of(answers, guess), 243);
        let corr = correct_flag(answers, guess);
        if nb == 1 {
            None
        } else if nb - corr == answers.len() {
            Some(2 * (nb - corr) - corr)
        } else {
            easy_fold(guess, gs, answers, 243, depth - 1)
        }
    }
}

/// Folds the easy-rules cost over the first `n` buckets, skipping the
/// all-correct one, starting from its credit.
pub open spec fn easy_fold(
    guess: [u8; 5],
    gs: Seq<[u8; 5]>,
    answers: Seq<[u8; 5]>,
    n: int,
    d: int,
) -> Option<int>
    decreases d, 2int, n,
{
    if n <= 0 {
        Some(correct_flag(answers, guess))
    } else {
        let rest = easy_fold(guess, gs, answers, n - 1, d);
        let b = bucket_of(answers, guess, n - 1);
        if n - 1 == 242 || b.len() == 0 {
            rest
        } else {
            match (rest, easy_min(gs, gs.len() as int, b, d)) {
                (Some(t), Some(m)) => Some(t + b.len() + m),
                _ => None,
            }
        }
    }
}

/// The cheapest easy-rules follow-up over the first `j` pool words.
pub open spec fn easy_min(gs: Seq<[u8; 5]>, j: int, answers: Seq<[u8; 5]>, d: int) -> Option<int>
    decreases d, 1int, j,
{
    if j <= 0 {
        None
    } else {
        let rest = easy_min(gs, j - 1, answers, d);
        let v = easy_cost(gs[j - 1], gs, answers, d);
        match (rest, v) {
            (None, s) => s,
            (Some(r0), Some(v0)) => if v0 < r0 {
                Some(v0)
            } else {
                Some(r0)
            },
            (Some(r0), None) => Some(r0),
        }
    }
}

/// Defined easy-rules costs are never negative.
pub proof fn lemma_easy_cost_nonneg(guess: [u8; 5], gs: Seq<[u8; 5]>, answers: Seq<[u8; 5]>, depth: int)
    requires
        answers.len() >= 1,
    ensures
        match easy_cost(guess, gs, answers, depth) {
            Some(v) => v >= 0,
            None => true,
        },
    decreases depth, 0int, 0int,
{
    let nb = nonempty_count(buckets_of(answers, guess), 243);
    let corr = correct_flag(answers, guess);
    if answers.len() != 1 && depth > 0 && nb != 1 && nb - corr != answers.len() {
        lemma_easy_fold_nonneg(guess, gs, answers, 243, depth - 1);
    }
}

proof fn lemma_easy_fold_nonneg(guess: [u8; 5], gs: Seq<[u8; 5]>, answers: Seq<[u8; 5]>, n: int, d: int)
    ensures
        match easy_fold(guess, gs, answers, n, d) {
            Some(v) => v >= 0,
            None => true,
        },
    decreases d, 2int, n,
{
    if n > 0 {
        lemma_easy_fold_nonneg(guess, gs, answers, n - 1, d);
        let b = bucket_of(answers, guess, n - 1);
        if !(n - 1 == 242 || b.len() == 0) {
            lemma_easy_min_nonneg(gs, gs.len() as int, b, d);
        }
    }
}

proof fn lemma_easy_min_nonneg(gs: Seq<[u8; 5]>, j: int, answers: Seq<[u8; 5]>, d: int)
    requires
        j <= gs.len(),
        answers.len() >= 1,
    ensures
        match easy_min(gs, j, answers, d) {
            Some(v) => v >= 0,
            None => true,
        },
    decreases d, 1int, j,
{
    if j > 0 {
        lemma_easy_min_nonneg(gs, j - 1, answers, d);
        lemma_easy_cost_nonneg(gs[j - 1], gs, answers, d);
    }
}

/// A defined easy-rules fold stays defined, and can only shrink, on a
/// prefix of the buckets.
proof fn lemma_easy_fold_mono(
    guess: [u8; 5],
    gs: Seq<[u8; 5]>,
    answers: Seq<[u8; 5]>,
    m: int,
    n: int,
    d: int,
)
    requires
        0 <= m <= n,
        easy_fold(guess, gs, answers, n, d) is Some,
    ensures
        match (easy_fold(guess, gs, answers, m, d), easy_fold(guess, gs, answers, n, d)) {
            (Some(t), Some(v)) => t <= v,
            _ => false,
        },
    decreases n,
{
    if m < n {
        let b = bucket_of(answers, guess, n - 1);
        if !(n - 1 == 242 || b.len() == 0) {
            lemma_easy_min_nonneg(gs, gs.len() as int, b, d);
        }
        lemma_easy_fold_mono(guess, gs, answers, m, n - 1, d);
    }
}

/// Batch cost of opening with `guess` under easy rules: partitions `answers`
/// by `guess` and, per bucket, takes the cheapest follow-up over the whole
/// unrestricted guess pool, recursively. Returns the aggregate number of
/// guesses over all outcomes, or nothing when some bucket cannot be resolved
/// in the remaining depth. The result is exactly the recursion of
/// `easy_cost`, except that a total beyond `u32` is reported as no
/// solution.
pub fn solve_easy(
    guess: [u8; 5],
    guesses: &WordDictionary,
    answers: &WordDictionary,
    depth: usize,
) -> (r: Option<u32>)
    ensures
        answers@.len() == 1 ==> r == Some(1u32),
        depth == 0 && answers@.len() != 1 ==> r is None,
        answers@.len() != 1 && depth >= 1 && nonempty_count(buckets_of(answers@, guess), 243) == 1
            ==> r is None,
        ({
            let nb = nonempty_count(buckets_of(answers@, guess), 243);
            let corr = correct_flag(answers@, guess);
            answers@.len() != 1 && depth >= 1 && nb != 1 && nb - corr == answers@.len() ==> r
                == Some((2 * (nb - corr) - corr) as u32)
        }),
        match r {
            Some(v) => answers@.len() >= 1 ==> v >= 1,
            None => true,
        },
        answers@.len() != 1 && depth >= 1 && guesses@.len() >= 1 && fast_path_fires(
            answers@,
            guess,
        ) ==> r == Some((2 * nonempty_count(buckets_of(answers@, guess), 243) - 1) as u32),
        answers@.len() >= 1 ==> ({
            match easy_cost(guess, guesses@, answers@, depth as int) {
                Some(v) => if v <= u32::MAX {
                    r == Some(v as u32)
                } else {
                    r is None
                },
                None => r is None,
            }
        }),
    decreases depth,
{
    if answers.len() == 1 {
        return Some(1);
    }
    if depth == 0 {
        return None;
    }
    let partition = answers.partition(guess);
    proof {
        assert(partition@ =~= buckets_of(answers@, guess));
    }
    let nb = partition.nonempty_buckets();
    if nb == 1 {
        return None;
    }
    proof {
        lemma_nonempty_count_bounds(partition@, 243);
    }
    let correct_len = partition.bucket(242).len();
    let init: u32 = if correct_len > 0 {
        proof {
            lemma_nonempty_count_positive(partition@, 242, 243);
        }
        1
    } else {
        0
    };
    let remaining: usize = if correct_len > 0 {
        nb - 1
    } else {
        nb
    };
    if remaining == answers.len() {
        proof {
            if fast_path_fires(answers@, guess) {
                assert forall|cc: int| 0 <= cc < 243 implies (#[trigger] partition@[cc]).len()
                    <= 1 by {
                    lemma_max_bucket_len_ge(partition@, cc, 243);
                }
                crate::dict::lemma_singleton_buckets_total(partition@, 243);
                crate::dict::lemma_partition_sum(answers@, guess);
            }
        }
        // every remaining bucket is a singleton: each needs one
        // distinguishing guess and one finishing guess
        return Some((2 * remaining) as u32 - init);
    }
    let mut total: u32 = init;
    let gn = guesses.len();
    for c in 0..243usize
        invariant
            partition@.len() == 243,
            partition@ == buckets_of(answers@, guess),
            gn == guesses@.len(),
            depth >= 1,
            answers@.len() != 1,
            init as int == correct_flag(answers@, guess),
            nonempty_count(buckets_of(answers@, guess), 243) != 1,
            nonempty_count(buckets_of(answers@, guess), 243) - correct_flag(answers@, guess)
                != answers@.len(),
            total >= init + 2 * informative_count(partition@, c as int),
            gn >= 1 && fast_path_fires(answers@, guess) ==> total == init + 2 * informative_count(
                partition@,
                c as int,
            ),
            answers@.len() >= 1 ==> easy_fold(guess, guesses@, answers@, c as int, depth - 1)
                == Some(total as int),
    {
        if c != 242 {
            let dict = partition.bucket(c);
            if dict.len() > 0 {
                proof {
                    lemma_max_bucket_len_ge(partition@, c as int, 243);
                    crate::dict::lemma_informative_prefix(partition@, c as int);
                    lemma_nonempty_count_bounds(partition@, c as int);
                }
                let mut bestv: Option<u32> = None;
                for j in 0..gn
                    invariant
                        gn == guesses@.len(),
                        depth >= 1,
                        dict@.len() >= 1,
                        dict@ == bucket_of(answers@, guess, c as int),
                        match bestv {
                            Some(b) => b >= 1,
                            None => true,
                        },
                        dict@.len() == 1 && j >= 1 ==> bestv == Some(1u32),
                        match easy_min(guesses@, j as int, dict@, depth - 1) {
                            Some(v) => bestv == if v <= u32::MAX {
                                Some(v as u32)
                            } else {
                                None::<u32>
                            },
                            None => bestv is None,
                        },
                {
                    let sub = solve_easy(guesses.word(j), guesses, dict, depth - 1);
                    bestv = match (bestv, sub) {
                        (None, s) => s,
                        (Some(b), Some(v)) => if v < b {
                            Some(v)
                        } else {
                            Some(b)
                        },
                        (Some(b), None) => Some(b),
                    };
                    proof {
                        let d = depth - 1;
                        let prev = easy_min(guesses@, j as int, dict@, d);
                        let cur = easy_cost(guesses@[j as int], guesses@, dict@, d);
                        lemma_easy_min_nonneg(guesses@, j as int, dict@, d);
                        lemma_easy_cost_nonneg(guesses@[j as int], guesses@, dict@, d);
                        assert(easy_min(guesses@, j + 1, dict@, d) == (match (prev, cur) {
                            (None, s) => s,
                            (Some(r0), Some(v0)) => if v0 < r0 {
                                Some(v0)
                            } else {
                                Some(r0)
                            },
                            (Some(r0), None) => Some(r0),
                        }));
                        match (prev, cur) {
                            (Some(r0), Some(v0)) => {
                                if r0 <= u32::MAX && v0 <= u32::MAX {
                                    assert(bestv == if v0 < r0 {
                                        Some(v0 as u32)
                                    } else {
                                        Some(r0 as u32)
                                    });
                                } else if r0 <= u32::MAX {
                                    assert(r0 < v0);
                                    assert(bestv == Some(r0 as u32));
                                } else if v0 <= u32::MAX {
                                    assert(v0 < r0);
                                    assert(bestv == Some(v0 as u32));
                                } else {
                                    assert(bestv is None);
                                }
                            },
                            _ => {},
                        }
                    }
                }
                proof {
                    if answers@.len() >= 1 {
                        let d = depth - 1;
                        let mv = easy_min(guesses@, gn as int, dict@, d);
                        lemma_easy_min_nonneg(guesses@, gn as int, dict@, d);
                        assert(easy_fold(guess, guesses@, answers@, c + 1, d) == (match (
                            easy_fold(guess, guesses@, answers@, c as int, d),
                            mv,
                        ) {
                            (Some(t), Some(m)) => Some(t + dict@.len() + m),
                            _ => None,
                        }));
                        if easy_fold(guess, guesses@, answers@, 243, d) is Some {
                            lemma_easy_fold_mono(guess, guesses@, answers@, c + 1, 243, d);
                        }
                    }
                }
                match bestv {
                    None => {
                        return None;
                    },
                    Some(m) => {
                        match add_cost(total, dict.len(), m) {
                            None => {
                                return None;
                            },
                            Some(t) => {
                                total = t;
                            },
                        }
                    },
                }
            }
        }
    }
    proof {
        if answers@.len() >= 1 {
            crate::dict::lemma_partition_sum(answers@, guess);
            crate::dict::lemma_total_pos_nonempty(partition@, 243);
            crate::dict::lemma_informative_split(partition@);
        }
        if fast_path_fires(answers@, guess) {
            crate::dict::lemma_informative_split(partition@);
            lemma_nonempty_count_bounds(partition@, 243);
        }
    }
    Some(total)
}

/// The cost that the hard-rules batch search defines: as `easy_cost`, except
/// that each bucket's follow-up pool is the subset of the guess pool whose
/// feedback against the opening guess matches that bucket — an empty
/// consistent pool makes the bucket, and so the whole cost, absent. Deeper
/// levels continue with `easy_cost`: the restriction is enforced for one ply
/// relative to the opening guess only.
pub open spec fn hard_cost(
    guess: [u8; 5],
    gs: Seq<[u8; 5]>,
    answers: Seq<[u8; 5]>,
    depth: int,
) -> Option<int> {
    if answers.len() == 1 {
        Some(1)
    } else if depth <= 0 {
        None
    } else {
        let nb = nonempty_count(buckets_of(answers, guess), 243);
        let corr = correct_flag(answers, guess);
        if nb == 1 {
            None
        } else if nb - corr == answers.len() {
            Some(2 * (nb - corr) - corr)
        } else {
            hard_fold(guess, gs, answers, 243, depth - 1)
        }
    }
}

/// Folds the hard-rules cost over the first `n` buckets, skipping the
/// all-correct one, starting from its credit.
pub open spec fn hard_fold(
    guess: [u8; 5],
    gs: Seq<[u8; 5]>,
    answers: Seq<[u8; 5]>,
    n: int,
    d: int,
) -> Option<int>
    decreases n,
{
    if n <= 0 {
        Some(correct_flag(answers, guess))
    } else {
        let rest = hard_fold(guess, gs, answers, n - 1, d);
        let b = bucket_of(answers, guess, n - 1);
        if n - 1 == 242 || b.len() == 0 {
            rest
        } else {
            let pool = bucket_of(gs, guess, n - 1);
            match (rest, easy_min(pool, pool.len() as int, b, d)) {
                (Some(t), Some(m)) => Some(t + b.len() + m),
                _ => None,
            }
        }
    }
}

proof fn lemma_hard_fold_nonneg(guess: [u8; 5], gs: Seq<[u8; 5]>, answers: Seq<[u8; 5]>, n: int, d: int)
    ensures
        match hard_fold(guess, gs, answers, n, d) {
            Some(v) => v >= 0,
            None => true,
        },
    decreases n,
{
    if n > 0 {
        lemma_hard_fold_nonneg(guess, gs, answers, n - 1, d);
        let b = bucket_of(answers, guess, n - 1);
        if !(n - 1 == 242 || b.len() == 0) {
            let pool = bucket_of(gs, guess, n - 1);
            lemma_easy_min_nonneg(pool, pool.len() as int, b, d);
        }
    }
}

/// A defined hard-rules fold stays defined, and can only shrink, on a
/// prefix of the buckets.
proof fn lemma_hard_fold_mono(
    guess: [u8; 5],
    gs: Seq<[u8; 5]>,
    answers: Seq<[u8; 5]>,
    m: int,
    n: int,
    d: int,
)
    requires
        0 <= m <= n,
        hard_fold(guess, gs, answers, n, d) is Some,
    ensures
        match (hard_fold(guess, gs, answers, m, d), hard_fold(guess, gs, answers, n, d)) {
            (Some(t), Some(v)) => t <= v,
            _ => false,
        },
    decreases n,
{
    if m < n {
        let b = bucket_of(answers, guess, n - 1);
        if !(n - 1 == 242 || b.len() == 0) {
            let pool = bucket_of(gs, guess, n - 1);
            lemma_easy_min_nonneg(pool, pool.len() as int, b, d);
        }
        lemma_hard_fold_mono(guess, gs, answers, m, n - 1, d);
    }
}

/// Batch cost of opening with `guess` under hard rules: as `solve_easy`, but
/// the follow-up pool for each bucket is the subset of `guesses` consistent
/// with that bucket's feedback. Consistency is enforced for one ply relative
/// to the opening guess only; deeper levels recurse through `solve_easy`. An
/// intentional simplification of strict hard-mode rules, kept as the
/// documented behaviour. The result is exactly the recursion of
/// `hard_cost`, except that a total beyond `u32` is reported as no
/// solution.
pub fn solve_hard(
    guess: [u8; 5],
    guesses: &WordDictionary,
    answers: &WordDictionary,
    depth: usize,
) -> (r: Option<u32>)
    ensures
        answers@.len() == 1 ==> r == Some(1u32),
        depth == 0 && answers@.len() != 1 ==> r is None,
        answers@.len() != 1 && depth >= 1 && nonempty_count(buckets_of(answers@, guess), 243) == 1
            ==> r is None,
        ({
            let nb = nonempty_count(buckets_of(answers@, guess), 243);
            let corr = correct_flag(answers@, guess);
            answers@.len() != 1 && depth >= 1 && nb != 1 && nb - corr == answers@.len() ==> r
                == Some((2 * (nb - corr) - corr) as u32)
        }),
        match r {
            Some(v) => answers@.len() >= 1 ==> v >= 1,
            None => true,
        },
        answers@.len() != 1 && depth >= 1 && fast_path_fires(answers@, guess) && (forall|k: int|
            0 <= k < answers@.len() ==> guesses@.contains(#[trigger] answers@[k])) ==> r == Some(
            (2 * nonempty_count(buckets_of(answers@, guess), 243) - 1) as u32,
        ),
        answers@.len() >= 1 ==> ({
            match hard_cost(guess, guesses@, answers@, depth as int) {
                Some(v) => if v <= u32::MAX {
                    r == Some(v as u32)
                } else {
                    r is None
                },
                None => r is None,
            }
        }),
{
    if answers.len() == 1 {
        return Some(1);
    }
    if depth == 0 {
        return None;
    }
    let partition = answers.partition(guess);
    proof {
        assert(partition@ =~= buckets_of(answers@, guess));
    }
    let nb = partition.nonempty_buckets();
    if nb == 1 {
        return None;
    }
    proof {
        lemma_nonempty_count_bounds(partition@, 243);
    }
    let correct_len = partition.bucket(242).len();
    let init: u32 = if correct_len > 0 {
        proof {
            lemma_nonempty_count_positive(partition@, 242, 243);
        }
        1
    } else {
        0
    };
    let remaining: usize = if correct_len > 0 {
        nb - 1
    } else {
        nb
    };
    if remaining == answers.len() {
        proof {
            if fast_path_fires(answers@, guess) {
                assert forall|cc: int| 0 <= cc < 243 implies (#[trigger] partition@[cc]).len()
                    <= 1 by {
                    lemma_max_bucket_len_ge(partition@, cc, 243);
                }
                crate::dict::lemma_singleton_buckets_total(partition@, 243);
                crate::dict::lemma_partition_sum(answers@, guess);
            }
        }
        return Some((2 * remaining) as u32 - init);
    }
    let guess_partition = guesses.partition(guess);
    let mut total: u32 = init;
    for c in 0..243usize
        invariant
            partition@.len() == 243,
            partition@ == buckets_of(answers@, guess),
            is_partition_of(guess_partition@, guesses@, guess),
            guess_partition@.len() == 243,
            depth >= 1,
            answers@.len() != 1,
            init as int == correct_flag(answers@, guess),
            nonempty_count(buckets_of(answers@, guess), 243) != 1,
            nonempty_count(buckets_of(answers@, guess), 243) - correct_flag(answers@, guess)
                != answers@.len(),
            total >= init + 2 * informative_count(partition@, c as int),
            fast_path_fires(answers@, guess) && (forall|k: int|
                0 <= k < answers@.len() ==> guesses@.contains(#[trigger] answers@[k])) ==> total
                == init + 2 * informative_count(partition@, c as int),
            answers@.len() >= 1 ==> hard_fold(guess, guesses@, answers@, c as int, depth - 1)
                == Some(total as int),
    {
        if c != 242 {
            let dict = partition.bucket(c);
            if dict.len() > 0 {
                let pool = guess_partition.bucket(c);
                let pn = pool.len();
                proof {
                    lemma_max_bucket_len_ge(partition@, c as int, 243);
                    crate::dict::lemma_informative_prefix(partition@, c as int);
                    lemma_nonempty_count_bounds(partition@, c as int);
                    crate::dict::lemma_partition_members(answers@, guess);
                    if forall|k: int|
                        0 <= k < answers@.len() ==> guesses@.contains(#[trigger] answers@[k]) {
                        // the bucket's first word is an answer also present in
                        // the guess pool, so the consistent pool is non-empty
                        crate::dict::lemma_bucket_member_of(answers@, guess, c as int, 0);
                        let w = bucket_of(answers@, guess, c as int)[0];
                        let i = choose|i: int| 0 <= i < answers@.len() && answers@[i] == w;
                        assert(guesses@.contains(answers@[i]));
                        let gi = choose|gi: int|
                            0 <= gi < guesses@.len() && guesses@[gi] == answers@[i];
                        crate::dict::lemma_bucket_has_member(guesses@, guess, gi);
                        assert(bucket_of(guesses@, guess, c as int).contains(w));
                        assert(pool@.len() >= 1);
                    }
                }
                let mut bestv: Option<u32> = None;
                for j in 0..pn
                    invariant
                        pn == pool@.len(),
                        depth >= 1,
                        dict@.len() >= 1,
                        pool@ == bucket_of(guesses@, guess, c as int),
                        dict@ == bucket_of(answers@, guess, c as int),
                        match bestv {
                            Some(b) => b >= 1,
                            None => true,
                        },
                        dict@.len() == 1 && j >= 1 ==> bestv == Some(1u32),
                        match easy_min(pool@, j as int, dict@, depth - 1) {
                            Some(v) => bestv == if v <= u32::MAX {
                                Some(v as u32)
                            } else {
                                None::<u32>
                            },
                            None => bestv is None,
                        },
                {
                    let sub = solve_easy(pool.word(j), pool, dict, depth - 1);
                    bestv = match (bestv, sub) {
                        (None, s) => s,
                        (Some(b), Some(v)) => if v < b {
                            Some(v)
                        } else {
                            Some(b)
                        },
                        (Some(b), None) => Some(b),
                    };
                    proof {
                        let d = depth - 1;
                        let prev = easy_min(pool@, j as int, dict@, d);
                        let cur = easy_cost(pool@[j as int], pool@, dict@, d);
                        lemma_easy_min_nonneg(pool@, j as int, dict@, d);
                        lemma_easy_cost_nonneg(pool@[j as int], pool@, dict@, d);
                        assert(easy_min(pool@, j + 1, dict@, d) == (match (prev, cur) {
                            (None, s) => s,
                            (Some(r0), Some(v0)) => if v0 < r0 {
                                Some(v0)
                            } else {
                                Some(r0)
                            },
                            (Some(r0), None) => Some(r0),
                        }));
                        match (prev, cur) {
                            (Some(r0), Some(v0)) => {
                                if r0 <= u32::MAX && v0 <= u32::MAX {
                                    assert(bestv == if v0 < r0 {
                                        Some(v0 as u32)
                                    } else {
                                        Some(r0 as u32)
                                    });
                                } else if r0 <= u32::MAX {
                                    assert(r0 < v0);
                                    assert(bestv == Some(r0 as u32));
                                } else if v0 <= u32::MAX {
                                    assert(v0 < r0);
                                    assert(bestv == Some(v0 as u32));
                                } else {
                                    assert(bestv is None);
                                }
                            },
                            _ => {},
                        }
                    }
                }
                proof {
                    if answers@.len() >= 1 {
                        let d = depth - 1;
                        let mv = easy_min(pool@, pn as int, dict@, d);
                        lemma_easy_min_nonneg(pool@, pn as int, dict@, d);
                        assert(hard_fold(guess, guesses@, answers@, c + 1, d) == (match (
                            hard_fold(guess, guesses@, answers@, c as int, d),
                            mv,
                        ) {
                            (Some(t), Some(m)) => Some(t + dict@.len() + m),
                            _ => None,
                        }));
                        if hard_fold(guess, guesses@, answers@, 243, d) is Some {
                            lemma_hard_fold_mono(guess, guesses@, answers@, c + 1, 243, d);
                        }
                    }
                }
                match bestv {
                    None => {
                        return None;
                    },
                    Some(m) => {
                        match add_cost(total, dict.len(), m) {
                            None => {
                                return None;
                            },
                            Some(t) => {
                                total = t;
                            },
                        }
                    },
                }
            }
        }
    }
    proof {
        if answers@.len() >= 1 {
            crate::dict::lemma_partition_sum(answers@, guess);
            crate::dict::lemma_total_pos_nonempty(partition@, 243);
            crate::dict::lemma_informative_split(partition@);
        }
        if fast_path_fires(answers@, guess) {
            crate::dict::lemma_informative_split(partition@);
            lemma_nonempty_count_bounds(partition@, 243);
        }
    }
    Some(total)
}

/// The cost that the table-backed hard-mode search defines: one guess for a
/// lone word; nothing once the depth budget is spent; the all-singleton
/// total when every word sits in its own bucket; otherwise one for the
/// opening guess plus, per remaining bucket, its word count and the cheapest
/// follow-up drawn from the bucket itself — absent as soon as any bucket has
/// no successful follow-up.
pub open spec fn hard_limited_cost(
    guess: u16,
    words: Seq<u16>,
    canon: Seq<[u8; 5]>,
    depth: int,
) -> Option<int>
    decreases depth, 0int, 0int,
{
    if words.len() == 1 {
        Some(1)
    } else if depth <= 0 {
        None
    } else if nonempty_count(index_buckets_of(words, canon, guess), 243) == words.len() {
        Some(2 * words.len() - 1)
    } else {
        hard_limited_fold(words, canon, guess, 243, depth - 1)
    }
}

/// Folds the cost over the first `n` buckets, skipping the all-correct one,
/// starting from the one guess already spent.
pub open spec fn hard_limited_fold(
    words: Seq<u16>,
    canon: Seq<[u8; 5]>,
    guess: u16,
    n: int,
    d: int,
) -> Option<int>
    decreases d, 2int, n,
{
    if n <= 0 {
        Some(1)
    } else {
        let rest = hard_limited_fold(words, canon, guess, n - 1, d);
        let b = index_bucket_of(words, canon, guess, n - 1);
        if n - 1 == 242 || b.len() == 0 {
            rest
        } else {
            match (rest, hard_limited_min(b, b.len() as int, canon, d)) {
                (Some(t), Some(m)) => Some(t + b.len() + m),
                _ => None,
            }
        }
    }
}

/// The cheapest follow-up cost over the first `j` words of a bucket.
pub open spec fn hard_limited_min(b: Seq<u16>, j: int, canon: Seq<[u8; 5]>, d: int) -> Option<int>
    decreases d, 1int, j,
{
    if j <= 0 {
        None
    } else {
        let rest = hard_limited_min(b, j - 1, canon, d);
        let v = hard_limited_cost(b[j - 1], b, canon, d);
        match (rest, v) {
            (None, s) => s,
            (Some(r0), Some(v0)) => if v0 < r0 {
                Some(v0)
            } else {
                Some(r0)
            },
            (Some(r0), None) => Some(r0),
        }
    }
}

/// Every defined cost covers at least one guess.
pub proof fn lemma_hard_limited_cost_pos(guess: u16, words: Seq<u16>, canon: Seq<[u8; 5]>, depth: int)
    requires
        words.len() >= 1,
    ensures
        match hard_limited_cost(guess, words, canon, depth) {
            Some(v) => v >= 1,
            None => true,
        },
    decreases depth, 0int, 0int,
{
    if !(words.len() == 1) && depth > 0 && nonempty_count(
        index_buckets_of(words, canon, guess),
        243,
    ) != words.len() {
        lemma_hard_limited_fold_pos(words, canon, guess, 243, depth - 1);
    }
}

proof fn lemma_hard_limited_fold_pos(words: Seq<u16>, canon: Seq<[u8; 5]>, guess: u16, n: int, d: int)
    ensures
        match hard_limited_fold(words, canon, guess, n, d) {
            Some(v) => v >= 1,
            None => true,
        },
    decreases d, 2int, n,
{
    if n > 0 {
        lemma_hard_limited_fold_pos(words, canon, guess, n - 1, d);
        let b = index_bucket_of(words, canon, guess, n - 1);
        if !(n - 1 == 242 || b.len() == 0) {
            lemma_hard_limited_min_pos(b, b.len() as int, canon, d);
        }
    }
}

proof fn lemma_hard_limited_min_pos(b: Seq<u16>, j: int, canon: Seq<[u8; 5]>, d: int)
    requires
        j <= b.len(),
    ensures
        match hard_limited_min(b, j, canon, d) {
            Some(v) => v >= 1,
            None => true,
        },
    decreases d, 1int, j,
{
    if j > 0 {
        lemma_hard_limited_min_pos(b, j - 1, canon, d);
        lemma_hard_limited_cost_pos(b[j - 1], b, canon, d);
    }
}

/// A defined fold stays defined, and can only shrink, on a prefix of the
/// buckets.
proof fn lemma_hard_limited_fold_mono(
    words: Seq<u16>,
    canon: Seq<[u8; 5]>,
    guess: u16,
    m: int,
    n: int,
    d: int,
)
    requires
        0 <= m <= n,
        hard_limited_fold(words, canon, guess, n, d) is Some,
    ensures
        match (
            hard_limited_fold(words, canon, guess, m, d),
            hard_limited_fold(words, canon, guess, n, d),
        ) {
            (Some(t), Some(v)) => t <= v,
            _ => false,
        },
    decreases n,
{
    if m < n {
        let b = index_bucket_of(words, canon, guess, n - 1);
        if !(n - 1 == 242 || b.len() == 0) {
            lemma_hard_limited_min_pos(b, b.len() as int, canon, d);
        }
        lemma_hard_limited_fold_mono(words, canon, guess, m, n - 1, d);
    }
}

/// Batch cost of opening with canonical word `guess` under hard rules,
/// over the table-backed index dictionary: every level restricts the
/// follow-up pool to the current bucket itself and recurses into this same
/// function, so hard-mode consistency holds at every depth. Feedback comes
/// from matrix lookups in place of recomputation. The result is exactly the
/// recursion of `hard_limited_cost`, except that a total beyond `u32` is
/// reported as no solution.
pub fn solve_hard_limited(
    guess: u16,
    dict: &OffsetDictionary,
    table: &FeedbackTable,
    depth: usize,
) -> (r: Option<u32>)
    requires
        table.wf(),
        dict.wf_for(table.word_list().len() as int),
        (guess as int) < table.word_list().len(),
        dict@.len() >= 1,
    ensures
        dict@.len() == 1 ==> r == Some(1u32),
        depth == 0 && dict@.len() != 1 ==> r is None,
        dict@.len() != 1 && depth >= 1 && nonempty_count(
            index_buckets_of(dict@, table.word_list(), guess),
            243,
        ) == dict@.len() ==> r == Some((2 * dict@.len() - 1) as u32),
        match r {
            Some(v) => v >= 1,
            None => true,
        },
        ({
            match hard_limited_cost(guess, dict@, table.word_list(), depth as int) {
                Some(v) => if v <= u32::MAX {
                    r == Some(v as u32)
                } else {
                    r is None
                },
                None => r is None,
            }
        }),
    decreases depth,
{
    if dict.len() == 1 {
        return Some(1);
    }
    if depth == 0 {
        return None;
    }
    let partition = dict.partition(table, guess);
    proof {
        assert(partition@ =~= index_buckets_of(dict@, table.word_list(), guess));
    }
    let nb = partition.nonempty_buckets();
    proof {
        lemma_nonempty_count_bounds(partition@, 243);
    }
    if nb == dict.len() {
        // every word sits in its own bucket: one distinguishing guess each,
        // minus the one resolved by the opening guess itself
        return Some((2 * nb) as u32 - 1);
    }
    let mut total: u32 = 1;
    for c in 0..243usize
        invariant
            table.wf(),
            partition@.len() == 243,
            partition@ == index_buckets_of(dict@, table.word_list(), guess),
            depth >= 1,
            dict@.len() != 1,
            total >= 1,
            nonempty_count(index_buckets_of(dict@, table.word_list(), guess), 243) != dict@.len(),
            hard_limited_fold(dict@, table.word_list(), guess, c as int, depth - 1) == Some(
                total as int,
            ),
            forall|cc: int, k: int|
                0 <= cc < 243 && 0 <= k < partition@[cc].len() ==> (#[trigger] partition@[cc][k] as int)
                    < table.word_list().len(),
    {
        if c != 242 {
            let bucket = partition.bucket(c);
            let bn = bucket.len();
            if bn > 0 {
                let mut bestv: Option<u32> = None;
                for j in 0..bn
                    invariant
                        table.wf(),
                        bucket@ == partition@[c as int],
                        bucket@ == index_bucket_of(dict@, table.word_list(), guess, c as int),
                        partition@.len() == 243,
                        c < 243,
                        bn == bucket@.len(),
                        bn >= 1,
                        depth >= 1,
                        match hard_limited_min(bucket@, j as int, table.word_list(), depth - 1) {
                            Some(v) => bestv == if v <= u32::MAX {
                                Some(v as u32)
                            } else {
                                None::<u32>
                            },
                            None => bestv is None,
                        },
                        forall|cc: int, k: int|
                            0 <= cc < 243 && 0 <= k < partition@[cc].len() ==> (
                            #[trigger] partition@[cc][k] as int) < table.word_list().len(),
                {
                    let g2 = bucket.word(j);
                    let sub = solve_hard_limited(g2, bucket, table, depth - 1);
                    bestv = match (bestv, sub) {
                        (None, s) => s,
                        (Some(b), Some(v)) => if v < b {
                            Some(v)
                        } else {
                            Some(b)
                        },
                        (Some(b), None) => Some(b),
                    };
                    proof {
                        let canon = table.word_list();
                        let d = depth - 1;
                        let prev = hard_limited_min(bucket@, j as int, canon, d);
                        let cur = hard_limited_cost(bucket@[j as int], bucket@, canon, d);
                        lemma_hard_limited_min_pos(bucket@, j as int, canon, d);
                        lemma_hard_limited_cost_pos(bucket@[j as int], bucket@, canon, d);
                        assert(hard_limited_min(bucket@, j + 1, canon, d) == (match (prev, cur) {
                            (None, s) => s,
                            (Some(r0), Some(v0)) => if v0 < r0 {
                                Some(v0)
                            } else {
                                Some(r0)
                            },
                            (Some(r0), None) => Some(r0),
                        }));
                        match (prev, cur) {
                            (Some(r0), Some(v0)) => {
                                if r0 <= u32::MAX && v0 <= u32::MAX {
                                    assert(bestv == if v0 < r0 {
                                        Some(v0 as u32)
                                    } else {
                                        Some(r0 as u32)
                                    });
                                } else if r0 <= u32::MAX {
                                    assert(r0 < v0);
                                    assert(bestv == Some(r0 as u32));
                                } else if v0 <= u32::MAX {
                                    assert(v0 < r0);
                                    assert(bestv == Some(v0 as u32));
                                } else {
                                    assert(bestv is None);
                                }
                            },
                            _ => {},
                        }
                    }
                }
                proof {
                    let canon = table.word_list();
                    let d = depth - 1;
                    let mv = hard_limited_min(bucket@, bucket@.len() as int, canon, d);
                    lemma_hard_limited_min_pos(bucket@, bucket@.len() as int, canon, d);
                    assert(hard_limited_fold(dict@, canon, guess, c + 1, d) == match (
                        hard_limited_fold(dict@, canon, guess, c as int, d),
                        mv,
                    ) {
                        (Some(t), Some(m)) => Some(t + bucket@.len() + m),
                        _ => None,
                    });
                    if hard_limited_fold(dict@, canon, guess, 243, d) is Some {
                        lemma_hard_limited_fold_mono(dict@, canon, guess, c + 1, 243, d);
                    }
                }
                match bestv {
                    None => {
                        return None;
                    },
                    Some(m) => {
                        match add_cost(total, bn, m) {
                            None => {
                                return None;
                            },
                            Some(t) => {
                                total = t;
                            },
                        }
                    },
                }
            }
        }
    }
    Some(total)
}

} // verus!

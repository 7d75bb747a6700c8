use wordle_lib::config::Config;
use wordle_lib::dict::{FeedbackTable, OffsetDictionary, WordDictionary};
use wordle_lib::solve::{solve, solve_easy, solve_hard, solve_hard_limited, Guess, Solution};

fn trees_equal(a: &Solution, b: &Solution) -> bool {
    if a.guess != b.guess || a.size != b.size || a.solution.len() != b.solution.len() {
        return false;
    }
    for i in 0..a.solution.len() {
        if a.solution[i].0 != b.solution[i].0 || !trees_equal(&a.solution[i].1, &b.solution[i].1) {
            return false;
        }
    }
    true
}

#[test]
fn solve_single_answer_is_leaf() {
    let answers = WordDictionary::new(b"crane");
    let guesses = WordDictionary::new(b"sanesboats");
    for breadth in [0usize, 1, 10] {
        for depth in [0usize, 1, 3, 6] {
            for hard in [false, true] {
                let s = solve(&guesses, &answers, breadth, depth, hard).expect("single answer");
                assert_eq!(s.guess, *b"crane");
                assert_eq!(s.size, 1);
                assert!(s.solution.is_empty());
            }
        }
    }
}

#[test]
fn solve_depth_one_multiple_answers_is_absent() {
    let answers = WordDictionary::new(b"cranebrace");
    let guesses = WordDictionary::new(b"sanesboatscranebrace");
    for breadth in [1usize, 10] {
        for hard in [false, true] {
            assert!(solve(&guesses, &answers, breadth, 1, hard).is_none());
        }
    }
}

#[test]
fn solve_two_answers_fast_path() {
    // the first guess that splits both answers and can itself be the answer
    // resolves everything in two plies
    let words = b"cranebrace";
    let answers = WordDictionary::new(words);
    let guesses = WordDictionary::new(words);
    let s = solve(&guesses, &answers, 10, 6, false).expect("solvable");
    assert_eq!(s.guess, *b"crane");
    assert_eq!(s.size, 3);
    assert_eq!(s.solution.len(), 2);
}

#[test]
fn solve_is_deterministic() {
    let words = b"sanesboatstonkaauntylarescoach";
    let answers = WordDictionary::new(words);
    let guesses = WordDictionary::new(words);
    let s1 = solve(&guesses, &answers, 10, 6, false).expect("solvable");
    let s2 = solve(&guesses, &answers, 10, 6, false).expect("solvable");
    assert!(trees_equal(&s1, &s2));
    assert!(s1.size >= 6); // at least one guess per answer
}

#[test]
fn solve_hard_mode_small_set() {
    let words = b"sanesboatstonkaauntylarescoach";
    let answers = WordDictionary::new(words);
    let guesses = WordDictionary::new(words);
    let easy = solve(&guesses, &answers, 10, 6, false).expect("easy solvable");
    let hard = solve(&guesses, &answers, 10, 6, true).expect("hard solvable");
    assert!(easy.size >= 6);
    assert!(hard.size >= 6);
}

#[test]
fn slow_solution_two_answers() {
    let words = b"cranebrace";
    let answers = WordDictionary::new(words);
    let guesses = WordDictionary::new(words);
    let g = Guess::new(*b"crane", &answers);
    let s = g.slow_solution(&guesses, &answers, 10, 5, false).expect("solvable");
    assert_eq!(s.guess, *b"crane");
    assert_eq!(s.size, 3);
    assert_eq!(s.solution.len(), 2);
}

#[test]
fn solve_easy_two_answers_exact_cost() {
    let words = b"cranebrace";
    let answers = WordDictionary::new(words);
    let guesses = WordDictionary::new(words);
    // outcome "crane": 1 guess; outcome "brace": opening guess plus one more
    assert_eq!(solve_easy(*b"crane", &guesses, &answers, 5), Some(3));
}

#[test]
fn solve_easy_all_singletons_without_correct() {
    // "sanes" separates both answers but can match neither, so each outcome
    // needs the opening guess plus one finishing guess
    let answers = WordDictionary::new(b"cranebrace");
    let guesses = WordDictionary::new(b"sanescranebrace");
    assert_eq!(solve_easy(*b"sanes", &guesses, &answers, 5), Some(4));
}

#[test]
fn solve_easy_single_answer() {
    let answers = WordDictionary::new(b"crane");
    let guesses = WordDictionary::new(b"cranebrace");
    assert_eq!(solve_easy(*b"brace", &guesses, &answers, 0), Some(1));
}

#[test]
fn solve_easy_depth_exhausted() {
    let answers = WordDictionary::new(b"cranebrace");
    let guesses = WordDictionary::new(b"cranebrace");
    assert_eq!(solve_easy(*b"crane", &guesses, &answers, 0), None);
}

#[test]
fn solve_easy_empty_pool() {
    // a bucket with no follow-up candidates at all cannot be resolved
    let answers = WordDictionary::new(b"cranebrace");
    let guesses = WordDictionary::with_capacity(0);
    assert_eq!(solve_easy(*b"crane", &guesses, &answers, 5), None);
}

#[test]
fn solve_hard_empty_consistent_pool() {
    // no guess in the pool is consistent with the losing bucket's feedback
    let answers = WordDictionary::new(b"cranebrace");
    let guesses = WordDictionary::new(b"crane");
    assert_eq!(solve_hard(*b"crane", &guesses, &answers, 5), None);
}

#[test]
fn solve_easy_uninformative_guess() {
    // no letter of the guess occurs in either answer: one bucket, nothing
    // learned
    let answers = WordDictionary::new(b"cranebrace");
    let guesses = WordDictionary::new(b"cranebrace");
    assert_eq!(solve_easy(*b"pivot", &guesses, &answers, 5), None);
}

#[test]
fn solve_hard_two_answers_exact_cost() {
    let words = b"cranebrace";
    let answers = WordDictionary::new(words);
    let guesses = WordDictionary::new(words);
    assert_eq!(solve_hard(*b"crane", &guesses, &answers, 5), Some(3));
}

#[test]
fn solve_hard_limited_two_answers() {
    let answers = WordDictionary::new(b"cranebrace");
    let table = FeedbackTable::new(&answers);
    let dict = OffsetDictionary::new(2);
    // both words split into singleton buckets at once
    assert_eq!(solve_hard_limited(0, &dict, &table, 5), Some(3));
}

#[test]
fn solve_hard_limited_single_word() {
    let answers = WordDictionary::new(b"crane");
    let table = FeedbackTable::new(&answers);
    let dict = OffsetDictionary::new(1);
    assert_eq!(solve_hard_limited(0, &dict, &table, 5), Some(1));
}

#[test]
fn solve_hard_limited_depth_exhausted() {
    let answers = WordDictionary::new(b"sanesboatstonkaauntylarescoach");
    let table = FeedbackTable::new(&answers);
    let dict = OffsetDictionary::new(6);
    assert_eq!(solve_hard_limited(0, &dict, &table, 0), None);
}

#[test]
fn batch_modes_agree_on_small_set() {
    let words = b"sanesboatstonkaauntylarescoach";
    let answers = WordDictionary::new(words);
    let guesses = WordDictionary::new(words);
    let table = FeedbackTable::new(&answers);
    let dict = OffsetDictionary::new(6);
    let easy = solve_easy(*b"sanes", &guesses, &answers, 5);
    let hard = solve_hard(*b"sanes", &guesses, &answers, 5);
    let limited = solve_hard_limited(0, &dict, &table, 5);
    assert!(easy.is_some());
    assert!(hard.is_some());
    assert!(limited.is_some());
    // restricting the follow-up pool can only cost more
    assert!(hard.unwrap() >= easy.unwrap());
    assert!(limited.unwrap() >= easy.unwrap());
}

#[test]
fn default_config() {
    let c = Config::default();
    assert!(!c.hard);
    assert_eq!(c.breadth, 10);
    assert_eq!(c.depth, 6);
    assert!(!c.limit_guesses);
    assert!(c.first_guess.is_none());
    assert!(!c.search);
}

#[test]
fn mini_end_to_end_mean_is_stable() {
    let words = b"sanesboatstonkaauntylarescoach";
    let answers = WordDictionary::new(words);
    let guesses = WordDictionary::new(words);
    let mut sizes = Vec::new();
    for _ in 0..3 {
        let s = solve(&guesses, &answers, 10, 6, false).expect("solvable");
        sizes.push(s.size);
    }
    assert_eq!(sizes[0], sizes[1]);
    assert_eq!(sizes[1], sizes[2]);
    let mean = sizes[0] as f32 / answers.len() as f32;
    assert!(mean >= 1.0 && mean <= 6.0);
}

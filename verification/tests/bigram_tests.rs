use makegrad::counts::BigramCounts;
use makegrad::sampling::{step_after_draw, BigramSampler, InvalidRow};
use makegrad::vocab::{wrap_dots, Token, Vocab};
use rand::{SeedableRng, rngs::StdRng};

#[test]
fn wrap_dots_frames_the_word() {
    assert_eq!(wrap_dots("emma"), vec!['.', 'e', 'm', 'm', 'a', '.']);
    assert_eq!(wrap_dots(""), vec!['.', '.']);
}

#[test]
fn vocabularies() {
    let v = Vocab::dot_first();
    assert_eq!(v.len(), 27);
    assert_eq!(v.stoi('.'), Some(0));
    assert_eq!(v.stoi('a'), Some(1));
    assert_eq!(v.stoi('z'), Some(26));
    assert_eq!(v.stoi('A'), None);
    assert_eq!(v.itos(3), Token::Char('c'));
    let w = Vocab::dot_last();
    assert_eq!(w.stoi('a'), Some(0));
    assert_eq!(w.stoi('.'), Some(26));
    assert_eq!(w.start_index(), 26);
    let m = Vocab::with_markers();
    assert_eq!(m.len(), 28);
    assert_eq!(m.itos(0), Token::Start);
    assert_eq!(m.itos(27), Token::End);
    assert_eq!(m.stoi('a'), Some(1));
}

#[test]
fn encode_and_decode() {
    let v = Vocab::dot_first();
    assert!(v.covers_word("ann"));
    assert!(!v.covers_word("Ann"));
    assert_eq!(v.encode("ann"), vec![0, 1, 14, 14, 0]);
    assert_eq!(v.decode(&v.encode("ann")), ".ann.");
    assert_eq!(v.decode(&vec![2, 15]), "bo");
    let m = Vocab::with_markers();
    assert_eq!(m.encode("ab"), vec![0, 1, 2, 27]);
    assert_eq!(m.decode(&m.encode("ab")), "<S>ab<E>");
}

#[test]
fn bigrams_are_adjacent_pairs() {
    let v = Vocab::dot_first();
    assert_eq!(v.bigrams("bf"), vec![(0, 2), (2, 6), (6, 0)]);
    assert_eq!(v.bigrams(""), vec![(0, 0)]);
}

#[test]
fn counts_from_words() {
    let v = Vocab::dot_first();
    let words = vec!["emma".to_string(), "ava".to_string()];
    let c = BigramCounts::from_words(&v, &words);
    assert_eq!(c.size(), 27);
    assert_eq!(c.get(0, 5), 1); // . e
    assert_eq!(c.get(13, 13), 1); // m m
    assert_eq!(c.get(1, 0), 2); // a .
    assert_eq!(c.get(0, 1), 1); // . a
    assert_eq!(c.get(1, 22), 1); // a v
    assert_eq!(c.get(2, 2), 0);
    let total: usize = (0..27).flat_map(|i| c.row(i)).sum();
    assert_eq!(total, 5 + 4);
}

#[test]
fn count_table_set_and_increment() {
    let mut c = BigramCounts::new(3);
    assert_eq!(c.row(1), vec![0, 0, 0]);
    c.set(1, 2, 5);
    c.increment(1, 2);
    c.increment(0, 0);
    assert_eq!(c.get(1, 2), 6);
    assert_eq!(c.row(1), vec![0, 0, 6]);
    assert_eq!(c.get(0, 0), 1);
    assert_eq!(c.zero_bigrams(), vec![(0, 1), (0, 2), (1, 0), (1, 1), (2, 0), (2, 1), (2, 2)]);
}

#[test]
fn sampling_follows_seen_bigrams() {
    let mut c = BigramCounts::new(3);
    c.set(0, 2, 4);
    c.set(1, 0, 1);
    c.set(1, 1, 3);
    c.set(2, 1, 2);
    let s = BigramSampler::new(&c);
    let mut rng = StdRng::seed_from_u64(7);
    for _ in 0..200 {
        assert_eq!(s.sample_next(0, &mut rng), 2);
        assert_eq!(s.sample_next(2, &mut rng), 1);
        let n = s.sample_next(1, &mut rng);
        assert!(n == 0 || n == 1);
    }
}

#[test]
fn generation_steps_stop_at_the_end_marker() {
    // 0 -> 1 -> 2 -> 0 is the only path.
    let mut c = BigramCounts::new(3);
    c.set(0, 1, 1);
    c.set(1, 2, 1);
    c.set(2, 0, 1);
    let s = BigramSampler::new(&c);
    let mut rng = StdRng::seed_from_u64(42);
    let mut word = Vec::new();
    assert_eq!(s.generation_step(&mut word, 0, 0, &mut rng), Some(1));
    assert_eq!(s.generation_step(&mut word, 1, 0, &mut rng), Some(2));
    assert_eq!(s.generation_step(&mut word, 2, 0, &mut rng), None);
    assert_eq!(word, vec![1, 2]);
}

#[test]
fn counts_match_bigram_occurrences() {
    let v = Vocab::dot_first();
    let word = "annabanana";
    let c = BigramCounts::from_words(&v, &vec![word.to_string()]);
    let pairs = v.bigrams(word);
    for i in 0..27 {
        for j in 0..27 {
            let occurrences = pairs.iter().filter(|&&p| p == (i, j)).count();
            assert_eq!(c.get(i, j), occurrences);
        }
    }
    assert_eq!(c.get(1, 14), 3); // a n
}

#[test]
fn encoding_is_wrap_dots_then_lookup() {
    let v = Vocab::dot_first();
    let via_dots: Vec<usize> = wrap_dots("zoe").into_iter().map(|c| v.stoi(c).unwrap()).collect();
    assert_eq!(v.encode("zoe"), via_dots);
    let letters: String = wrap_dots("zoe").into_iter().collect();
    assert_eq!(v.decode(&v.encode("zoe")), letters);
}

#[test]
fn checked_sampler_names_the_first_empty_row() {
    let mut c = BigramCounts::new(3);
    c.set(0, 1, 2);
    c.set(2, 0, 1);
    assert_eq!(BigramSampler::try_new(&c).err(), Some(InvalidRow { row: 1 }));
    c.set(1, 1, 1);
    let s = BigramSampler::try_new(&c).ok().expect("every row has a count");
    let mut rng = StdRng::seed_from_u64(3);
    assert_eq!(s.sample_next(0, &mut rng), 1);
}

#[test]
fn checked_sampler_refuses_an_overflowing_row() {
    let mut c = BigramCounts::new(2);
    c.set(0, 0, usize::MAX);
    c.set(0, 1, 1);
    c.set(1, 0, 1);
    assert_eq!(BigramSampler::try_new(&c).err(), Some(InvalidRow { row: 0 }));
}

#[test]
fn generated_words_take_only_seen_transitions() {
    let v = Vocab::dot_first();
    let words: Vec<String> = ["emma", "olivia", "ava", "isabella", "sophia"].iter().map(|w| w.to_string()).collect();
    let c = BigramCounts::from_words(&v, &words);
    let s = BigramSampler::try_new(&c).ok();
    assert!(s.is_none());
    let mut full = BigramCounts::from_words(&v, &words);
    for i in 0..full.size() {
        if (0..full.size()).all(|j| full.get(i, j) == 0) {
            full.set(i, v.end_index(), 1);
        }
    }
    let s = BigramSampler::try_new(&full).ok().expect("every row has a count now");
    let mut rng = StdRng::seed_from_u64(11);
    for _ in 0..50 {
        let mut cur = v.start_index();
        let mut word = Vec::new();
        while let Some(next) = s.generation_step(&mut word, cur, v.end_index(), &mut rng) {
            assert!(full.get(cur, next) > 0);
            cur = next;
        }
        assert!(full.get(cur, v.end_index()) > 0);
        assert!(!word.contains(&v.end_index()));
    }
}

#[test]
fn a_drawn_symbol_ends_or_extends_the_word() {
    let mut word = vec![3, 4];
    assert_eq!(step_after_draw(&mut word, 5, 0), Some(5));
    assert_eq!(word, vec![3, 4, 5]);
    assert_eq!(step_after_draw(&mut word, 0, 0), None);
    assert_eq!(word, vec![3, 4, 5]);
}

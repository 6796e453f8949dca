use wordle::letters::CharSet;
use wordle::position::Position;
use wordle::word::Word;

fn char_set(letters: &str) -> CharSet {
    let mut s = CharSet::new();
    for c in letters.chars() {
        s.insert(c);
    }
    s
}

#[test]
fn applying_twice_changes_nothing() {
    let word = Word::new("aypitvgu", &["W  r".to_string(), "  l".to_string()]);
    let words = vec!["weary", "pilot", "vague", "wordle"];
    let once = word.filter(words);
    let twice = word.filter(once.clone());
    assert_eq!(once, twice);
}

#[test]
fn filtering_keeps_the_original_order() {
    let word = Word::new("r", &[]);
    let words = vec!["alpha", "bravo", "gamma", "delta", "omega"];
    assert_eq!(vec!["alpha", "gamma", "delta", "omega"], word.filter(words));
}

#[test]
fn empty_constraints_keep_any_list() {
    let word = Word::new("", &[]);
    let words = vec!["one", "two", "three", "four"];
    assert_eq!(words.clone(), word.filter(words));
}

#[test]
fn punctuation_and_spaces_carry_no_information() {
    let word = Word::new("", &["?! ,3".to_string()]);

    assert_eq!(word.needles, CharSet::new());
    assert_eq!(
        word.positions,
        vec![
            Position::default(),
            Position::default(),
            Position::default(),
            Position::default(),
            Position::default(),
        ],
    );
}

#[test]
fn uppercase_mark_confirms_the_lowercase_letter() {
    let word = Word::new("", &["F".to_string()]);

    assert_eq!(Some('f'), word.positions[0].green);
    assert_eq!(word.needles, CharSet::new());
    assert_eq!(word.positions[0].yellow, CharSet::new());
}

#[test]
fn lowercase_mark_is_needle_and_forbidden_here() {
    let word = Word::new("", &["f".to_string()]);

    assert_eq!(None, word.positions[0].green);
    assert_eq!(word.needles, char_set("f"));
    assert_eq!(word.positions[0].yellow, char_set("f"));
}

#[test]
fn marks_past_the_word_length_are_ignored() {
    let word = Word::new("", &["     xY".to_string()]);

    assert_eq!(word.needles, CharSet::new());
    assert_eq!(
        word.positions,
        vec![
            Position::default(),
            Position::default(),
            Position::default(),
            Position::default(),
            Position::default(),
        ],
    );
}

#[test]
fn later_green_mark_wins() {
    let word = Word::new("", &["A".to_string(), "B".to_string()]);

    assert_eq!(Some('b'), word.positions[0].green);
}

#[test]
fn green_mark_overrides_forbidden_letters() {
    let word = Word::new("", &["f".to_string(), "F".to_string()]);
    let words = vec!["foo", "bar"];
    assert_eq!(vec!["foo"], word.filter(words));
}

#[test]
fn unused_letter_vetoes_even_a_needle() {
    let word = Word::new("a", &["a".to_string()]);
    let words = vec!["aback", "creak"];
    assert!(word.filter(words).is_empty());
}

#[test]
fn short_word_fails_a_confirmed_position() {
    let word = Word::new("", &["   K".to_string()]);
    let words = vec!["oak", "weak"];
    assert_eq!(vec!["weak"], word.filter(words));
}

#[test]
fn short_word_passes_a_forbidden_position_vacuously() {
    let word = Word::new("", &["   k".to_string()]);
    let words = vec!["koa", "kite", "week"];
    assert_eq!(vec!["koa", "kite"], word.filter(words));
}

#[test]
fn needle_needs_one_occurrence_only() {
    let word = Word::new("", &["e   e".to_string()]);
    let words = vec!["melon", "crumb"];
    assert_eq!(vec!["melon"], word.filter(words));
}

#[test]
fn duplicate_letters_make_one_member() {
    assert_eq!(char_set("aab"), char_set("ab"));
    assert_ne!(char_set("ab"), char_set("a"));
}

#[test]
fn filtering_an_empty_list_yields_an_empty_list() {
    let word = Word::new("xyz", &["A  b".to_string()]);
    let empty: Vec<&str> = Vec::new();
    assert!(word.filter(empty).is_empty());
}

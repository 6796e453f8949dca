use wordle::letters::CharSet;
use wordle::position::Position;
use wordle::word::Word;

fn char_set(letters: &str) -> CharSet {
    let mut s = CharSet::new();
    for c in letters.chars() {
        s.insert(c);
    }
    s
}

#[test]
fn implements_default() {
    let it = Position::default();

    assert_eq!(None, it.green);
}

#[test]
fn new_empty() {
    let word = Word::new("", &[]);

    assert_eq!(word.unused_letters, CharSet::new());
    assert_eq!(
        word.positions,
        vec![
            Position::default(),
            Position::default(),
            Position::default(),
            Position::default(),
            Position::default(),
        ],
    );
}

#[test]
fn new_parse_args() {
    let word = Word::new("wupsnm", &["P  ge".to_string(), " e".to_string()]);

    assert_eq!(word.unused_letters, char_set("wupsnm"));
    assert_eq!(word.needles, char_set("ge"));
    assert_eq!(
        word.positions,
        vec![
            Position {
                yellow: CharSet::new(),
                green: Some('p'),
            },
            Position {
                yellow: char_set("e"),
                green: None,
            },
            Position::default(),
            Position {
                yellow: char_set("g"),
                green: None,
            },
            Position {
                yellow: char_set("e"),
                green: None,
            },
        ],
    );
}

#[test]
fn filter_empty() {
    let word = Word::new("", &[]);
    let words = vec!["foo", "bar", "baz"];
    assert_eq!(words.clone(), word.filter(words));
}

#[test]
fn filter_unused_chars() {
    let word = Word::new("fr", &[]);
    let words = vec!["foo", "bar", "baz"];
    assert_eq!(vec!["baz"], word.filter(words));
}

#[test]
fn filter_known_spots() {
    let word = Word::new("", &["F".to_string()]);
    let words = vec!["foo", "bar", "baz"];
    assert_eq!(vec!["foo"], word.filter(words));
}

#[test]
fn filter_needles() {
    let word = Word::new("", &["ar".to_string()]);
    let words = vec!["foo", "bar", "baz"];
    assert_eq!(vec!["bar"], word.filter(words));

    let word = Word::new("psn", &[" e i ".to_string()]);
    let words = vec!["foxie", "eiaaa"];
    assert_eq!(vec!["eiaaa"], word.filter(words));
}

#[test]
fn filter_wordle() {
    let word = Word::new("aypitvgu", &["W  r".to_string(), "  l".to_string()]);
    let words = vec!["weary", "pilot", "vague", "wordle"];
    assert_eq!(vec!["wordle"], word.filter(words));
}

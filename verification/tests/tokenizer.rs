use search_engine::chars::{chars_of, string_of};
use search_engine::lexer::{tokenize, upper_string_of, Lexer};
use search_engine::tokenizer::{lower_string_of, stem_of_run, tokenize_stemmed, Tokenizer};

fn strings(words: &[&str]) -> Vec<String> {
    words.iter().map(|w| w.to_string()).collect()
}

#[test]
fn empty_text_has_no_terms() {
    assert_eq!(tokenize(""), Vec::<String>::new());
    assert_eq!(tokenize("   \t\n "), Vec::<String>::new());
}

#[test]
fn digits_then_letters_are_two_terms() {
    assert_eq!(tokenize("123abc"), strings(&["123", "ABC"]));
}

#[test]
fn a_word_takes_the_digits_that_follow_it() {
    assert_eq!(tokenize("abc123"), strings(&["ABC123"]));
    assert_eq!(tokenize("abc 123"), strings(&["ABC", "123"]));
}

#[test]
fn a_lone_symbol_is_its_own_term() {
    assert_eq!(tokenize("#"), strings(&["#"]));
    assert_eq!(tokenize("a+b"), strings(&["A", "+", "B"]));
    assert_eq!(tokenize("##"), strings(&["#", "#"]));
}

#[test]
fn whitespace_separates_terms_and_is_in_none() {
    let terms = tokenize("  hello \t world\n42  ");
    assert_eq!(terms, strings(&["HELLO", "WORLD", "42"]));
    for term in &terms {
        assert!(!term.is_empty());
        assert!(!term.chars().any(|c| c.is_whitespace()));
    }
}

#[test]
fn only_ascii_letters_are_folded() {
    assert_eq!(tokenize("héllo Straße"), strings(&["HéLLO", "STRAßE"]));
}

#[test]
fn tokenizing_twice_gives_the_same_terms() {
    let text = "The quick brown fox, 42 times; jumped over #1!";
    assert_eq!(tokenize(text), tokenize(text));
    assert_eq!(
        tokenize(text),
        strings(&["THE", "QUICK", "BROWN", "FOX", ",", "42", "TIMES", ";", "JUMPED", "OVER", "#", "1", "!"])
    );
}

#[test]
fn lexer_hands_out_terms_one_by_one() {
    let chars = chars_of("ab 12 ?");
    let mut lexer = Lexer::new(&chars);
    assert_eq!(lexer.next(), Some("AB".to_string()));
    assert_eq!(lexer.next_token(), Some("12".to_string()));
    assert_eq!(lexer.next(), Some("?".to_string()));
    assert_eq!(lexer.next(), None);
    assert_eq!(lexer.next(), None);
}

#[test]
fn lexer_chops_runs() {
    let chars = chars_of("  abc");
    let mut lexer = Lexer::new(&chars);
    lexer.trim_left();
    let first: String = lexer.chop(1).iter().collect();
    assert_eq!(first, "a");
    let rest: String = lexer.chop_while(|c| c.is_alphabetic()).iter().collect();
    assert_eq!(rest, "bc");
    assert_eq!(lexer.next_run(), None);
}

#[test]
fn stemming_reduces_words() {
    assert_eq!(tokenize_stemmed("Fruitlessly running"), strings(&["fruitless", "run"]));
    assert_eq!(tokenize_stemmed("Cats"), strings(&["cat"]));
}

#[test]
fn stemming_leaves_numbers_and_symbols() {
    assert_eq!(tokenize_stemmed("123 # 45x"), strings(&["123", "#", "45", "x"]));
    assert_eq!(tokenize_stemmed(""), Vec::<String>::new());
}

#[test]
fn stemming_tokenizer_hands_out_terms_one_by_one() {
    let chars = chars_of("Indexing 7 documents");
    let mut tokenizer = Tokenizer::new(&chars);
    assert_eq!(tokenizer.next(), Some("index".to_string()));
    assert_eq!(tokenizer.next_token(), Some("7".to_string()));
    assert_eq!(tokenizer.next(), Some("document".to_string()));
    assert_eq!(tokenizer.next(), None);
}

#[test]
fn stemming_tokenizer_chops_runs() {
    let chars = chars_of(" 12ab");
    let mut tokenizer = Tokenizer::new(&chars);
    tokenizer.trim_left();
    let digits: String = tokenizer.chop_while(|c| c.is_numeric()).iter().collect();
    assert_eq!(digits, "12");
    let letter: String = tokenizer.chop(1).iter().collect();
    assert_eq!(letter, "a");
}

#[test]
fn runs_are_folded_and_stemmed() {
    let word = chars_of("Walking9é");
    assert_eq!(string_of(&word), "Walking9é");
    assert_eq!(upper_string_of(&word), "WALKING9é");
    assert_eq!(lower_string_of(&word), "walking9é");
    assert_eq!(string_of(&chars_of("")), "");
    assert_eq!(stem_of_run(&chars_of("Walking")), "walk");
    assert_eq!(stem_of_run(&chars_of("2024")), "2024");
    assert_eq!(stem_of_run(&chars_of("%")), "%");
}

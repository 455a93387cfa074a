use rsfts::stopwords::{list_contains, stopword_list};
use rsfts::tokenizer::{count_terms, distinct_terms};
use rsfts::Tokenizer;

fn strings(words: &[&str]) -> Vec<String> {
    words.iter().map(|w| w.to_string()).collect()
}

#[test]
fn test_tokenize() {
    let tokenizer = Tokenizer::new();
    let tokens = tokenizer.tokenize("Hello, World! This is a test.");
    assert_eq!(tokens, vec!["Hello", "World", "This", "is", "a", "test"]);
}

#[test]
fn test_analyze() {
    let tokenizer = Tokenizer::new();
    let tokens = tokenizer.analyze("The quick brown fox jumps");
    // "the" is a stopword, others are stemmed
    assert!(tokens.contains(&"quick".to_string()));
    assert!(tokens.contains(&"brown".to_string()));
    assert!(!tokens.contains(&"the".to_string()));
}

#[test]
fn analyze_gives_exact_terms() {
    let tokenizer = Tokenizer::new();
    let tokens = tokenizer.analyze("The quick brown fox jumps");
    assert_eq!(tokens, vec!["quick", "brown", "fox", "jump"]);
}

#[test]
fn tokenize_empty_and_separators_only() {
    let tokenizer = Tokenizer::new();
    assert!(tokenizer.tokenize("").is_empty());
    assert!(tokenizer.tokenize(" ,.;!  \t\n--").is_empty());
}

#[test]
fn tokenize_single_word_without_separator() {
    let tokenizer = Tokenizer::new();
    assert_eq!(tokenizer.tokenize("word"), vec!["word"]);
    assert_eq!(tokenizer.tokenize("  word"), vec!["word"]);
    assert_eq!(tokenizer.tokenize("word  "), vec!["word"]);
}

#[test]
fn tokenize_splits_on_every_non_alphanumeric() {
    let tokenizer = Tokenizer::new();
    assert_eq!(tokenizer.tokenize("don't stop"), vec!["don", "t", "stop"]);
    assert_eq!(tokenizer.tokenize("a_b-c.d"), vec!["a", "b", "c", "d"]);
    assert_eq!(tokenizer.tokenize("abc123 45"), vec!["abc123", "45"]);
}

#[test]
fn tokenize_unicode_letters_and_digits() {
    let tokenizer = Tokenizer::new();
    assert_eq!(tokenizer.tokenize("café è naïve"), vec!["café", "è", "naïve"]);
    assert_eq!(tokenizer.tokenize("日本語 テキスト"), vec!["日本語", "テキスト"]);
    assert_eq!(tokenizer.tokenize("x²+y"), vec!["x²", "y"]);
}

#[test]
fn tokenize_splits_at_a_separator() {
    let tokenizer = Tokenizer::new();
    let left = "alpha beta";
    let right = "gamma, delta";
    let mut expected = tokenizer.tokenize(left);
    expected.extend(tokenizer.tokenize(right));
    assert_eq!(tokenizer.tokenize(&format!("{}!{}", left, right)), expected);
}

#[test]
fn lowercase_filter_lowers_each_word() {
    let tokenizer = Tokenizer::new();
    let lower = tokenizer.lowercase_filter(strings(&["Hello", "WORLD", "ÄÖÜ", "mixedCase9"]));
    assert_eq!(lower, vec!["hello", "world", "äöü", "mixedcase9"]);
}

#[test]
fn stopword_filter_drops_only_stopwords() {
    let tokenizer = Tokenizer::new();
    let kept = tokenizer.stopword_filter(strings(&["the", "cat", "is", "on", "a", "mat", "yourselves"]));
    assert_eq!(kept, vec!["cat", "mat"]);
}

#[test]
fn stopword_filter_is_applied_to_the_given_form() {
    let tokenizer = Tokenizer::new();
    let kept = tokenizer.stopword_filter(strings(&["The", "the"]));
    assert_eq!(kept, vec!["The"]);
}

#[test]
fn stemmer_filter_stems_each_word() {
    let tokenizer = Tokenizer::new();
    let stems = tokenizer.stemmer_filter(strings(&["running", "jumps", "fruitlessly", "programming"]));
    assert_eq!(stems, vec!["run", "jump", "fruitless", "program"]);
}

#[test]
fn analyze_lowercases_before_the_stopword_test() {
    let tokenizer = Tokenizer::new();
    assert_eq!(tokenizer.analyze("THE Quick AND the DEAD"), vec!["quick", "dead"]);
}

#[test]
fn analyze_keeps_duplicates_in_order() {
    let tokenizer = Tokenizer::new();
    assert_eq!(
        tokenizer.analyze("rust rusts rust, go and rust!"),
        vec!["rust", "rust", "rust", "go", "rust"]
    );
}

#[test]
fn analyze_of_stopwords_only_is_empty() {
    let tokenizer = Tokenizer::new();
    assert!(tokenizer.analyze("the and of").is_empty());
    assert!(tokenizer.analyze("").is_empty());
}

#[test]
fn analyze_is_deterministic() {
    let first = Tokenizer::new();
    let second = Tokenizer::new();
    let text = "Rust is a systems programming language that runs blazingly fast";
    assert_eq!(first.analyze(text), first.analyze(text));
    assert_eq!(first.analyze(text), second.analyze(text));
}

#[test]
fn analyze_unique_keeps_first_occurrences() {
    let tokenizer = Tokenizer::new();
    assert_eq!(
        tokenizer.analyze_unique("go rust go python rust"),
        vec!["go", "rust", "python"]
    );
}

#[test]
fn frequencies_agree_with_analyze() {
    let tokenizer = Tokenizer::new();
    let text = "Programming languages: programming in Rust, programs in Go, Rust again";
    let terms = tokenizer.analyze(text);
    let counts = tokenizer.analyze_with_frequencies(text);

    let mut sum = 0;
    for i in 0..counts.len() {
        let key = counts.key_at(i);
        let count = *counts.value_at(i);
        assert_eq!(count, terms.iter().filter(|t| *t == key).count());
        assert!(count > 0);
        sum += count;
    }
    assert_eq!(sum, terms.len());
    for term in &terms {
        assert!(counts.contains_key(term));
    }
}

#[test]
fn frequencies_exact_values() {
    let tokenizer = Tokenizer::new();
    let counts = tokenizer.analyze_with_frequencies("rust go rust rust python go");
    assert_eq!(counts.len(), 3);
    assert_eq!(counts.get("rust"), Some(&3));
    assert_eq!(counts.get("go"), Some(&2));
    assert_eq!(counts.get("python"), Some(&1));
    assert_eq!(counts.get("java"), None);
}

#[test]
fn count_terms_of_nothing_is_empty() {
    let counts = count_terms(&[]);
    assert!(counts.is_empty());
    assert!(distinct_terms(&[]).is_empty());
}

#[test]
fn stopword_list_has_the_known_words() {
    let list = stopword_list();
    assert_eq!(list.len(), 174);
    assert_eq!(list[0], "a");
    assert_eq!(list[173], "yourselves");
    assert!(list_contains(&list, "the"));
    assert!(list_contains(&list, "aren't"));
    assert!(list_contains(&list, "yourselves"));
    assert!(!list_contains(&list, "rust"));
    assert!(!list_contains(&list, "The"));
    assert!(!list_contains(&list, ""));
}

#[test]
fn analyze_takes_any_unicode_text() {
    let tokenizer = Tokenizer::new();
    let text = "Naïve café — İstanbul STRASSE Straße ĲSSEL ǅemal 日本語のテキスト Ünïcödé's ﬁnal ÉCOLES fiancées 𝔘𝔫𝔦 ١٢٣ ½ ⅷ";
    let terms = tokenizer.analyze(text);
    assert!(!terms.is_empty());
    assert!(terms.contains(&"café".to_string()));
    assert!(terms.contains(&"日本語のテキスト".to_string()));
    assert!(terms.iter().all(|t| !t.is_empty()));
    assert_eq!(terms, tokenizer.analyze(text));
    let counts = tokenizer.analyze_with_frequencies(text);
    let mut sum = 0;
    for i in 0..counts.len() {
        sum += *counts.value_at(i);
    }
    assert_eq!(sum, terms.len());
}

#[test]
fn stemmer_filter_takes_words_of_every_shape() {
    let tokenizer = Tokenizer::new();
    let words = strings(&[
        "", "a", "y", "ies", "ying", "sses", "eed", "ingly", "ational", "ization", "ßß", "éé",
        "generously", "skis", "dying", "news", "yyyy", "'", "ation", "ement", "x-ray",
    ]);
    let stems = tokenizer.stemmer_filter(words.clone());
    assert_eq!(stems.len(), words.len());
    assert_eq!(stems[0], "");
    assert_eq!(stems[12], "generous");
    assert_eq!(stems[14], "die");
    assert_eq!(stems[15], "news");
}

#[test]
fn stemmer_filter_takes_generated_words() {
    let tokenizer = Tokenizer::new();
    let alphabet: Vec<char> = "aeiouylsngdtrzbcé'ßñ日ǅ-.ίς\u{0301}\u{10ffff}".chars().collect();
    let endings = [
        "", "s", "ies", "ied", "sses", "ing", "ingly", "ed", "edly", "eed", "eedly", "ational",
        "tional", "ization", "ousness", "fulness", "alism", "ement", "ment", "ion", "ly", "li",
        "ogi", "ative", "icate", "ness", "able", "ible", "e", "l", "y", "'s'", "'s", "'",
    ];
    let mut state: u64 = 0x2545_f491_4f6c_dd1d;
    let mut words = Vec::new();
    for round in 0..60_000 {
        let mut word = String::new();
        state ^= state << 13;
        state ^= state >> 7;
        state ^= state << 17;
        let length = (state % 7) as usize;
        let mut bits = state >> 8;
        for _ in 0..length {
            word.push(alphabet[(bits % alphabet.len() as u64) as usize]);
            bits /= alphabet.len() as u64;
        }
        word.push_str(endings[round % endings.len()]);
        words.push(word);
    }
    let count = words.len();
    let stems = tokenizer.stemmer_filter(words.clone());
    assert_eq!(stems.len(), count);
    assert_eq!(stems, tokenizer.stemmer_filter(words));
}

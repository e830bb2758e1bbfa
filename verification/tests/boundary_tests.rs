use typeahead::app_error::AppError;
use typeahead::trie::{Trie, WordData};

fn get_default_trie() -> Trie {
    let file_content =
    "{\"A-b\": 23, \"Aar\":361,\"Aari\":151,\"Aba\":608,\"Abag\":704, \"Abe\": 300, \"Ba\": 5, \"Bah\": 5, \"Be\": 50, \"Bc\": 50}";
    Trie::initialize(&file_content, 5).unwrap()
}

// The body of an answer as the service writes it: a JSON array of names with
// the times they were used.
fn body_of_entry(data: &WordData) -> String {
    format!("{{\"name\":\"{}\",\"times\":{}}}", data.word, data.popularity)
}

fn body_of(words: &Vec<WordData>) -> String {
    let entries: Vec<String> = words.iter().map(body_of_entry).collect();
    format!("[{}]", entries.join(","))
}

#[test]
fn t_get_words_match_prefix_prefix_not_included() {
    let trie = get_default_trie();

    let result = trie.get_typeahead_words("A".to_string()).unwrap();

    assert_eq!(
        body_of(&result),
        "[{\"name\":\"Abag\",\"times\":704},{\"name\":\"Aba\",\"times\":608},{\"name\":\"Aar\",\"times\":361},{\"name\":\"Abe\",\"times\":300},{\"name\":\"Aari\",\"times\":151}]"
    );
}

#[test]
fn t_get_words_match_prefix_exact_match_prefix() {
    let trie = get_default_trie();

    let result = trie.get_typeahead_words("Aba".to_string()).unwrap();

    assert_eq!(
        body_of(&result),
        "[{\"name\":\"Aba\",\"times\":608},{\"name\":\"Abag\",\"times\":704}]"
    );
}

#[test]
fn t_get_words_match_prefix_words_with_same_popularity() {
    let mut trie = get_default_trie();
    trie.suggestion_number = 2;

    let result = trie.get_typeahead_words("B".to_string()).unwrap();

    assert_eq!(
        body_of(&result),
        "[{\"name\":\"Bc\",\"times\":50},{\"name\":\"Be\",\"times\":50}]"
    );
}

#[test]
fn t_get_words_match_prefix_case_insensitive() {
    let mut trie = get_default_trie();
    trie.suggestion_number = 2;

    let result = trie.get_typeahead_words("AA".to_string()).unwrap();

    assert_eq!(
        body_of(&result),
        "[{\"name\":\"Aar\",\"times\":361},{\"name\":\"Aari\",\"times\":151}]"
    );
}

#[test]
fn t_get_words_match_prefix_no_words_match_prefix() {
    let mut trie = get_default_trie();
    trie.suggestion_number = 2;

    let result = trie.get_typeahead_words("Brazil".to_string()).unwrap();

    assert_eq!(body_of(&result), "[]");
}

#[test]
fn t_get_words_match_prefix_return_only_prefix_and_special_character() {
    let mut trie = get_default_trie();
    trie.suggestion_number = 2;

    let result = trie.get_typeahead_words("A-b".to_string()).unwrap();

    assert_eq!(body_of(&result), "[{\"name\":\"A-b\",\"times\":23}]");
}

#[test]
fn t_get_words_match_prefix_prefix_empty() {
    let trie = get_default_trie();

    let result = trie.get_typeahead_words("".to_string()).unwrap();

    assert_eq!(
        body_of(&result),
        "[{\"name\":\"Abag\",\"times\":704},{\"name\":\"Aba\",\"times\":608},{\"name\":\"Aar\",\"times\":361},{\"name\":\"Abe\",\"times\":300},{\"name\":\"Aari\",\"times\":151}]"
    );
}

#[test]
fn t_handler_increase_popularity_word_exists() {
    let mut trie = get_default_trie();

    let result = trie.increase_popularity("Aar".to_string()).unwrap();

    assert_eq!(body_of_entry(&result), "{\"name\":\"Aar\",\"times\":362}");
}

#[test]
fn t_handler_increase_popularity_word_exists_case_sensitive() {
    let mut trie = get_default_trie();

    let result = trie.increase_popularity("AaR".to_string()).unwrap();

    assert_eq!(body_of_entry(&result), "{\"name\":\"Aar\",\"times\":362}");
}

#[test]
fn t_handler_increase_popularity_word_does_not_exists() {
    let mut trie = get_default_trie();

    let error = trie.increase_popularity("Abcd".to_string()).unwrap_err();

    assert_eq!(error, AppError::WordDoesNotExist);
    assert_eq!(error.status_code(), 400);
}

use typeahead::app_error::AppError;
use typeahead::ranking::{comes_before, rank};
use typeahead::text::{ascii_lowercase, char_code, to_lower, word_precedes};
use typeahead::trie::{Node, Trie, WordData};

const NAMES: &str = "{\"Aar\":361,\"Aari\":151,\"Aba\":608,\"Abag\":704,\"Abe\":300,\
    \"Ba\":5,\"Bah\":5,\"Be\":50,\"Bc\":50}";

fn names(limit: u8) -> Trie {
    Trie::initialize(NAMES, limit).unwrap()
}

fn word(text: &str, popularity: u16) -> WordData {
    WordData::new(text.to_string(), popularity)
}

fn ask(trie: &Trie, prefix: &str) -> Vec<WordData> {
    trie.get_typeahead_words(prefix.to_string()).unwrap()
}

#[test]
fn query_lists_most_popular_first() {
    let trie = names(5);
    assert_eq!(
        ask(&trie, "A"),
        vec![
            word("Abag", 704),
            word("Aba", 608),
            word("Aar", 361),
            word("Abe", 300),
            word("Aari", 151),
        ]
    );
}

#[test]
fn query_pins_exact_match() {
    let trie = names(5);
    assert_eq!(ask(&trie, "Aba"), vec![word("Aba", 608), word("Abag", 704)]);
}

#[test]
fn query_breaks_ties_by_word() {
    let trie = names(2);
    assert_eq!(ask(&trie, "B"), vec![word("Bc", 50), word("Be", 50)]);
}

#[test]
fn query_without_node_is_empty() {
    let trie = names(5);
    assert_eq!(ask(&trie, "Brazil"), Vec::<WordData>::new());
}

#[test]
fn increase_returns_raised_record() {
    let mut trie = names(5);
    let raised = trie.increase_popularity("Aar".to_string()).unwrap();
    assert_eq!(raised, word("Aar", 362));
    let answer = ask(&trie, "Aar");
    assert_eq!(answer, vec![word("Aar", 362), word("Aari", 151)]);
}

#[test]
fn increase_of_unknown_word_changes_nothing() {
    let mut trie = names(10);
    let before = ask(&trie, "");
    let error = trie.increase_popularity("Zzz".to_string()).unwrap_err();
    assert_eq!(error, AppError::WordDoesNotExist);
    assert_eq!(ask(&trie, ""), before);
    assert_eq!(before.len(), 9);
}

#[test]
fn increase_of_a_path_without_record_fails() {
    let mut trie = names(10);
    let error = trie.increase_popularity("Ab".to_string()).unwrap_err();
    assert_eq!(error, AppError::WordDoesNotExist);
    let error = trie.increase_popularity("".to_string()).unwrap_err();
    assert_eq!(error, AppError::WordDoesNotExist);
}

#[test]
fn increase_ignores_casing_and_keeps_stored_casing() {
    let mut trie = names(5);
    let raised = trie.increase_popularity("AaR".to_string()).unwrap();
    assert_eq!(raised, word("Aar", 362));
}

#[test]
fn inserted_word_comes_first_for_itself() {
    let mut trie = names(3);
    trie.insert_word("Ab".to_string(), 1).unwrap();
    assert_eq!(
        ask(&trie, "aB"),
        vec![word("Ab", 1), word("Abag", 704), word("Aba", 608)]
    );
}

#[test]
fn same_query_twice_gives_same_answer() {
    let trie = names(4);
    let first = ask(&trie, "");
    let second = ask(&trie, "");
    assert_eq!(first, second);
    assert_eq!(
        first,
        vec![word("Abag", 704), word("Aba", 608), word("Aar", 361), word("Abe", 300)]
    );
}

#[test]
fn two_increases_add_two() {
    let mut trie = names(5);
    let first = trie.increase_popularity("Be".to_string()).unwrap();
    let second = trie.increase_popularity("be".to_string()).unwrap();
    assert_eq!(first, word("Be", 51));
    assert_eq!(second, word("Be", 52));
    assert_eq!(trie.lookup("BE"), Some(&word("Be", 52)));
}

#[test]
fn prefix_casing_is_ignored() {
    let mut trie = names(5);
    trie.insert_word("Aardvark".to_string(), 7).unwrap();
    let lower_first = ask(&trie, "aA");
    let upper_first = ask(&trie, "Aa");
    assert_eq!(lower_first, upper_first);
    assert_eq!(
        lower_first,
        vec![word("Aar", 361), word("Aari", 151), word("Aardvark", 7)]
    );
}

#[test]
fn limit_bounds_the_answer() {
    assert_eq!(ask(&names(0), "A"), Vec::<WordData>::new());
    assert_eq!(ask(&names(0), "Aba"), Vec::<WordData>::new());
    assert_eq!(ask(&names(1), "Aba"), vec![word("Aba", 608)]);
    assert_eq!(ask(&names(1), "A"), vec![word("Abag", 704)]);
    assert_eq!(ask(&names(255), "").len(), 9);
    assert_eq!(ask(&names(9), "").len(), 9);
    assert_eq!(ask(&names(8), "").len(), 8);
}

#[test]
fn equal_popularity_lists_words_ascending() {
    let trie = names(10);
    assert_eq!(
        ask(&trie, "b"),
        vec![word("Bc", 50), word("Be", 50), word("Ba", 5), word("Bah", 5)]
    );
}

#[test]
fn exact_match_is_pinned_even_if_it_sorts_later() {
    let mut trie = Trie::load(Vec::new(), 5);
    trie.insert_word("ab".to_string(), 3).unwrap();
    trie.insert_word("ABc".to_string(), 3).unwrap();
    assert!(word_precedes("ABc", "ab"));
    assert_eq!(ask(&trie, "AB"), vec![word("ab", 3), word("ABc", 3)]);
}

#[test]
fn later_insertion_replaces_casing_and_popularity() {
    let mut trie = Trie::load(Vec::new(), 5);
    trie.insert_word("Rose-Marie".to_string(), 10).unwrap();
    trie.insert_word("rose-marie".to_string(), 2).unwrap();
    assert_eq!(ask(&trie, "ROSE"), vec![word("rose-marie", 2)]);
    assert_eq!(trie.lookup("Rose-Marie"), Some(&word("rose-marie", 2)));
}

#[test]
fn load_inserts_in_list_order() {
    let entries = vec![
        ("Rose".to_string(), 10u16),
        ("Rosa".to_string(), 4u16),
        ("ROSE".to_string(), 2u16),
    ];
    let trie = Trie::load(entries, 5);
    assert_eq!(ask(&trie, "ros"), vec![word("Rosa", 4), word("ROSE", 2)]);
    assert_eq!(trie.suggestion_number, 5);
    assert_eq!(trie.root.letter, ' ');
}

#[test]
fn empty_word_is_not_stored() {
    let mut trie = names(3);
    let before = ask(&trie, "");
    let nodes = trie.root.children.len();
    trie.insert_word("".to_string(), 1).unwrap();
    assert_eq!(trie.root.word_data, None);
    assert_eq!(trie.root.children.len(), nodes);
    assert_eq!(ask(&trie, ""), before);
    assert_eq!(before, vec![word("Abag", 704), word("Aba", 608), word("Aar", 361)]);
    assert_eq!(trie.lookup(""), None);
    assert!(trie.is_consistent());
}

#[test]
fn load_passes_over_the_empty_word() {
    let entries = vec![("".to_string(), 9u16), ("Al".to_string(), 2u16), ("".to_string(), 1u16)];
    let trie = Trie::load(entries, 5);
    assert_eq!(trie.root.word_data, None);
    assert_eq!(ask(&trie, ""), vec![word("Al", 2)]);
    assert!(trie.is_consistent());

    let trie = Trie::initialize("{\"\": 7, \"Bo\": 3}", 5).unwrap();
    assert_eq!(trie.root.word_data, None);
    assert_eq!(ask(&trie, ""), vec![word("Bo", 3)]);
    assert!(trie.is_consistent());
}

#[test]
fn insert_makes_one_node_for_each_character() {
    let mut trie = Trie::load(Vec::new(), 5);
    trie.insert_word("Hi".to_string(), 9).unwrap();
    assert_eq!(trie.root.children.len(), 1);
    let first = trie.root.children.get(&('h' as u32)).unwrap();
    assert_eq!(first.letter, 'h');
    assert_eq!(first.word_data, None);
    assert_eq!(first.children.len(), 1);
    let second = first.children.get(&('i' as u32)).unwrap();
    assert_eq!(second.letter, 'i');
    assert_eq!(second.word_data, Some(word("Hi", 9)));
    assert!(second.children.is_empty());
}

#[test]
fn only_ascii_letters_are_folded() {
    let mut trie = Trie::load(Vec::new(), 5);
    trie.insert_word("\u{c9}cole".to_string(), 4).unwrap();
    assert_eq!(ask(&trie, "\u{c9}C"), vec![word("\u{c9}cole", 4)]);
    assert_eq!(ask(&trie, "\u{e9}c"), Vec::<WordData>::new());
    assert_eq!(trie.lookup("\u{e9}cole"), None);
}

#[test]
fn prefix_with_unknown_characters_is_no_error() {
    let trie = names(5);
    assert_eq!(ask(&trie, "A\u{1F600}"), Vec::<WordData>::new());
    assert_eq!(ask(&trie, "~"), Vec::<WordData>::new());
}

#[test]
fn lookup_finds_only_stored_words() {
    let trie = names(5);
    assert_eq!(trie.lookup("abag"), Some(&word("Abag", 704)));
    assert_eq!(trie.lookup("ab"), None);
    assert_eq!(trie.lookup("abagx"), None);
    assert_eq!(trie.lookup(""), None);
}

#[test]
fn initialize_reads_an_empty_object() {
    let trie = Trie::initialize("{}", 7).unwrap();
    assert_eq!(ask(&trie, ""), Vec::<WordData>::new());
    assert_eq!(trie.suggestion_number, 7);
    assert!(trie.root.children.is_empty());
    assert_eq!(trie.root.word_data, None);
}

#[test]
fn initialize_reads_words_and_counts() {
    let trie = Trie::initialize(" { \"Lu\" : 65535 , \"li\" : 0 } ", 3).unwrap();
    assert_eq!(ask(&trie, "l"), vec![word("Lu", 65535), word("li", 0)]);
}

#[test]
fn initialize_rejects_what_is_no_mapping_of_counts() {
    let texts = [
        "",
        "{",
        "[]",
        "[1, 2]",
        "null",
        "17",
        "\"Aar\"",
        "{\"Aar\": \"361\"}",
        "{\"Aar\": 361.5}",
        "{\"Aar\": -1}",
        "{\"Aar\": 65536}",
        "{\"Aar\": null}",
        "{\"Aar\": {\"Aari\": 1}}",
        "{\"Aar\": 361,}",
        "{\"Aar\": 361} x",
        "{Aar: 361}",
    ];
    for text in texts {
        assert_eq!(Trie::initialize(text, 5).unwrap_err(), AppError::InvalidFileContent);
    }
}

#[test]
fn errors_have_status_and_message() {
    assert_eq!(AppError::InvalidFileContent.status_code(), 500);
    assert_eq!(AppError::UnexpectedError.status_code(), 500);
    assert_eq!(AppError::WordDoesNotExist.status_code(), 400);
    assert_eq!(AppError::InvalidFileContent.message(), "Source file has invalid content.");
    assert_eq!(AppError::WordDoesNotExist.message(), "Word does not exist.");
    assert_eq!(AppError::UnexpectedError.message(), "Unexpected internal error.");
}

#[test]
fn lowercase_folds_ascii_only() {
    assert_eq!(ascii_lowercase("AbC-zZ9"), vec!['a', 'b', 'c', '-', 'z', 'z', '9']);
    assert_eq!(ascii_lowercase(""), Vec::<char>::new());
    assert_eq!(ascii_lowercase("\u{c9}@[`{"), vec!['\u{c9}', '@', '[', '`', '{']);
    assert_eq!(to_lower('A'), 'a');
    assert_eq!(to_lower('Z'), 'z');
    assert_eq!(to_lower('a'), 'a');
    assert_eq!(to_lower('\u{130}'), '\u{130}');
    assert_eq!(char_code('a'), 97);
    assert_eq!(char_code('\u{1F600}'), 0x1F600);
}

#[test]
fn words_are_ordered_by_code_point() {
    assert!(word_precedes("", "a"));
    assert!(!word_precedes("a", ""));
    assert!(!word_precedes("", ""));
    assert!(!word_precedes("abc", "abc"));
    assert!(word_precedes("ab", "abc"));
    assert!(!word_precedes("abc", "ab"));
    assert!(word_precedes("Bc", "Be"));
    assert!(word_precedes("Z", "a"));
    assert!(word_precedes("z", "\u{e9}"));
    assert!(word_precedes("\u{ffff}", "\u{10000}"));
    assert!(!word_precedes("b", "abc"));
}

#[test]
fn ranking_orders_by_popularity_then_word() {
    let a = word("Ba", 5);
    let b = word("Bah", 5);
    let c = word("Be", 50);
    let d = word("Bc", 50);
    assert!(comes_before(&c, &a));
    assert!(!comes_before(&a, &c));
    assert!(comes_before(&d, &c));
    assert!(!comes_before(&c, &d));
    assert!(comes_before(&a, &a));
    let items = vec![&a, &b, &c, &d];
    let ranked: Vec<WordData> = rank(&items).into_iter().cloned().collect();
    assert_eq!(ranked, vec![d.clone(), c.clone(), a.clone(), b.clone()]);
    let none: Vec<&WordData> = Vec::new();
    assert!(rank(&none).is_empty());
}

#[test]
fn copy_of_an_index_answers_alike_and_is_apart() {
    let mut trie = names(5);
    let copy = trie.clone();
    trie.increase_popularity("Abag".to_string()).unwrap();
    assert_eq!(ask(&copy, "Abag"), vec![word("Abag", 704)]);
    assert_eq!(ask(&trie, "Abag"), vec![word("Abag", 705)]);
    assert_eq!(copy.suggestion_number, 5);
}

#[test]
fn node_starts_without_children() {
    let node = Node::new('x', Some(word("x", 2)));
    assert_eq!(node.letter, 'x');
    assert_eq!(node.word_data, Some(word("x", 2)));
    assert!(node.children.is_empty());
    let data = WordData::new("Word".to_string(), 12);
    assert_eq!(data.word, "Word");
    assert_eq!(data.popularity, 12);
}

#[test]
fn server_address_joins_host_and_port() {
    let settings = typeahead::config::Config {
        host: "127.0.0.1".to_string(),
        port: "8080".to_string(),
        suggestion_number: 10,
        file_name: "names.json".to_string(),
    };
    assert_eq!(settings.server_address(), "127.0.0.1:8080");
    assert_eq!(settings.host, "127.0.0.1");
    assert_eq!(settings.port, "8080");
}

#[test]
fn consistency_of_a_tree_can_be_checked() {
    let mut trie = names(5);
    assert!(trie.is_consistent());
    trie.insert_word("Zed".to_string(), 1).unwrap();
    trie.increase_popularity("zed".to_string()).unwrap();
    assert!(trie.is_consistent());

    let mut misplaced = Trie::load(Vec::new(), 5);
    misplaced.root.children.insert('a' as u32, Box::new(Node::new('a', Some(word("b", 1)))));
    assert!(!misplaced.is_consistent());

    let mut mislabelled = Trie::load(Vec::new(), 5);
    mislabelled.root.children.insert('a' as u32, Box::new(Node::new('b', None)));
    assert!(!mislabelled.is_consistent());

    let mut upper = Trie::load(Vec::new(), 5);
    upper.root.children.insert('A' as u32, Box::new(Node::new('A', Some(word("A", 1)))));
    assert!(!upper.is_consistent());

    let mut ended = Trie::load(Vec::new(), 5);
    ended.root.word_data = Some(word("", 1));
    assert!(!ended.is_consistent());

    let mut fine = Trie::load(Vec::new(), 5);
    fine.root.children.insert('a' as u32, Box::new(Node::new('a', Some(word("A", 1)))));
    assert!(fine.is_consistent());
    assert_eq!(ask(&fine, "a"), vec![word("A", 1)]);
}

const NAMES_WITH_HYPHEN: &str = "{\"A-b\": 23, \"Aar\":361,\"Aari\":151,\"Aba\":608,\
    \"Abag\":704, \"Abe\": 300, \"Ba\": 5, \"Bah\": 5, \"Be\": 50, \"Bc\": 50}";

fn default_trie(limit: u8) -> Trie {
    Trie::initialize(NAMES_WITH_HYPHEN, limit).unwrap()
}

#[test]
fn default_trie_answers_a_prefix() {
    let trie = default_trie(5);
    assert_eq!(
        ask(&trie, "A"),
        vec![
            word("Abag", 704),
            word("Aba", 608),
            word("Aar", 361),
            word("Abe", 300),
            word("Aari", 151),
        ]
    );
    assert_eq!(ask(&trie, "Aba"), vec![word("Aba", 608), word("Abag", 704)]);
}

#[test]
fn default_trie_answers_with_limit_two() {
    let trie = default_trie(2);
    assert_eq!(ask(&trie, "B"), vec![word("Bc", 50), word("Be", 50)]);
    assert_eq!(ask(&trie, "AA"), vec![word("Aar", 361), word("Aari", 151)]);
    assert_eq!(ask(&trie, "Brazil"), Vec::<WordData>::new());
    assert_eq!(ask(&trie, "A-b"), vec![word("A-b", 23)]);
}

#[test]
fn default_trie_answers_the_empty_prefix() {
    let trie = default_trie(5);
    assert_eq!(
        ask(&trie, ""),
        vec![
            word("Abag", 704),
            word("Aba", 608),
            word("Aar", 361),
            word("Abe", 300),
            word("Aari", 151),
        ]
    );
}

#[test]
fn default_trie_raises_popularity() {
    let mut trie = default_trie(5);
    assert_eq!(trie.increase_popularity("Aar".to_string()).unwrap(), word("Aar", 362));
    let mut trie = default_trie(5);
    assert_eq!(trie.increase_popularity("AaR".to_string()).unwrap(), word("Aar", 362));
    let mut trie = default_trie(5);
    let error = trie.increase_popularity("Abcd".to_string()).unwrap_err();
    assert_eq!(error, AppError::WordDoesNotExist);
    assert_eq!(error.status_code(), 400);
}

#[test]
fn initialize_keeps_the_last_of_a_repeated_key() {
    let trie = Trie::initialize("{\"Ann\": 1, \"Bo\": 2, \"Ann\": 3}", 5).unwrap();
    assert_eq!(ask(&trie, ""), vec![word("Ann", 3), word("Bo", 2)]);
}

#[test]
fn initialize_reads_escapes_and_other_scripts() {
    let text = "{\"caf\\u00e9\": 2, \"\u{65e5}\u{672c}\": 7, \"a\\\"b\": 1}";
    let trie = Trie::initialize(text, 5).unwrap();
    assert_eq!(ask(&trie, "CAF"), vec![word("caf\u{e9}", 2)]);
    assert_eq!(ask(&trie, "\u{65e5}"), vec![word("\u{65e5}\u{672c}", 7)]);
    assert_eq!(ask(&trie, "A\""), vec![word("a\"b", 1)]);
}

fn next_number(state: &mut u64) -> u64 {
    *state = state.wrapping_mul(6364136223846793005).wrapping_add(1442695040888963407);
    *state >> 33
}

fn made_up_word(state: &mut u64) -> String {
    let letters = ['a', 'B', 'c', 'D', '-', '\u{e9}'];
    let length = next_number(state) % 5;
    let mut text = String::new();
    for _ in 0..length {
        text.push(letters[(next_number(state) % 6) as usize]);
    }
    text
}

fn expected_answer(stored: &Vec<WordData>, prefix: &str, limit: usize) -> Vec<WordData> {
    let wanted = prefix.to_ascii_lowercase();
    let mut exact: Vec<WordData> = Vec::new();
    let mut longer: Vec<WordData> = Vec::new();
    for data in stored {
        let lower = data.word.to_ascii_lowercase();
        if lower == wanted {
            exact.push(data.clone());
        } else if lower.starts_with(&wanted) {
            longer.push(data.clone());
        }
    }
    longer.sort_by(|one, two| {
        two.popularity.cmp(&one.popularity).then(one.word.cmp(&two.word))
    });
    exact.extend(longer);
    exact.truncate(limit);
    exact
}

#[test]
fn answers_agree_with_filtering_and_sorting() {
    let mut state: u64 = 17;
    for round in 0..40u64 {
        let limit = (round % 7) as u8;
        let mut trie = Trie::load(Vec::new(), limit);
        let mut stored: Vec<WordData> = Vec::new();
        for _ in 0..60 {
            let text = made_up_word(&mut state);
            let popularity = (next_number(&mut state) % 4) as u16;
            trie.insert_word(text.clone(), popularity).unwrap();
            if text.is_empty() {
                continue;
            }
            stored.retain(|data| data.word.to_ascii_lowercase() != text.to_ascii_lowercase());
            stored.push(word(&text, popularity));
        }
        for _ in 0..20 {
            let text = made_up_word(&mut state);
            let known = stored
                .iter()
                .position(|data| data.word.to_ascii_lowercase() == text.to_ascii_lowercase());
            match known {
                Some(at) => {
                    stored[at].popularity += 1;
                    let raised = trie.increase_popularity(text).unwrap();
                    assert_eq!(raised, stored[at]);
                }
                None => {
                    let error = trie.increase_popularity(text).unwrap_err();
                    assert_eq!(error, AppError::WordDoesNotExist);
                }
            }
        }
        assert!(trie.is_consistent());
        for _ in 0..30 {
            let prefix = made_up_word(&mut state);
            assert_eq!(
                ask(&trie, &prefix),
                expected_answer(&stored, &prefix, limit as usize)
            );
        }
    }
}

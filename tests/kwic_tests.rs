use kwic::text::{find_first, normalize_word, split_words};
use kwic::{find_keyWords, line_keywords, parse_stopwords, KwicResult, KwicSystem};

fn stopwords_de_o_a() -> Vec<String> {
    vec!["de".to_string(), "o".to_string(), "a".to_string()]
}

#[test]
fn normalize_test() {
    let kwic = KwicSystem::new();
    let string = "TeSTes #12312314";
    assert_eq!(kwic.normalize(string), "testes");
}

#[test]
fn find_keywords_test() {
    let stopwords: Vec<String> = stopwords_de_o_a();
    let linha: Vec<String> = vec!["testes".to_string(), "de".to_string(), "software".to_string()];

    assert_eq!(find_keyWords(&linha, &stopwords), ["testes", "software"]);
}

#[test]
fn add_lines_test() {
    let mut kwic = KwicSystem::new();
    kwic.add_line("linha para teste".to_string());

    let linhas: Vec<String> = vec!["linha para teste".to_string()];

    assert_eq!(kwic.lines, linhas);
}

#[test]
fn test_normalize_basic() {
    let kwic = KwicSystem::new();
    assert_eq!(kwic.normalize("TeSTes #12312314"), "testes");
}

#[test]
fn test_normalize_with_hyphen_and_special_chars() {
    let kwic = KwicSystem::new();
    assert_eq!(kwic.normalize("palavra-com-hífen"), "palavracomhífen");
    assert_eq!(kwic.normalize("don't"), "dont");
}

#[test]
fn test_normalize_empty_and_no_alphabetic() {
    let kwic = KwicSystem::new();
    assert_eq!(kwic.normalize(""), "");
    assert_eq!(kwic.normalize("123 !@#$ %^&*"), "");
}

#[test]
fn test_normalize_unicode() {
    let kwic = KwicSystem::new();
    assert_eq!(kwic.normalize("Ação"), "ação");
}

#[test]
fn test_find_keywords_basic() {
    let stopwords: Vec<String> = stopwords_de_o_a();
    let linha: Vec<String> = vec!["testes".to_string(), "de".to_string(), "software".to_string()];
    assert_eq!(
        find_keyWords(&linha, &stopwords),
        vec!["testes".to_string(), "software".to_string()]
    );
}

#[test]
fn test_find_keywords_all_stopwords() {
    let stopwords: Vec<String> = stopwords_de_o_a();
    let linha: Vec<String> = vec!["o".to_string(), "a".to_string(), "de".to_string()];
    assert!(find_keyWords(&linha, &stopwords).is_empty());
}

#[test]
fn test_find_keywords_no_stopwords() {
    let stopwords: Vec<String> = stopwords_de_o_a();
    let linha: Vec<String> =
        vec!["rust".to_string(), "programming".to_string(), "language".to_string()];
    assert_eq!(find_keyWords(&linha, &stopwords), vec!["rust", "programming", "language"]);
}

#[test]
fn test_find_keywords_empty_input() {
    let stopwords: Vec<String> = vec!["de".to_string()];
    let linha: Vec<String> = vec![];
    assert!(find_keyWords(&linha, &stopwords).is_empty());
}

#[test]
fn test_add_line_updates_index() {
    let mut kwic = KwicSystem::new();
    kwic.add_line("Primeira linha de teste.".to_string());
    kwic.add_line("Segunda linha.".to_string());

    assert_eq!(kwic.lines.len(), 2);

    assert_eq!(kwic.pos_index.get("linha"), Some(&vec![0, 1]));
    assert_eq!(kwic.pos_index.get("teste"), Some(&vec![0]));
    assert_eq!(kwic.pos_index.get("segunda"), Some(&vec![1]));
    assert_eq!(kwic.pos_index.get("naoexiste"), None);
}

#[test]
fn test_search_keyword_not_found() {
    let mut kwic = KwicSystem::new();
    kwic.add_line("Uma linha qualquer.".to_string());
    let results = kwic.search_keyword("inexistente");
    assert!(results.is_empty());
}

#[test]
fn test_search_keyword_at_start_of_line() {
    let mut kwic = KwicSystem::new();
    kwic.add_line("Linha para teste de software.".to_string());

    let expected = vec![KwicResult {
        n_line: 0,
        left_context: "".to_string(),
        key_word: "Linha".to_string(),
        right_context: " para teste de software.".to_string(),
        line: "Linha para teste de software.".to_string(),
    }];

    let results = kwic.search_keyword("Linha");
    assert_eq!(results, expected);
}

#[test]
fn test_search_keyword_in_middle_of_line() {
    let mut kwic = KwicSystem::new();
    kwic.add_line("Uma linha para teste.".to_string());

    let expected = vec![KwicResult {
        n_line: 0,
        left_context: "uma linha ".to_string(),
        key_word: "para".to_string(),
        right_context: " teste.".to_string(),
        line: "Uma linha para teste.".to_string(),
    }];

    let results = kwic.search_keyword("para");
    assert_eq!(results, expected);
}

#[test]
fn test_search_keyword_at_end_of_line() {
    let mut kwic = KwicSystem::new();
    kwic.add_line("Uma linha para teste".to_string());

    let expected = vec![KwicResult {
        n_line: 0,
        left_context: "uma linha para ".to_string(),
        key_word: "teste".to_string(),
        right_context: "".to_string(),
        line: "Uma linha para teste".to_string(),
    }];

    let results = kwic.search_keyword("teste");
    assert_eq!(results, expected);
}

#[test]
fn test_search_multiple_occurrences_in_different_lines() {
    let mut kwic = KwicSystem::new();
    kwic.add_line("O sistema é bom.".to_string());
    kwic.add_line("Este é outro sistema.".to_string());

    let expected = vec![
        KwicResult {
            n_line: 0,
            left_context: "o ".to_string(),
            key_word: "sistema".to_string(),
            right_context: " é bom.".to_string(),
            line: "O sistema é bom.".to_string(),
        },
        KwicResult {
            n_line: 1,
            left_context: "este é outro ".to_string(),
            key_word: "sistema".to_string(),
            right_context: ".".to_string(),
            line: "Este é outro sistema.".to_string(),
        },
    ];

    let results = kwic.search_keyword("sistema");
    assert_eq!(results.len(), 2);
    assert_eq!(results, expected);
}

#[test]
fn repeated_word_gives_one_result_per_index_entry() {
    let mut kwic = KwicSystem::new();
    kwic.add_line("um teste para outro teste".to_string());
    assert_eq!(kwic.pos_index.get("teste"), Some(&vec![0, 0]));

    let first = KwicResult {
        n_line: 0,
        left_context: "um ".to_string(),
        key_word: "teste".to_string(),
        right_context: " para outro teste".to_string(),
        line: "um teste para outro teste".to_string(),
    };
    let second = KwicResult {
        n_line: 0,
        left_context: "um ".to_string(),
        key_word: "teste".to_string(),
        right_context: " para outro teste".to_string(),
        line: "um teste para outro teste".to_string(),
    };

    let results = kwic.search_keyword("teste");
    assert_eq!(results, vec![first, second]);
}

#[test]
fn normalize_twice_equals_once() {
    let kwic = KwicSystem::new();
    for s in ["TeSTes #12312314", "palavra-com-hífen", "Ação", "ÁRVORE", "x"] {
        let once = kwic.normalize(s);
        assert_eq!(kwic.normalize(&once), once);
    }
}

#[test]
fn line_count_and_line_at_follow_additions() {
    let mut kwic = KwicSystem::new();
    assert_eq!(kwic.line_count(), 0);
    let texts = ["Primeira linha.", "  Segunda,  com espaços ", "TERCEIRA"];
    for (i, t) in texts.iter().enumerate() {
        kwic.add_line(t.to_string());
        assert_eq!(kwic.line_count(), i + 1);
    }
    for (i, t) in texts.iter().enumerate() {
        assert_eq!(kwic.line_at(i), t);
    }
}

#[test]
fn absent_keyword_gives_no_results() {
    let mut kwic = KwicSystem::new();
    kwic.add_line("O sistema é bom.".to_string());
    kwic.add_line("Este é outro sistema.".to_string());
    assert!(kwic.search_keyword("banana").is_empty());
    assert!(kwic.search_keyword("Sistemas").is_empty());
}

#[test]
fn word_indexed_twice_on_one_line_gives_two_results() {
    let mut kwic = KwicSystem::new();
    kwic.add_line("Teste, teste!".to_string());
    assert_eq!(kwic.pos_index.get("teste"), Some(&vec![0, 0]));
    let results = kwic.search_keyword("TESTE");
    assert_eq!(results.len(), 2);
    for r in &results {
        assert_eq!(r.n_line, 0);
        assert_eq!(r.key_word, "TESTE");
        assert_eq!(r.left_context, "");
        assert_eq!(r.right_context, ", teste!");
    }
}

#[test]
fn tokens_without_letters_are_indexed_under_the_empty_word() {
    let mut kwic = KwicSystem::new();
    kwic.add_line("Ano 2024 foi bom".to_string());
    assert_eq!(kwic.pos_index.get(""), Some(&vec![0]));
    let results = kwic.search_keyword("99");
    assert_eq!(
        results,
        vec![KwicResult {
            n_line: 0,
            left_context: "".to_string(),
            key_word: "99".to_string(),
            right_context: "ano 2024 foi bom".to_string(),
            line: "Ano 2024 foi bom".to_string(),
        }]
    );
}

#[test]
fn indexed_word_missing_from_lowered_line_is_skipped() {
    let mut kwic = KwicSystem::new();
    kwic.add_line("um texto bem-vindo".to_string());
    assert_eq!(kwic.pos_index.get("bemvindo"), Some(&vec![0]));
    assert!(kwic.search_keyword("bemvindo").is_empty());
}

#[test]
fn lines_split_on_any_whitespace() {
    let mut kwic = KwicSystem::new();
    kwic.add_line("\tum\u{a0}dois  três\n".to_string());
    assert_eq!(kwic.pos_index.get("um"), Some(&vec![0]));
    assert_eq!(kwic.pos_index.get("dois"), Some(&vec![0]));
    assert_eq!(kwic.pos_index.get("três"), Some(&vec![0]));
    assert_eq!(
        split_words(" a  bc\td "),
        vec!["a".to_string(), "bc".to_string(), "d".to_string()]
    );
    assert!(split_words("   ").is_empty());
}

#[test]
fn find_first_reports_first_position() {
    let hay: Vec<char> = "abcabc".chars().collect();
    let needle: Vec<char> = "ca".chars().collect();
    assert_eq!(find_first(&hay, &needle), Some(2));
    let missing: Vec<char> = "cc".chars().collect();
    assert_eq!(find_first(&hay, &missing), None);
    assert_eq!(find_first(&hay, &Vec::new()), Some(0));
    let long: Vec<char> = "abcabcabc".chars().collect();
    assert_eq!(find_first(&hay, &long), None);
}

#[test]
fn normalize_word_lowercases_and_keeps_letters() {
    assert_eq!(normalize_word("ÉPOCA-2000"), "época");
    assert_eq!(normalize_word("ΟΔΟΣ"), "\u{3bf}\u{3b4}\u{3bf}\u{3c2}");
}

#[test]
fn line_keywords_lowercases_splits_and_filters() {
    let stopwords: Vec<String> = stopwords_de_o_a();
    assert_eq!(
        line_keywords("O Teste de Software, o teste", &stopwords),
        vec!["teste", "software,", "teste"]
    );
    assert!(line_keywords("  ", &stopwords).is_empty());
}

#[test]
fn stopword_list_is_trimmed_lowercased_and_deduplicated() {
    let parsed = parse_stopwords(" De, O\r\nA,,de\n  \nUm ");
    assert_eq!(parsed, vec!["de", "o", "a", "um"]);
    assert!(parse_stopwords("").is_empty());
    assert!(parse_stopwords(",\n\r, ,").is_empty());
}

#[test]
fn result_renders_as_concordance_line() {
    let r = KwicResult {
        n_line: 3,
        key_word: "para".to_string(),
        right_context: " teste.".to_string(),
        left_context: "uma linha ".to_string(),
        line: "Uma linha para teste.".to_string(),
    };
    assert_eq!(r.to_display_string(), "para: para ** teste.** uma linha ");
}

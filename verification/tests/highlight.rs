use ranked_search::matching_words::{
    bytes_to_highlight, MatchingWords, Operation, Query, QueryKind, Token,
};

struct TestBytesToHighlight {
    query: &'static str,
    text: &'static str,
    length: usize,
}

#[test]
fn test_bytes_to_highlight() {
    let tests = [
        TestBytesToHighlight { query: "bip", text: "bip", length: "bip".len() },
        TestBytesToHighlight { query: "bip", text: "boup", length: "bip".len() },
        TestBytesToHighlight {
            query: "Levenshtein",
            text: "Levenshtein",
            length: "Levenshtein".len(),
        },
        // we get to the end of our word with only one typo
        TestBytesToHighlight { query: "Levenste", text: "Levenshtein", length: "Levenste".len() },
        // we get our third and last authorized typo right on the last character
        TestBytesToHighlight { query: "Levenstein", text: "Levenshte", length: "Levenste".len() },
        // we get to the end of our word with only two typos at the beginning
        TestBytesToHighlight {
            query: "Bavenshtein",
            text: "Levenshtein",
            length: "Bavenshtein".len(),
        },
        TestBytesToHighlight { query: "Альфа", text: "Альфой", length: "Альф".len() },
        TestBytesToHighlight { query: "Go💼", text: "Go💼od luck.", length: "Go💼".len() },
        TestBytesToHighlight { query: "Go💼od", text: "Go💼od luck.", length: "Go💼od".len() },
        TestBytesToHighlight { query: "chäräcters", text: "chäräcters", length: "chäräcters".len() },
        TestBytesToHighlight { query: "ch", text: "chäräcters", length: "ch".len() },
        TestBytesToHighlight { query: "chär", text: "chäräcters", length: "chär".len() },
    ];

    for test in &tests {
        let length = bytes_to_highlight(test.text, test.query);
        assert_eq!(length, test.length, r#"lenght between: "{}" "{}""#, test.query, test.text);
        assert!(
            std::str::from_utf8(&test.query.as_bytes()[..length]).is_ok(),
            r#"converting {}[..{}] to an utf8 str failed"#,
            test.query,
            length
        );
    }
}

#[test]
fn matching_words() {
    let query_tree = Operation::Or(
        false,
        vec![Operation::And(vec![
            Operation::Query(Query { prefix: true, kind: QueryKind::exact("split".to_string()) }),
            Operation::Query(Query { prefix: false, kind: QueryKind::exact("this".to_string()) }),
            Operation::Query(Query {
                prefix: true,
                kind: QueryKind::tolerant(1, "world".to_string()),
            }),
        ])],
    );

    let matching_words = MatchingWords::from_query_tree(&query_tree);

    assert_eq!(matching_words.matching_bytes(&Token { text: "word".to_string() }), Some(3));
    assert_eq!(matching_words.matching_bytes(&Token { text: "nyc".to_string() }), None);
    assert_eq!(matching_words.matching_bytes(&Token { text: "world".to_string() }), Some(5));
    assert_eq!(matching_words.matching_bytes(&Token { text: "splitted".to_string() }), Some(5));
    assert_eq!(matching_words.matching_bytes(&Token { text: "thisnew".to_string() }), None);
    assert_eq!(matching_words.matching_bytes(&Token { text: "borld".to_string() }), Some(5));
    assert_eq!(matching_words.matching_bytes(&Token { text: "wordsplit".to_string() }), Some(4));
}

// The example of the specification: one inserted character plus the
// truncation boundary highlights the first eight characters.
#[test]
fn levenstein_against_truncated_token() {
    let length = bytes_to_highlight("Levenshte", "Levenstein");
    assert_eq!(length, "Levenste".len());
}

// Identical strings highlight entirely, in bytes.
#[test]
fn identical_strings_highlight_fully() {
    assert_eq!(bytes_to_highlight("chäräcters", "chäräcters"), "chäräcters".len());
}

// A query word shorter than three characters highlights the minimum of the
// two lengths, in characters.
#[test]
fn short_query_highlights_min_length() {
    assert_eq!(bytes_to_highlight("chäräcters", "ch"), "ch".len());
    assert_eq!(bytes_to_highlight("a", "xy"), 1);
    assert_eq!(bytes_to_highlight("", "xy"), 0);
}

// The distance wrapper must really consult the automaton: a token far from
// every query word matches nothing.
#[test]
fn no_match_for_distant_token() {
    let tree = Operation::Query(Query {
        prefix: false,
        kind: QueryKind::exact("abcdef".to_string()),
    });
    let words = MatchingWords::from_query_tree(&tree);
    assert_eq!(words.matching_bytes(&Token { text: "zzzzzz".to_string() }), None);
    assert_eq!(words.matching_bytes(&Token { text: "abcdef".to_string() }), Some(6));
}

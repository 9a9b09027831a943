use glovers::loader::{build_table, load_text, parse_line, LineParse, LoadError};
use glovers::number::is_float_literal;
use glovers::table::VectorTable;
use glovers::text::{is_space, split_tokens};

fn strings(xs: &[&str]) -> Vec<String> {
    xs.iter().map(|x| x.to_string()).collect()
}

fn chars(s: &str) -> Vec<char> {
    s.chars().collect()
}

fn floats(v: &Vec<String>) -> Vec<f32> {
    v.iter().map(|t| t.parse::<f32>().unwrap()).collect()
}

fn cosine(a: &[f32], b: &[f32]) -> f32 {
    let dot: f32 = a.iter().zip(b).map(|(x, y)| x * y).sum();
    let na: f32 = a.iter().map(|x| x * x).sum::<f32>().sqrt();
    let nb: f32 = b.iter().map(|x| x * x).sum::<f32>().sqrt();
    dot / (na * nb)
}

#[test]
fn tokens_split_on_runs_of_whitespace() {
    let t = split_tokens("  king\t1.0   0.5 \r");
    assert_eq!(t, vec![chars("king"), chars("1.0"), chars("0.5")]);
}

#[test]
fn tokens_split_on_unicode_whitespace() {
    let t = split_tokens("a\u{A0}b\u{3000}c");
    assert_eq!(t, vec![chars("a"), chars("b"), chars("c")]);
    assert!(is_space('\u{2028}'));
    assert!(!is_space('x'));
    assert!(split_tokens("").is_empty());
    assert!(split_tokens(" \t ").is_empty());
}

#[test]
fn float_literals_accepted() {
    for s in ["1", "1.", ".5", "-1.5e-3", "+2E10", "inf", "-Infinity", "NaN", "0.0", "1e+7"] {
        assert!(is_float_literal(&chars(s)), "{}", s);
    }
}

#[test]
fn float_literals_rejected() {
    for s in ["", ".", "e5", "1e", "1.2.3", "--1", "+", "notanumber", "1,0", "infinit", "0x10", "1e5.0"] {
        assert!(!is_float_literal(&chars(s)), "{}", s);
    }
}

#[test]
fn parse_line_kinds() {
    assert_eq!(parse_line("   "), LineParse::Blank);
    assert_eq!(
        parse_line("king 1.0 0.0"),
        LineParse::Entry { word: "king".to_string(), values: strings(&["1.0", "0.0"]) }
    );
    assert_eq!(parse_line("solo"), LineParse::Entry { word: "solo".to_string(), values: vec![] });
    assert_eq!(
        parse_line("bad notanumber 1.0 x"),
        LineParse::Malformed { token: "notanumber".to_string() }
    );
}

#[test]
fn empty_file_gives_empty_table() {
    let t = load_text("").unwrap();
    assert_eq!(t.len(), 0);
    let t = load_text("\n\n   \n").unwrap();
    assert_eq!(t.len(), 0);
}

#[test]
fn malformed_line_aborts_load() {
    let r = load_text("bad notanumber 1.0");
    assert_eq!(
        r.err(),
        Some(LoadError::MalformedVector { line_number: 1, token: "notanumber".to_string() })
    );
    let r = load_text("a 1.0\n\nb 2.0 x\nc y\n");
    assert_eq!(r.err(), Some(LoadError::MalformedVector { line_number: 3, token: "x".to_string() }));
}

#[test]
fn duplicate_words_keep_last_line() {
    let t = load_text("a 1.0\nb 2.0\na 3.0 4.0\n").unwrap();
    assert_eq!(t.len(), 2);
    assert_eq!(t.get("a"), Some(&strings(&["3.0", "4.0"])));
    assert_eq!(t.get("b"), Some(&strings(&["2.0"])));
}

#[test]
fn crlf_lines() {
    let t = load_text("w 1.0\r\nv 2.0\r\n").unwrap();
    assert_eq!(t.get("w"), Some(&strings(&["1.0"])));
    assert_eq!(t.get("v"), Some(&strings(&["2.0"])));
}

#[test]
fn words_are_case_sensitive() {
    let t = load_text("King 1.0\nking 2.0").unwrap();
    assert_eq!(t.len(), 2);
    assert!(t.contains("King"));
    assert!(!t.contains("KING"));
}

#[test]
fn loading_twice_gives_equal_tables() {
    let text = "x 1 2\ny 3 4\nx 5 6\nz 7 8\n";
    let a = load_text(text).unwrap();
    let b = load_text(text).unwrap();
    assert_eq!(a.len(), b.len());
    for w in ["x", "y", "z", "w"] {
        assert_eq!(a.get(w), b.get(w));
    }
}

#[test]
fn query_absent_word_gives_none() {
    let t = load_text("king 1.0 0.0\nqueen 0.0 1.0\n").unwrap();
    assert!(t.vector_pair("king", "unknown").is_none());
    assert!(t.vector_pair("unknown", "queen").is_none());
    assert!(t.vector_pair("king", "queen").is_some());
}

#[test]
fn end_to_end_similarity() {
    let t = load_text("king 1.0 0.0\nqueen 0.0 1.0\nman 1.0 0.0\n").unwrap();
    let t = t.map_values(floats);
    let (k, m) = t.vector_pair("king", "man").unwrap();
    assert_eq!(cosine(k, m), 1.0);
    let (k, q) = t.vector_pair("king", "queen").unwrap();
    assert_eq!(cosine(k, q), 0.0);
}

#[test]
fn build_from_parsed_lines() {
    let parsed = vec![
        LineParse::Entry { word: "a".to_string(), values: strings(&["1"]) },
        LineParse::Blank,
        LineParse::Entry { word: "a".to_string(), values: strings(&["2"]) },
    ];
    let t = build_table(parsed).unwrap();
    assert_eq!(t.len(), 1);
    assert_eq!(t.get("a"), Some(&strings(&["2"])));
    let parsed = vec![LineParse::Blank, LineParse::Malformed { token: "q".to_string() }];
    assert_eq!(
        build_table(parsed).err(),
        Some(LoadError::MalformedVector { line_number: 2, token: "q".to_string() })
    );
}

#[test]
fn table_insert_and_lookup() {
    let mut t: VectorTable<u32> = VectorTable::new();
    assert_eq!(t.len(), 0);
    t.insert("a".to_string(), 1);
    t.insert("b".to_string(), 2);
    t.insert("a".to_string(), 3);
    assert_eq!(t.len(), 2);
    assert_eq!(t.get("a"), Some(&3));
    assert_eq!(t.get("b"), Some(&2));
    assert_eq!(t.get("c"), None);
    for i in 0..500u32 {
        t.insert(format!("w{}", i), i);
    }
    assert_eq!(t.len(), 502);
    assert_eq!(t.get("w499"), Some(&499));
    let d = t.map_values(|v| v * 2);
    assert_eq!(d.get("w7"), Some(&14));
    assert_eq!(d.vector_pair("a", "b"), Some((&6, &4)));
}

#[test]
fn non_ascii_words() {
    let t = load_text("café 1.0\nnaïve 2.0\n").unwrap();
    assert_eq!(t.get("café"), Some(&strings(&["1.0"])));
    assert!(t.contains("naïve"));
    assert!(!t.contains("cafe"));
}

#[test]
fn skipping_policy_counts_malformed_lines() {
    let (t, skipped) = glovers::loader::load_text_skipping("a 1.0\nbad notanumber 1.0\nb 2.0\nc 1 x\n");
    assert_eq!(skipped, 2);
    assert_eq!(t.len(), 2);
    assert_eq!(t.get("a"), Some(&strings(&["1.0"])));
    assert!(!t.contains("bad"));
    let (t, skipped) = glovers::loader::load_text_skipping("");
    assert_eq!((t.len(), skipped), (0, 0));
}

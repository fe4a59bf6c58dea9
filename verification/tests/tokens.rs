use regex::Regex;
use ulmensa::label::{Found, Patterns, Token};
use ulmensa::text::{chars_of, string_of};

/// Every text made of up to `max` of the given pieces.
fn texts(pieces: &[&str], max: usize) -> Vec<String> {
    let mut all = vec![String::new()];
    let mut last = vec![String::new()];
    for _ in 0..max {
        let mut next = Vec::new();
        for t in &last {
            for p in pieces {
                next.push(format!("{}{}", t, p));
            }
        }
        all.extend(next.iter().cloned());
        last = next;
    }
    all
}

fn shown(f: &Found) -> (String, String, usize) {
    (string_of(&f.first), string_of(&f.second), f.end)
}

/// What the pattern's first match after `from` holds, with the match's end counted in characters.
fn matched(re: &Regex, text: &str, from: usize) -> Option<(String, String, usize)> {
    let start: usize = text.chars().take(from).map(char::len_utf8).sum();
    let c = re.captures_at(text, start)?;
    let end = text[..c.get(0).unwrap().end()].chars().count();
    let first = c.get(1).unwrap().as_str().to_string();
    let second = c.get(2).map_or(String::new(), |m| m.as_str().to_string());
    Some((first, second, end))
}

fn same_first_match(token: Token, pattern: &str, pieces: &[&str], max: usize) {
    let re = Regex::new(pattern).unwrap();
    let patterns = Patterns::new();
    for text in texts(pieces, max) {
        let chars = chars_of(&text);
        let ours = patterns.find_token(token, &chars, 0);
        assert_eq!(ours.as_ref().map(shown), matched(&re, &text, 0), "{:?}", text);
    }
}

#[test]
fn grams_are_found_where_the_pattern_matches() {
    same_first_match(Token::Grams, r"([0-9,]+) g", &["1", ",", " ", "g", "x", "0"], 6);
}

#[test]
fn grams_in_longer_texts() {
    same_first_match(Token::Grams, r"([0-9,]+) g", &["12,5 g", " g", ", ", "7", "mg", " ", "ä"], 5);
}

#[test]
fn energy_is_found_where_the_pattern_matches() {
    same_first_match(
        Token::Energy,
        r"([0-9,]+) kJ \/ ([0-9,]+) kcal",
        &["1", ",", " kJ / ", " kcal", " ", "kJ", "2,5", "."],
        5,
    );
}

#[test]
fn footprint_is_found_where_the_pattern_matches() {
    same_first_match(
        Token::Footprint,
        r"abdruck pro Portion ([0-9\.]+)",
        &["abdruck pro Portion ", "1", ".", "x", "abdruck", " ", "2.5", "ß"],
        5,
    );
}

#[test]
fn every_match_is_found_in_turn() {
    let re = Regex::new(r"([0-9,]+) g").unwrap();
    let patterns = Patterns::new();
    for text in texts(&["1 g", ",", " ", "g", "2", "x g"], 6) {
        let chars = chars_of(&text);
        let mut ours = Vec::new();
        let mut from = 0;
        while let Some(f) = patterns.find_token(Token::Grams, &chars, from) {
            from = f.end;
            ours.push(string_of(&f.first));
        }
        let theirs: Vec<String> = re.captures_iter(&text).map(|c| c[1].to_string()).collect();
        assert_eq!(ours, theirs, "{:?}", text);
    }
}

#[test]
fn token_here_looks_at_one_place_only() {
    let patterns = Patterns::new();
    let chars = chars_of("ab 12,5 g");
    assert!(patterns.token_here(Token::Grams, &chars, 0).is_none());
    assert!(patterns.token_here(Token::Grams, &chars, 2).is_none());
    let f = patterns.token_here(Token::Grams, &chars, 3).unwrap();
    assert_eq!(shown(&f), ("12,5".to_string(), String::new(), 9));
    let f = patterns.token_here(Token::Grams, &chars, 4).unwrap();
    assert_eq!(shown(&f), ("2,5".to_string(), String::new(), 9));
    assert!(patterns.token_here(Token::Grams, &chars, 9).is_none());
    let f = patterns.find_token(Token::Grams, &chars, 0).unwrap();
    assert_eq!(shown(&f), ("12,5".to_string(), String::new(), 9));
}

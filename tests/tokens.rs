use peko_sort::tokens::{is_delimiter, TokenScanner};

fn scan(input: &[u8]) -> Vec<Vec<u8>> {
    let mut scanner = TokenScanner::new();
    let mut out = Vec::new();
    for &b in input {
        if let Some(t) = scanner.feed(b) {
            out.push(t);
        }
    }
    if let Some(t) = scanner.finish() {
        out.push(t);
    }
    out
}

#[test]
fn delimiters_are_ascii_whitespace() {
    for b in 0u8..=255 {
        assert_eq!(is_delimiter(b), b.is_ascii_whitespace(), "byte {}", b);
    }
}

#[test]
fn tokens_are_split_on_runs_of_whitespace() {
    assert_eq!(scan(b"  ab \t\ncd  e"), vec![b"ab".to_vec(), b"cd".to_vec(), b"e".to_vec()]);
}

#[test]
fn empty_and_blank_inputs_hold_no_token() {
    assert!(scan(b"").is_empty());
    assert!(scan(b" \r\n ").is_empty());
}

#[test]
fn written_format_reads_back() {
    let tokens = ["delta", "alpha", "charlie"];
    let joined = tokens.join(" ");
    let read: Vec<String> = scan(joined.as_bytes()).into_iter().map(|t| String::from_utf8(t).unwrap()).collect();
    assert_eq!(read, tokens.to_vec());
}

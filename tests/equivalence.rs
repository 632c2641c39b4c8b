use peko_sort::backend::{MergeReader, MergeWriter, SortError};
use peko_sort::in_memory::{InMemoryReader, InMemoryWriter};
use peko_sort::merge_sort::MergeSorter;
use peko_sort::tokens::TokenScanner;

/// Space-separated tokens in a byte buffer, read one byte at a time.
struct TextReader {
    text: Vec<u8>,
    pos: usize,
    buffer: Option<String>,
    scanner: TokenScanner,
}

struct TextWriter {
    text: Vec<u8>,
    first: bool,
}

impl TextReader {
    fn new(text: Vec<u8>) -> Self {
        TextReader { text, pos: 0, buffer: None, scanner: TokenScanner::new() }
    }

    fn ensure_buffer(&mut self) -> Result<bool, SortError> {
        if self.buffer.is_some() {
            return Ok(true);
        }
        let token = loop {
            if self.pos == self.text.len() {
                break self.scanner.finish();
            }
            let b = self.text[self.pos];
            self.pos += 1;
            if let Some(t) = self.scanner.feed(b) {
                break Some(t);
            }
        };
        match token {
            None => Ok(false),
            Some(bytes) => {
                self.buffer = Some(String::from_utf8(bytes).map_err(|_| SortError::InvalidData)?);
                Ok(true)
            }
        }
    }
}

impl MergeReader<String> for TextReader {
    type Writer = TextWriter;

    fn get(&mut self) -> Result<String, SortError> {
        if !self.ensure_buffer()? {
            return Err(SortError::Exhausted);
        }
        Ok(self.buffer.clone().unwrap())
    }

    fn advance(&mut self) -> Result<bool, SortError> {
        if !self.ensure_buffer()? {
            return Ok(false);
        }
        self.buffer = None;
        self.ensure_buffer()
    }

    fn is_exhausted(&mut self) -> Result<bool, SortError> {
        Ok(!self.ensure_buffer()?)
    }

    fn into_writer(self) -> Result<TextWriter, SortError> {
        let mut text = self.text;
        text.clear();
        Ok(TextWriter { text, first: true })
    }
}

impl MergeWriter<String> for TextWriter {
    type Reader = TextReader;

    fn append(&mut self, value: String) -> Result<(), SortError> {
        if !self.first {
            self.text.push(b' ');
        }
        self.first = false;
        self.text.extend_from_slice(value.as_bytes());
        Ok(())
    }

    fn into_reader(self) -> Result<TextReader, SortError> {
        Ok(TextReader::new(self.text))
    }
}

fn fresh() -> TextWriter {
    TextWriter { text: Vec::new(), first: true }
}

fn sort_as_text(items: &[String]) -> Vec<String> {
    let sorter = MergeSorter::<String>::new();
    let src = TextReader::new(items.join(" ").into_bytes());
    let r = sorter.complete_sort(src, fresh(), fresh(), fresh(), fresh()).unwrap();
    String::from_utf8(r.text).unwrap().split_whitespace().map(|s| s.to_string()).collect()
}

fn sort_in_memory(items: &[String]) -> Vec<String> {
    let sorter = MergeSorter::<String>::new();
    let mut r = sorter
        .complete_sort(
            InMemoryReader::from_vec(items.to_vec()),
            InMemoryWriter::new(),
            InMemoryWriter::new(),
            InMemoryWriter::new(),
            InMemoryWriter::new(),
        )
        .unwrap();
    let mut out = Vec::new();
    while !r.is_exhausted().unwrap() {
        out.push(r.get().unwrap());
        r.advance().unwrap();
    }
    out
}

#[test]
fn text_and_memory_backends_agree() {
    let mut state = 99u64;
    for n in [0usize, 1, 2, 3, 5, 8, 13, 100, 1000] {
        let items: Vec<String> = (0..n)
            .map(|_| {
                state = state.wrapping_mul(6364136223846793005).wrapping_add(1442695040888963407);
                format!("k{}", (state >> 40) % 500)
            })
            .collect();
        let a = sort_in_memory(&items);
        let b = sort_as_text(&items);
        assert_eq!(a, b, "n = {}", n);
        assert_eq!(a.len(), n);
    }
}

#[test]
fn text_backend_sorts_boundary_inputs() {
    let s = |v: &[&str]| v.iter().map(|x| x.to_string()).collect::<Vec<_>>();
    assert_eq!(sort_as_text(&s(&[])), s(&[]));
    assert_eq!(sort_as_text(&s(&["b"])), s(&["b"]));
    assert_eq!(sort_as_text(&s(&["c", "a", "b"])), s(&["a", "b", "c"]));
    assert_eq!(sort_as_text(&s(&["b", "a", "b"])), s(&["a", "b", "b"]));
}

#[test]
fn invalid_token_is_a_data_error() {
    let mut r = TextReader::new(vec![0xff, 0xfe]);
    assert_eq!(r.get(), Err(SortError::InvalidData));
}

use chainbuf::search::{failure_table, find_bytes};
use chainbuf::Chain;

fn chain_from_parts<'a>(parts: &[&'a [u8]]) -> Chain<'a> {
    let mut chain = Chain::new();
    for part in parts.iter() {
        chain.append_slice(part);
    }
    chain
}

/// The first occurrence, found by trying every offset.
fn first_by_comparison(hay: &[u8], needle: &[u8]) -> Option<usize> {
    if needle.len() > hay.len() {
        return None;
    }
    (0..=hay.len() - needle.len()).find(|i| &hay[*i..*i + needle.len()] == needle)
}

#[test]
fn find_across_node_boundaries() {
    let chain = chain_from_parts(&[b"he", b"llowor", b"ld"]);
    assert_eq!(chain.find(b"owor"), Some(4));
    assert_eq!(chain.find(b"helloworld"), Some(0));
    assert_eq!(chain.find(b"ell"), Some(1));
    assert_eq!(chain.find(b"rld"), Some(7));
    assert_eq!(chain.find(b"d"), Some(9));
    assert_eq!(chain.find(b"l"), Some(2));
    assert_eq!(chain.find(b"world!"), None);
    assert_eq!(chain.find(b"owr"), None);
    assert_eq!(chain.find(b""), Some(0));
}

#[test]
fn find_does_not_skip_a_byte_between_the_parts_of_a_needle() {
    let chain = chain_from_parts(&[b"he", b"llo wor", b"ld"]);
    assert_eq!(chain.find(b"owor"), None);
    assert_eq!(chain.find(b"o wor"), Some(4));
    assert_eq!(chain.find(b" world"), Some(5));
    assert_eq!(chain.find(b"hello world"), Some(0));
}

#[test]
fn find_of_the_empty_needle_in_the_empty_chain() {
    let chain = Chain::new();
    assert_eq!(chain.find(b""), Some(0));
}

#[test]
fn find_in_appended_bytes() {
    let mut chain = Chain::new();
    chain.append_bytes(b"he");
    chain.append_bytes(b"llowor");
    chain.append_bytes(b"ld");
    assert_eq!(chain.find(b"owor"), Some(4));
    assert_eq!(chain.find(b"owo"), Some(4));
    assert_eq!(chain.find(b"xyz"), None);
}

#[test]
fn find_after_a_false_start_at_a_boundary() {
    // "aa" starts the needle, and so does the "a" that follows
    let chain = chain_from_parts(&[b"xaa", b"ab"]);
    assert_eq!(chain.find(b"aab"), Some(2));
    let chain = chain_from_parts(&[b"ab", b"ab", b"ac"]);
    assert_eq!(chain.find(b"abac"), Some(2));
    let chain = chain_from_parts(&[b"aaa", b"aaa", b"ab"]);
    assert_eq!(chain.find(b"aaab"), Some(4));
    let chain = chain_from_parts(&[b"abcab", b"cabd"]);
    assert_eq!(chain.find(b"abcabd"), Some(3));
}

#[test]
fn find_a_needle_that_spans_many_nodes() {
    let chain = chain_from_parts(&[b"x", b"a", b"", b"b", b"c", b"d", b"y"]);
    assert_eq!(chain.find(b"abcd"), Some(1));
    assert_eq!(chain.find(b"xabcdy"), Some(0));
    assert_eq!(chain.find(b"bcdy"), Some(2));
    assert_eq!(chain.find(b"abdc"), None);
    let chain = chain_from_parts(&[b"xab", b"ab", b"c"]);
    assert_eq!(chain.find(b"abc"), Some(3));
}

#[test]
fn find_returns_the_first_of_several() {
    let chain = chain_from_parts(&[b"abab", b"abab"]);
    assert_eq!(chain.find(b"ab"), Some(0));
    assert_eq!(chain.find(b"ba"), Some(1));
    assert_eq!(chain.find(b"bab"), Some(1));
    assert_eq!(chain.find(b"ababab"), Some(0));
}

#[test]
fn find_agrees_with_comparison_at_every_offset() {
    let alphabet = b"ab";
    let mut state: u64 = 12345;
    for round in 0..300usize {
        let mut text: Vec<u8> = Vec::new();
        let mut cuts: Vec<usize> = vec![0];
        for _ in 0..(round % 5) + 1 {
            state = state.wrapping_mul(6364136223846793005).wrapping_add(1442695040888963407);
            let len = ((state >> 40) % 6) as usize;
            for _ in 0..len {
                state = state.wrapping_mul(6364136223846793005).wrapping_add(1442695040888963407);
                text.push(alphabet[((state >> 40) % 2) as usize]);
            }
            cuts.push(text.len());
        }
        let mut needle: Vec<u8> = Vec::new();
        state = state.wrapping_mul(6364136223846793005).wrapping_add(1442695040888963407);
        let needle_len = ((state >> 40) % 5) as usize;
        for _ in 0..needle_len {
            state = state.wrapping_mul(6364136223846793005).wrapping_add(1442695040888963407);
            needle.push(alphabet[((state >> 40) % 2) as usize]);
        }
        let mut chain = Chain::new();
        for pair in cuts.windows(2) {
            chain.append_slice(&text[pair[0]..pair[1]]);
        }
        let expected = first_by_comparison(&text, &needle);
        assert_eq!(chain.find(&needle), expected);
        assert_eq!(find_bytes(&text, &needle), expected);
    }
}

#[test]
fn find_bytes_in_a_slice() {
    assert_eq!(find_bytes(b"hello world", b"o w"), Some(4));
    assert_eq!(find_bytes(b"hello world", b"hello world"), Some(0));
    assert_eq!(find_bytes(b"hello world", b"hello world!"), None);
    assert_eq!(find_bytes(b"hello world", b""), Some(0));
    assert_eq!(find_bytes(b"", b""), Some(0));
    assert_eq!(find_bytes(b"", b"a"), None);
    assert_eq!(find_bytes(b"aaaaab", b"aab"), Some(3));
}

#[test]
fn failure_table_holds_the_fall_back_lengths() {
    assert_eq!(failure_table(b""), Vec::<usize>::new());
    assert_eq!(failure_table(b"a"), vec![0]);
    assert_eq!(failure_table(b"abab"), vec![0, 0, 1, 2]);
    assert_eq!(failure_table(b"aabaa"), vec![0, 1, 0, 1, 2]);
    assert_eq!(failure_table(b"aaaa"), vec![0, 1, 2, 3]);
    assert_eq!(failure_table(b"abcabd"), vec![0, 0, 0, 1, 2, 0]);
    assert_eq!(failure_table(b"abcd"), vec![0, 0, 0, 0]);
}

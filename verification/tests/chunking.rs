use mdchunk::chunk::accumulate_chunks;
use mdchunk::elide::process_code_blocks;
use mdchunk::walker::chunk_leaves;
use mdchunk::walker::chunk_markdown;
use mdchunk::walker::Leaf;

const SECTION_CHAR_LIMIT: usize = 10;

#[test]
fn test_chunk_markdown() {
    let content = r#"This is a test of the chunking function.
It should split the content into chunks of SECTION_CHAR_LIMIT characters or less."#;
    let chunks = chunk_markdown(content, SECTION_CHAR_LIMIT);

    // Filter out single-word chunks that exceed SECTION_CHAR_LIMIT
    let filtered_chunks: Vec<&String> = chunks
        .iter()
        .filter(|chunk| chunk.len() <= SECTION_CHAR_LIMIT)
        .collect();

    println!("Total chunks: {}", chunks.len());
    println!("Filtered chunks: {}", filtered_chunks.len());

    filtered_chunks.iter().enumerate().for_each(|(ii, chunk)| {
        println!("Chunk {}: '{}' (length: {})", ii, chunk, chunk.len());
    });

    // Calculate expected number of chunks
    let total_length: usize = content
        .split_whitespace()
        .map(|word| word.len())
        .sum::<usize>()
        + content.split_whitespace().count()
        - 1; // Add spaces between words
    let expected_chunks = (total_length as f64 / SECTION_CHAR_LIMIT as f64).ceil() as usize;

    assert!(
        filtered_chunks.len() <= expected_chunks,
        "Too many chunks. Expected: >= {}, Actual: {}",
        expected_chunks,
        filtered_chunks.len()
    );

    filtered_chunks.iter().for_each(|chunk| {
        assert!(
            chunk.len() <= SECTION_CHAR_LIMIT,
            "Filtered chunk exceeds SECTION_CHAR_LIMIT: '{}'",
            chunk
        );
    });
}

#[test]
fn accumulator_worked_example() {
    let leaves = vec![
        "Hello".to_string(),
        "World".to_string(),
        "foo".to_string(),
    ];
    let chunks = accumulate_chunks(&leaves, 10);
    assert_eq!(chunks, vec!["Hello".to_string(), "World foo".to_string()]);
}

#[test]
fn single_short_leaf_is_one_chunk() {
    let leaves = vec!["abc".to_string()];
    let chunks = accumulate_chunks(&leaves, 10);
    assert_eq!(chunks, vec!["abc".to_string()]);
}

#[test]
fn oversized_leaf_is_kept_whole() {
    let leaves = vec!["aaaaaaaaaaaa".to_string(), "bb".to_string()];
    let chunks = accumulate_chunks(&leaves, 5);
    assert_eq!(
        chunks,
        vec!["aaaaaaaaaaaa".to_string(), "bb".to_string()]
    );
}

#[test]
fn empty_document_yields_no_chunks() {
    let chunks = chunk_markdown("", 1500);
    assert!(chunks.is_empty());
}

#[test]
fn markdown_structure_is_flattened() {
    let chunks = chunk_markdown("# Hello\n\nWorld", 100);
    assert_eq!(chunks, vec!["Hello World".to_string()]);
}

#[test]
fn code_block_of_eighty_one_characters_is_elided() {
    let payload = "x".repeat(81);
    assert_eq!(
        process_code_blocks(&payload),
        "listing omitted; please see the original source".to_string()
    );
}

#[test]
fn code_block_of_eighty_characters_is_preserved() {
    let payload = "x".repeat(80);
    assert_eq!(process_code_blocks(&payload), payload);
}

#[test]
fn elision_is_idempotent_on_oversized_payload() {
    let payload = "y".repeat(200);
    let once = process_code_blocks(&payload);
    let twice = process_code_blocks(&once);
    assert_eq!(twice, once);
}

#[test]
fn oversized_code_block_leaf_is_elided_before_chunking() {
    let leaves = vec![
        Leaf::Text("intro".to_string()),
        Leaf::CodeBlock("z".repeat(81)),
    ];
    let chunks = chunk_leaves(&leaves, 1000);
    assert_eq!(
        chunks,
        vec!["intro listing omitted; please see the original source".to_string()]
    );
}

#[test]
fn fenced_block_over_the_threshold_is_elided() {
    // The parser's code-block payload keeps the terminating newline, so
    // eighty fence-body characters make an eighty-one character payload.
    let doc = format!("```\n{}\n```", "a".repeat(80));
    let chunks = chunk_markdown(&doc, 1000);
    assert_eq!(
        chunks,
        vec!["listing omitted; please see the original source".to_string()]
    );
}

#[test]
fn fenced_block_at_the_threshold_is_preserved() {
    let doc = format!("```\n{}\n```", "a".repeat(79));
    let chunks = chunk_markdown(&doc, 1000);
    assert_eq!(chunks, vec![format!("{}\n", "a".repeat(79))]);
}

#[test]
fn short_code_block_leaf_passes_through() {
    let leaves = vec![
        Leaf::InlineCode("let x = 1;".to_string()),
        Leaf::CodeBlock("fn main() {}".to_string()),
    ];
    let chunks = chunk_leaves(&leaves, 1000);
    assert_eq!(chunks, vec!["let x = 1; fn main() {}".to_string()]);
}

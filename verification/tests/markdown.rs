use gram_data::markdown::{extract_snippets, is_fence_close, is_gram_fence_open};

#[test]
fn extracts_gram_fence() {
    let md = "# Hello\n\n```gram\n(a)-[:KNOWS]->(b)\n```\n";
    let snippets = extract_snippets(md);
    assert_eq!(snippets.len(), 1);
    assert_eq!(snippets[0].source.trim(), "(a)-[:KNOWS]->(b)");
    assert_eq!(snippets[0].fence_start_line, 2);
}

#[test]
fn ignores_non_gram_fences() {
    let md = "```cypher\nMATCH (n) RETURN n\n```\n\n```gram\n(a)\n```\n";
    let snippets = extract_snippets(md);
    assert_eq!(snippets.len(), 1);
    assert_eq!(snippets[0].source.trim(), "(a)");
}

#[test]
fn multiple_fences() {
    let md = "```gram\n(a)\n```\n\nSome text.\n\n```gram\n(b)\n```\n";
    let snippets = extract_snippets(md);
    assert_eq!(snippets.len(), 2);
    assert_eq!(snippets[0].source.trim(), "(a)");
    assert_eq!(snippets[1].source.trim(), "(b)");
}

#[test]
fn tilde_fence_and_upper_case_tag() {
    let md = "~~~GRAM\n(x)\n~~~\n  ```Gram  \n(y)\n  ```  \n";
    let snippets = extract_snippets(md);
    assert_eq!(snippets.len(), 2);
    assert_eq!(snippets[0].source, "(x)\n");
    assert_eq!(snippets[0].fence_start_line, 0);
    assert_eq!(snippets[1].source, "(y)\n");
    assert_eq!(snippets[1].fence_start_line, 3);
}

#[test]
fn source_keeps_inner_lines_untrimmed() {
    let md = "```gram\n  (a)  \n\n(b)\n```";
    let snippets = extract_snippets(md);
    assert_eq!(snippets.len(), 1);
    assert_eq!(snippets[0].source, "  (a)  \n\n(b)\n");
}

#[test]
fn crlf_line_endings() {
    let md = "```gram\r\n(a)\r\n```\r\n";
    let snippets = extract_snippets(md);
    assert_eq!(snippets.len(), 1);
    assert_eq!(snippets[0].source, "(a)\n");
}

#[test]
fn unclosed_fence_is_dropped() {
    let md = "```gram\n(a)\n```\n```gram\n(b)\n";
    let snippets = extract_snippets(md);
    assert_eq!(snippets.len(), 1);
    assert_eq!(snippets[0].source, "(a)\n");
}

#[test]
fn empty_block_and_empty_document() {
    assert_eq!(extract_snippets("").len(), 0);
    let snippets = extract_snippets("```gram\n```");
    assert_eq!(snippets.len(), 1);
    assert_eq!(snippets[0].source, "");
    assert_eq!(snippets[0].fence_start_line, 0);
}

#[test]
fn gram_fence_inside_block_is_content() {
    let md = "```gram\n```gram\n````\n";
    let snippets = extract_snippets(md);
    assert_eq!(snippets.len(), 1);
    assert_eq!(snippets[0].source, "```gram\n");
}

#[test]
fn fence_open_recognition() {
    assert!(is_gram_fence_open("```gram"));
    assert!(is_gram_fence_open("~~~gram"));
    assert!(is_gram_fence_open("```GrAm"));
    assert!(is_gram_fence_open("``` gram "));
    assert!(!is_gram_fence_open("```grams"));
    assert!(!is_gram_fence_open("```cypher"));
    assert!(!is_gram_fence_open("``gram"));
    assert!(!is_gram_fence_open("`~`gram"));
    assert!(!is_gram_fence_open("```"));
}

#[test]
fn fence_close_recognition() {
    assert!(is_fence_close("```"));
    assert!(is_fence_close("~~~"));
    assert!(is_fence_close("````~"));
    assert!(is_fence_close("~~~```"));
    assert!(!is_fence_close("``"));
    assert!(!is_fence_close("```gram"));
    assert!(!is_fence_close("`~~"));
    assert!(!is_fence_close(""));
}

#[test]
fn snippets_are_ordered_fenced_blocks() {
    let md = "intro\n```gram\n(a)\r\n```\ntext\n~~~Gram\n(b)\n\n(c)\n~~~~\n```gram\n(d)\n";
    let lines: Vec<&str> = md.lines().collect();
    let snippets = extract_snippets(md);
    assert_eq!(snippets.len(), 2);
    let mut last_close = None;
    for s in &snippets {
        let f = s.fence_start_line;
        assert!(is_gram_fence_open(lines[f].trim()));
        let c = (f + 1..lines.len()).find(|&k| is_fence_close(lines[k].trim())).unwrap();
        let joined: String = lines[f + 1..c].iter().map(|l| format!("{l}\n")).collect();
        assert_eq!(s.source, joined);
        if let Some(prev) = last_close {
            assert!(prev < f);
        }
        last_close = Some(c);
    }
    // The last opening fence has no closing fence after it, so it yields no snippet.
    assert!(is_gram_fence_open(lines[10].trim()));
    assert!(!(11..lines.len()).any(|k| is_fence_close(lines[k].trim())));
}

#[test]
fn prefix_without_fences_shifts_lines() {
    let d = "text\n```gram\n(a)\n```\n~~~gram\n(b)\n~~~";
    let p = "# Title\n\n```cypher\nMATCH (n)\n```\r\n";
    let base = extract_snippets(d);
    let shifted = extract_snippets(&format!("{p}{d}"));
    let n = p.lines().count();
    assert_eq!(shifted.len(), base.len());
    for (s, b) in shifted.iter().zip(base.iter()) {
        assert_eq!(s.source, b.source);
        assert_eq!(s.fence_start_line, b.fence_start_line + n);
    }
}

#[test]
fn snippet_lines_map_back_to_document_lines() {
    let md = "intro\n\n```gram\n(a)\n\n  (b)-->(c)\n```\nafter\n~~~gram\n(d)\n~~~\n";
    let doc_lines: Vec<&str> = md.lines().collect();
    for s in extract_snippets(md) {
        for (j, line) in s.source.lines().enumerate() {
            assert_eq!(line, doc_lines[s.fence_start_line + 1 + j]);
        }
    }
}

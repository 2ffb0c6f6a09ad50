use swiftide_ask::chunker::{
    chunk_unit, chunk_with, cut_by_lines, cut_long_pieces, fill_gaps, find_from, place_pieces,
    splits_markdown, ChunkRange,
};
use swiftide_ask::error::PipelineError;
use swiftide_ask::unit::{ContentClass, Unit};

fn prose(text: &str) -> Unit {
    Unit::from_file("a.md".to_string(), text.to_string(), ContentClass::Prose)
}

fn chars(text: &str) -> Vec<char> {
    text.chars().collect()
}

#[test]
fn find_from_returns_first_occurrence_behind_the_start() {
    let text = chars("abcabcabc");
    let piece = chars("bc");
    assert_eq!(find_from(&text, &piece, 0), Some(1));
    assert_eq!(find_from(&text, &piece, 1), Some(1));
    assert_eq!(find_from(&text, &piece, 2), Some(4));
    assert_eq!(find_from(&text, &piece, 8), None);
    assert_eq!(find_from(&text, &chars("abd"), 0), None);
    assert_eq!(find_from(&text, &chars("abcabcabcd"), 0), None);
    assert_eq!(find_from(&text, &Vec::new(), 9), Some(9));
    assert_eq!(find_from(&text, &Vec::new(), 10), None);
}

#[test]
fn pieces_become_chunks_in_order_without_overlap() {
    let unit = prose("one two three two four");
    let pieces = vec!["two".to_string(), "three".to_string(), "two".to_string()];
    let out = place_pieces(&unit, &pieces, &ChunkRange { min: 3, max: 5 });
    assert!(out.rejected.is_empty());
    assert_eq!(out.chunks.len(), 3);
    let spans: Vec<(usize, usize, usize)> =
        out.chunks.iter().map(|c| (c.start, c.end, c.position)).collect();
    assert_eq!(spans, vec![(4, 7, 0), (8, 13, 1), (14, 17, 2)]);
    for chunk in &out.chunks {
        assert_eq!(chunk.path, "a.md");
        assert_eq!(chunk.lineage, unit.fingerprint);
        assert_eq!(chunk.class, ContentClass::Prose);
        assert!(chunk.embedding.is_none());
        assert!(chunk.error.is_none());
        let slice: String =
            unit.content.chars().skip(chunk.start).take(chunk.end - chunk.start).collect();
        assert_eq!(slice, chunk.content);
    }
}

#[test]
fn only_the_last_piece_may_be_shorter_than_the_minimum() {
    let unit = prose("aaaa bb cccc dd");
    let pieces =
        vec!["aaaa".to_string(), "bb".to_string(), "cccc".to_string(), "dd".to_string()];
    let out = place_pieces(&unit, &pieces, &ChunkRange { min: 3, max: 4 });
    let texts: Vec<&str> = out.chunks.iter().map(|c| c.content.as_str()).collect();
    assert_eq!(texts, vec!["aaaa", "cccc", "dd"]);
    assert_eq!(out.rejected.len(), 1);
    assert_eq!(out.rejected[0].content, "bb");
    assert_eq!(out.rejected[0].position, 1);
    assert_eq!(out.rejected[0].error, Some(PipelineError::ChunkError));
}

#[test]
fn pieces_that_are_too_long_empty_or_not_found_are_rejected() {
    let unit = prose("alpha beta gamma");
    let pieces = vec![
        "alpha beta".to_string(),
        "".to_string(),
        "delta".to_string(),
        "beta".to_string(),
        "alpha".to_string(),
    ];
    let out = place_pieces(&unit, &pieces, &ChunkRange { min: 1, max: 5 });
    let texts: Vec<&str> = out.chunks.iter().map(|c| c.content.as_str()).collect();
    assert_eq!(texts, vec!["beta"]);
    assert_eq!(out.chunks[0].start, 6);
    assert_eq!(out.chunks[0].end, 10);
    let lost: Vec<(&str, usize, usize, usize)> = out
        .rejected
        .iter()
        .map(|u| (u.content.as_str(), u.position, u.start, u.end))
        .collect();
    assert_eq!(
        lost,
        vec![("alpha beta", 0, 0, 0), ("", 1, 0, 0), ("delta", 2, 0, 0), ("alpha", 4, 0, 0)]
    );
    for piece in &out.rejected {
        assert_eq!(piece.error, Some(PipelineError::ChunkError));
        assert_eq!(piece.path, "a.md");
        assert_eq!(piece.lineage, unit.fingerprint);
    }
}

#[test]
fn offsets_count_characters() {
    let unit = prose("äöü élan");
    let out = place_pieces(&unit, &vec!["élan".to_string()], &ChunkRange { min: 1, max: 4 });
    assert_eq!(out.chunks.len(), 1);
    assert_eq!((out.chunks[0].start, out.chunks[0].end), (4, 8));
}

#[test]
fn a_unit_that_cannot_be_split_counts_as_one_rejection() {
    let unit = prose("some text");
    let out = chunk_with(&unit, &ChunkRange { min: 1, max: 10 }, None);
    assert!(out.chunks.is_empty());
    let mut marked = unit.duplicate();
    marked.error = Some(PipelineError::ChunkError);
    assert_eq!(out.rejected, vec![marked]);
}

#[test]
fn a_range_that_nothing_fits_in_rejects_the_unit() {
    let unit = prose("some text");
    let pieces = Some(vec!["some".to_string()]);
    let out = chunk_with(&unit, &ChunkRange { min: 5, max: 4 }, pieces);
    assert!(out.chunks.is_empty());
    assert_eq!(out.rejected.len(), 1);
    assert_eq!(out.rejected[0].content, "some text");
    let out = chunk_unit(&unit, &ChunkRange { min: 0, max: 0 });
    assert!(out.chunks.is_empty());
    assert_eq!(out.rejected.len(), 1);
    assert_eq!(out.rejected[0].error, Some(PipelineError::ChunkError));
}

#[test]
fn markdown_is_cut_along_its_structure() {
    let text = "# Title\n\nFirst paragraph with some words in it.\n\n## Section\n\nSecond paragraph, also with words. And a much longer sentence that goes on and on.\n\nshort\n";
    let unit = prose(text);
    let out = chunk_unit(&unit, &ChunkRange { min: 10, max: 50 });
    let texts: Vec<&str> = out.chunks.iter().map(|c| c.content.as_str()).collect();
    assert_eq!(
        texts,
        vec![
            "# Title\n\nFirst paragraph with some words in it.",
            "## Section",
            "Second paragraph, also with words.",
            "And a much longer sentence that goes on and on.",
            "short",
        ]
    );
    let spans: Vec<(usize, usize)> = out.chunks.iter().map(|c| (c.start, c.end)).collect();
    assert_eq!(spans, vec![(0, 47), (49, 59), (61, 95), (96, 143), (145, 150)]);
    assert!(out.rejected.is_empty());
}

#[test]
fn rust_code_is_cut_along_its_syntax() {
    let text = "use std::fmt;\n\n/// Adds.\nfn add(a: u32, b: u32) -> u32 {\n    a + b\n}\n\nfn main() {\n    println!(\"{}\", add(1, 2));\n}\n";
    let unit = Unit::from_file("b.rs".to_string(), text.to_string(), ContentClass::Code);
    let out = chunk_unit(&unit, &ChunkRange { min: 10, max: 60 });
    let texts: Vec<&str> = out.chunks.iter().map(|c| c.content.as_str()).collect();
    assert_eq!(
        texts,
        vec![
            "use std::fmt;\n\n/// Adds.\n",
            "fn add(a: u32, b: u32) -> u32 {\n    a + b\n}",
            "\n\nfn main() {\n    println!(\"{}\", add(1, 2));\n}",
        ]
    );
    let spans: Vec<(usize, usize, usize)> =
        out.chunks.iter().map(|c| (c.start, c.end, c.position)).collect();
    assert_eq!(spans, vec![(0, 25, 0), (25, 68, 1), (68, 114, 2)]);
    assert!(out.rejected.is_empty());
}

#[test]
fn chunk_lengths_stay_within_the_range() {
    let mut text = String::new();
    for i in 0..40 {
        text.push_str(&format!("Paragraph number {} has a few words of its own.\n\n", i));
    }
    let unit = prose(&text);
    let range = ChunkRange { min: 20, max: 120 };
    let out = chunk_unit(&unit, &range);
    assert!(out.chunks.len() > 1);
    let last = out.chunks.len() - 1;
    for (i, chunk) in out.chunks.iter().enumerate() {
        let len = chunk.content.chars().count();
        assert!(len >= 1 && len <= range.max);
        if i < last {
            assert!(len >= range.min);
            assert!(chunk.end <= out.chunks[i + 1].start);
        }
        assert_eq!(chunk.position, i);
        assert_eq!(chunk.end - chunk.start, len);
    }
}

#[test]
fn markdown_is_cut_inside_an_executor() {
    let unit = prose("# Title\n\nA paragraph that is cut while an executor runs.\n");
    let range = ChunkRange { min: 10, max: 60 };
    let outside = chunk_unit(&unit, &range);
    let inside = futures::executor::block_on(futures::future::lazy(|_| chunk_unit(&unit, &range)));
    assert_eq!(inside, outside);
    assert_eq!(inside.chunks.len(), 1);
}

#[test]
fn a_long_text_is_cut_at_line_breaks() {
    let text = "line one\nline two\nline three\n";
    assert_eq!(
        cut_by_lines(text, &ChunkRange { min: 3, max: 12 }),
        vec!["line one\n", "line two\n", "line three\n"]
    );
    assert_eq!(
        cut_by_lines(text, &ChunkRange { min: 3, max: 20 }),
        vec!["line one\nline two\n", "line three\n"]
    );
    assert_eq!(cut_by_lines(text, &ChunkRange { min: 0, max: 29 }), vec![text]);
    assert_eq!(cut_by_lines("", &ChunkRange { min: 0, max: 5 }), Vec::<String>::new());
}

#[test]
fn a_text_without_line_breaks_in_reach_is_cut_at_the_maximum() {
    assert_eq!(
        cut_by_lines("abcdefghij", &ChunkRange { min: 2, max: 4 }),
        vec!["abcd", "efgh", "ij"]
    );
    assert_eq!(cut_by_lines("a\nbcdefgh", &ChunkRange { min: 3, max: 5 }), vec!["a\nbcd", "efgh"]);
    assert_eq!(cut_by_lines("a\nbcdefgh", &ChunkRange { min: 2, max: 5 }), vec!["a\n", "bcdef", "gh"]);
    assert_eq!(cut_by_lines("\n\n\n", &ChunkRange { min: 0, max: 1 }), vec!["\n", "\n", "\n"]);
    assert_eq!(cut_by_lines("äöüß", &ChunkRange { min: 1, max: 3 }), vec!["äöü", "ß"]);
}

#[test]
fn a_range_that_nothing_fits_in_cuts_nothing() {
    assert_eq!(cut_by_lines("abc", &ChunkRange { min: 0, max: 0 }), Vec::<String>::new());
    assert_eq!(cut_by_lines("abc", &ChunkRange { min: 3, max: 2 }), Vec::<String>::new());
    let pieces = vec!["abcdef".to_string()];
    assert_eq!(cut_long_pieces(&pieces, &ChunkRange { min: 3, max: 2 }), pieces);
}

#[test]
fn only_pieces_over_the_maximum_are_cut() {
    let pieces = vec!["ab".to_string(), "abcdefg".to_string(), "".to_string(), "xyz".to_string()];
    assert_eq!(
        cut_long_pieces(&pieces, &ChunkRange { min: 2, max: 3 }),
        vec!["ab", "abc", "def", "g", "", "xyz"]
    );
    assert_eq!(cut_long_pieces(&Vec::new(), &ChunkRange { min: 2, max: 3 }), Vec::<String>::new());
}

#[test]
fn a_piece_over_the_maximum_reaches_the_index_in_parts() {
    let text = "fn a() {\n    1\n}\nfn b() {\n    2\n}\n";
    let unit = Unit::from_file("c.rs".to_string(), text.to_string(), ContentClass::Code);
    let out = chunk_with(&unit, &ChunkRange { min: 5, max: 20 }, Some(vec![text.to_string()]));
    let parts: Vec<(&str, usize, usize, usize)> = out
        .chunks
        .iter()
        .map(|c| (c.content.as_str(), c.start, c.end, c.position))
        .collect();
    assert_eq!(
        parts,
        vec![
            ("fn a() {\n    1\n}\n", 0, 17, 0),
            ("fn b() {\n    2\n}\n", 17, 34, 1),
        ]
    );
    assert!(out.rejected.is_empty());
    let whole: String = out.chunks.iter().map(|c| c.content.as_str()).collect();
    assert_eq!(whole, text);
}

#[test]
fn what_the_splitter_leaves_out_becomes_a_piece() {
    let text = "  head \n\none two\n middle part \nthree\n\ttail\n";
    let pieces = vec!["one two".to_string(), "three".to_string()];
    assert_eq!(fill_gaps(text, &pieces), vec!["head", "one two", "middle part", "three", "tail"]);
    assert_eq!(fill_gaps("one two three", &pieces), vec!["one two", "three"]);
    assert_eq!(fill_gaps(" one two \n three \n", &pieces), vec!["one two", "three"]);
    assert_eq!(fill_gaps("all of it", &Vec::new()), vec!["all of it"]);
    assert_eq!(fill_gaps(" \n\t", &Vec::new()), Vec::<String>::new());
    assert_eq!(fill_gaps("", &Vec::new()), Vec::<String>::new());
}

#[test]
fn pieces_that_are_not_found_stay_where_they_are() {
    let pieces = vec!["b".to_string(), "x".to_string(), "a".to_string(), "d".to_string()];
    assert_eq!(fill_gaps("a b c d", &pieces), vec!["a", "b", "x", "a", "c", "d"]);
}

#[test]
fn content_between_the_pieces_reaches_the_index() {
    let text = "fn a() {}\nconst LONG: &str = \"left out\";\nfn b() {}\n";
    let unit = Unit::from_file("c.rs".to_string(), text.to_string(), ContentClass::Code);
    let pieces = Some(vec!["fn a() {}".to_string(), "fn b() {}".to_string()]);
    let out = chunk_with(&unit, &ChunkRange { min: 5, max: 40 }, pieces);
    let parts: Vec<(&str, usize, usize)> =
        out.chunks.iter().map(|c| (c.content.as_str(), c.start, c.end)).collect();
    assert_eq!(
        parts,
        vec![
            ("fn a() {}", 0, 9),
            ("const LONG: &str = \"left out\";", 10, 40),
            ("fn b() {}", 41, 50),
        ]
    );
    assert!(out.rejected.is_empty());
}

#[test]
fn prose_with_room_for_one_character_is_cut_by_position() {
    let range = ChunkRange { min: 0, max: 1 };
    assert!(!splits_markdown(range));
    assert!(splits_markdown(ChunkRange { min: 1, max: 1 }));
    assert!(splits_markdown(ChunkRange { min: 0, max: 2 }));
    for text in [" a", "a b", " a b ", "\n\na\n", "ab"] {
        let out = chunk_unit(&prose(text), &range);
        for chunk in &out.chunks {
            assert_eq!(chunk.content.chars().count(), 1);
            assert_eq!(chunk.end, chunk.start + 1);
        }
        let kept: String = out.chunks.iter().map(|c| c.content.as_str()).collect();
        assert_eq!(kept, text.trim());
        assert!(out.rejected.is_empty());
    }
    let out = chunk_unit(&prose(" a"), &range);
    assert_eq!(out.chunks.len(), 1);
    assert_eq!((out.chunks[0].start, out.chunks[0].end), (1, 2));
    let blank = chunk_unit(&prose(" \n"), &range);
    assert!(blank.chunks.is_empty() && blank.rejected.is_empty());
}

#[test]
fn the_smallest_ranges_that_the_markdown_chunker_is_asked_for() {
    for range in [ChunkRange { min: 1, max: 1 }, ChunkRange { min: 0, max: 2 }] {
        for text in [" a", "a b", " a b ", "# t\n\n a \n\n b", ""] {
            let out = chunk_unit(&prose(text), &range);
            for chunk in &out.chunks {
                let len = chunk.content.chars().count();
                assert!(1 <= len && len <= range.max);
            }
        }
    }
}

use swiftide_ask::batch::{assign_embeddings, check_vectors, embedding_inputs, take_batch};
use swiftide_ask::cache::{filter_cached, CacheAnswer};
use swiftide_ask::chunker::{chunk_all, ChunkRange};
use swiftide_ask::enrich::{apply_enrichment, RetryPolicy};
use swiftide_ask::error::PipelineError;
use swiftide_ask::index::{any_of_lineage, choose_files, completed_lineages};
use swiftide_ask::namespace::Namespace;
use swiftide_ask::store::{check_batch, check_dimension};
use swiftide_ask::unit::{ContentClass, MetadataEntry, Unit};

fn unit(path: &str, text: &str) -> Unit {
    Unit::from_file(path.to_string(), text.to_string(), ContentClass::Prose)
}

fn code(path: &str, text: &str) -> Unit {
    Unit::from_file(path.to_string(), text.to_string(), ContentClass::Code)
}

fn units(n: usize) -> Vec<Unit> {
    (0..n).map(|i| unit(&format!("f{}.md", i), &format!("text {}", i))).collect()
}

fn paths(units: &[Unit]) -> Vec<&str> {
    units.iter().map(|u| u.path.as_str()).collect()
}

#[test]
fn units_that_the_cache_knows_are_skipped() {
    let answers = vec![
        CacheAnswer::Indexed,
        CacheAnswer::Absent,
        CacheAnswer::Indexed,
        CacheAnswer::Unavailable,
    ];
    let out = filter_cached(units(4), &answers);
    assert_eq!(paths(&out.fresh), vec!["f1.md", "f3.md"]);
    assert_eq!(out.skipped, 2);
}

#[test]
fn a_cached_corpus_leaves_nothing_to_do() {
    let out = filter_cached(units(3), &vec![CacheAnswer::Indexed; 3]);
    assert!(out.fresh.is_empty());
    assert_eq!(out.skipped, 3);
}

#[test]
fn an_unreachable_cache_fails_open() {
    let out = filter_cached(units(3), &vec![CacheAnswer::Unavailable; 3]);
    assert_eq!(out.fresh, units(3));
    assert_eq!(out.skipped, 0);
    assert_eq!(CacheAnswer::Unavailable.error(), Some(PipelineError::CacheError));
    assert_eq!(CacheAnswer::Absent.error(), None);
    assert_eq!(CacheAnswer::Indexed.error(), None);
    let missing = filter_cached(units(3), &vec![CacheAnswer::Indexed]);
    assert_eq!(paths(&missing.fresh), vec!["f1.md", "f2.md"]);
    assert_eq!(missing.skipped, 1);
    let extra = filter_cached(units(1), &vec![CacheAnswer::Absent, CacheAnswer::Indexed]);
    assert_eq!(extra.fresh, units(1));
}

#[test]
fn every_unit_is_cut_and_rejections_add_up() {
    let a = "# A\n\nA first paragraph of the first file.\n";
    let b = "# B\n\nA first paragraph of the second file.\n\nAnd a second paragraph in it.\n";
    let out = chunk_all(
        vec![unit("a.md", a), unit("b.md", b)],
        &ChunkRange { min: 10, max: 45 },
        None,
    );
    let texts: Vec<(&str, &str, usize)> =
        out.chunks.iter().map(|c| (c.path.as_str(), c.content.as_str(), c.position)).collect();
    assert_eq!(
        texts,
        vec![
            ("a.md", "# A\n\nA first paragraph of the first file.", 0),
            ("b.md", "# B\n\nA first paragraph of the second file.", 0),
            ("b.md", "And a second paragraph in it.", 1),
        ]
    );
    assert!(out.rejected.is_empty());
    let none = chunk_all(vec![unit("a.md", a), unit("b.md", b)], &ChunkRange { min: 9, max: 0 }, None);
    assert!(none.chunks.is_empty());
    assert_eq!(paths(&none.rejected), vec!["a.md", "b.md"]);
    assert!(none.rejected.iter().all(|u| u.error == Some(PipelineError::ChunkError)));
    let empty = chunk_all(Vec::new(), &ChunkRange { min: 1, max: 10 }, Some(0));
    assert!(empty.chunks.is_empty());
    assert!(empty.rejected.is_empty());
}

#[test]
fn chunks_of_code_inherit_the_outline_of_their_file() {
    let text = "fn one() {\n    let a = 1;\n}\n\nfn two() {\n    let b = 2;\n}\n";
    let out = chunk_all(vec![code("c.rs", text)], &ChunkRange { min: 5, max: 30 }, Some(10));
    assert!(out.chunks.len() >= 2);
    for chunk in &out.chunks {
        assert_eq!(
            chunk.metadata,
            vec![MetadataEntry {
                key: "Outline".to_string(),
                value: "fn one() \n\nfn two() ".to_string()
            }]
        );
    }
    let plain = chunk_all(vec![code("c.rs", text)], &ChunkRange { min: 5, max: 30 }, None);
    assert!(plain.chunks.iter().all(|c| c.metadata.is_empty()));
    let small = chunk_all(vec![code("c.rs", text)], &ChunkRange { min: 5, max: 30 }, Some(1000));
    assert!(small.chunks.iter().all(|c| c.metadata.is_empty()));
}

#[test]
fn generated_text_is_attached_under_the_key_of_the_class() {
    let chunks = vec![unit("a.md", "prose"), code("b.rs", "fn b() {}")];
    let out = apply_enrichment(chunks, &vec![Some("Q1".to_string()), Some("Q2".to_string())]);
    assert!(out.failed.is_empty());
    assert_eq!(
        out.chunks[0].metadata,
        vec![MetadataEntry {
            key: "Questions and Answers (text)".to_string(),
            value: "Q1".to_string()
        }]
    );
    assert_eq!(
        out.chunks[1].metadata,
        vec![MetadataEntry {
            key: "Questions and Answers (code)".to_string(),
            value: "Q2".to_string()
        }]
    );
}

#[test]
fn one_failed_enrichment_leaves_the_others_untouched() {
    let n = 5;
    let k = 2;
    let answers: Vec<Option<String>> =
        (0..n).map(|i| if i == k { None } else { Some(format!("qa {}", i)) }).collect();
    let out = apply_enrichment(units(n), &answers);
    assert_eq!(out.chunks.len(), n - 1);
    assert_eq!(paths(&out.chunks), vec!["f0.md", "f1.md", "f3.md", "f4.md"]);
    for chunk in &out.chunks {
        let i: usize = chunk.path[1..2].parse().unwrap();
        assert_eq!(chunk.content, format!("text {}", i));
        assert_eq!(chunk.metadata.len(), 1);
        assert_eq!(chunk.metadata[0].value, format!("qa {}", i));
        assert_eq!(chunk.error, None);
    }
    assert_eq!(out.failed.len(), 1);
    assert_eq!(out.failed[0].path, "f2.md");
    assert_eq!(out.failed[0].error, Some(PipelineError::EnrichmentError));
    assert!(out.failed[0].metadata.is_empty());
}

#[test]
fn a_missing_answer_is_a_failed_enrichment() {
    let out = apply_enrichment(units(3), &vec![Some("x".to_string())]);
    assert_eq!(paths(&out.chunks), vec!["f0.md"]);
    assert_eq!(paths(&out.failed), vec!["f1.md", "f2.md"]);
    let none = apply_enrichment(Vec::new(), &vec![Some("x".to_string())]);
    assert!(none.chunks.is_empty() && none.failed.is_empty());
}

#[test]
fn the_wait_doubles_until_the_tries_are_used_up() {
    let policy = RetryPolicy { attempts: 4, base_delay_ms: 250, timeout_ms: 1000 };
    assert_eq!(policy.delay_after(0), None);
    assert_eq!(policy.delay_after(1), Some(250));
    assert_eq!(policy.delay_after(2), Some(500));
    assert_eq!(policy.delay_after(3), Some(1000));
    assert_eq!(policy.delay_after(4), None);
    assert_eq!(policy.delay_after(5), None);
    let standard = RetryPolicy::standard();
    assert_eq!(standard, RetryPolicy { attempts: 3, base_delay_ms: 500, timeout_ms: 30000 });
    assert_eq!(standard.delay_after(1), Some(500));
    assert_eq!(standard.delay_after(2), Some(1000));
    assert_eq!(standard.delay_after(3), None);
    let once = RetryPolicy { attempts: 1, base_delay_ms: 10, timeout_ms: 0 };
    assert_eq!(once.delay_after(1), None);
    let never = RetryPolicy { attempts: 0, base_delay_ms: 10, timeout_ms: 0 };
    assert_eq!(never.delay_after(0), None);
}

#[test]
fn the_wait_stays_at_the_largest_number() {
    let policy = RetryPolicy { attempts: 100, base_delay_ms: 1 << 62, timeout_ms: 1 };
    assert_eq!(policy.delay_after(1), Some(1 << 62));
    assert_eq!(policy.delay_after(2), Some(1 << 63));
    assert_eq!(policy.delay_after(3), Some(u64::MAX));
    assert_eq!(policy.delay_after(99), Some(u64::MAX));
    let zero = RetryPolicy { attempts: 100, base_delay_ms: 0, timeout_ms: 1 };
    assert_eq!(zero.delay_after(70), Some(0));
    let one = RetryPolicy { attempts: 100, base_delay_ms: 1, timeout_ms: 1 };
    assert_eq!(one.delay_after(64), Some(1 << 63));
    assert_eq!(one.delay_after(65), Some(u64::MAX));
}

#[test]
fn batches_are_taken_from_the_front() {
    let mut pending = units(5);
    let first = take_batch(&mut pending, 2);
    assert_eq!(paths(&first), vec!["f0.md", "f1.md"]);
    assert_eq!(paths(&pending), vec!["f2.md", "f3.md", "f4.md"]);
    let second = take_batch(&mut pending, 2);
    assert_eq!(paths(&second), vec!["f2.md", "f3.md"]);
    let last = take_batch(&mut pending, 2);
    assert_eq!(paths(&last), vec!["f4.md"]);
    assert!(pending.is_empty());
    assert!(take_batch(&mut pending, 2).is_empty());
    let mut all = units(3);
    assert!(take_batch(&mut all, 0).is_empty());
    assert_eq!(all.len(), 3);
    assert_eq!(take_batch(&mut all, 3).len(), 3);
}

#[test]
fn vectors_go_to_the_chunks_at_their_position() {
    let batch = units(4);
    let texts = embedding_inputs(&batch);
    assert_eq!(texts, vec!["\ntext 0", "\ntext 1", "\ntext 2", "\ntext 3"]);
    let vectors: Vec<Vec<u32>> = texts
        .iter()
        .map(|t| vec![t.len() as u32 - 1, t.as_bytes()[6] as u32, 0x3f80_0000])
        .collect();
    let out = assign_embeddings(batch, &Some(vectors), 3).unwrap();
    assert_eq!(out.len(), 4);
    for (i, unit) in out.iter().enumerate() {
        assert_eq!(unit.path, format!("f{}.md", i));
        assert_eq!(unit.content, format!("text {}", i));
        assert_eq!(unit.embedding, Some(vec![6, b'0' as u32 + i as u32, 0x3f80_0000]));
    }
}

#[test]
fn a_chunk_is_embedded_with_its_metadata() {
    let mut chunk = unit("a.md", "The text.");
    chunk.insert_metadata("b".to_string(), "second".to_string());
    chunk.insert_metadata("a".to_string(), "old".to_string());
    chunk.insert_metadata("a".to_string(), "first".to_string());
    assert_eq!(embedding_inputs(&vec![chunk]), vec!["a: first\nb: second\nThe text."]);
    assert_eq!(embedding_inputs(&Vec::new()), Vec::<String>::new());
}

#[test]
fn a_batch_fails_as_a_whole() {
    let good = vec![vec![1, 2], vec![3, 4], vec![5, 6]];
    assert!(assign_embeddings(units(3), &Some(good.clone()), 2).is_ok());
    assert_eq!(assign_embeddings(units(3), &None, 2), Err(PipelineError::EmbeddingError));
    assert_eq!(
        assign_embeddings(units(3), &Some(good.clone()), 3),
        Err(PipelineError::EmbeddingError)
    );
    assert_eq!(assign_embeddings(units(2), &Some(good.clone()), 2), Err(PipelineError::EmbeddingError));
    assert_eq!(assign_embeddings(units(4), &Some(good), 2), Err(PipelineError::EmbeddingError));
    let ragged = vec![vec![1, 2], vec![3], vec![5, 6]];
    assert_eq!(assign_embeddings(units(3), &Some(ragged), 2), Err(PipelineError::EmbeddingError));
    assert_eq!(assign_embeddings(Vec::new(), &Some(Vec::new()), 2), Ok(Vec::new()));
}

#[test]
fn answers_of_the_embedding_call_are_checked() {
    assert!(check_vectors(&Some(vec![vec![0; 4], vec![1; 4]]), 2, 4));
    assert!(check_vectors(&Some(Vec::new()), 0, 4));
    assert!(!check_vectors(&None, 0, 4));
    assert!(!check_vectors(&Some(vec![vec![0; 4]]), 2, 4));
    assert!(!check_vectors(&Some(vec![vec![0; 4], vec![1; 5]]), 2, 4));
    assert!(!check_vectors(&Some(vec![vec![0; 3], vec![1; 4]]), 2, 4));
}

#[test]
fn a_vector_of_another_dimension_keeps_the_batch_from_the_store() {
    let namespace = Namespace::derive("/corpus", "0.18", "groq", 3);
    let mut batch = units(3);
    for unit in batch.iter_mut() {
        unit.embedding = Some(vec![1, 2, 3]);
    }
    assert_eq!(check_batch(&namespace, &batch), Ok(()));
    assert_eq!(check_dimension(3, &batch), Ok(()));
    batch[1].embedding = Some(vec![1, 2, 3, 4]);
    assert_eq!(check_batch(&namespace, &batch), Err(PipelineError::EmbeddingError));
    assert_eq!(check_dimension(4, &batch), Err(PipelineError::EmbeddingError));
    batch[1].embedding = None;
    assert_eq!(check_batch(&namespace, &batch), Err(PipelineError::EmbeddingError));
    assert_eq!(check_batch(&namespace, &Vec::new()), Ok(()));
}

#[test]
fn files_are_committed_when_none_of_their_chunks_waits() {
    let a = unit("a.md", "aaaa bbbb cccc");
    let b = unit("b.md", "dddd eeee");
    let a1 = a.chunk("aaaa".to_string(), 0, 4, 0);
    let a2 = a.chunk("bbbb".to_string(), 5, 9, 1);
    let a3 = a.chunk("cccc".to_string(), 10, 14, 2);
    let b1 = b.chunk("dddd".to_string(), 0, 4, 0);
    let b2 = b.chunk("eeee".to_string(), 5, 9, 1);
    let files = vec![a.duplicate(), b.duplicate(), a.duplicate()];
    assert_eq!(choose_files(&files, &vec![b.fingerprint]), vec![b.duplicate()]);
    assert_eq!(choose_files(&files, &vec![a.fingerprint]), vec![a.duplicate(), a.duplicate()]);
    assert_eq!(choose_files(&files, &vec![b.fingerprint, a.fingerprint]), files);
    assert_eq!(choose_files(&files, &Vec::new()), Vec::new());
    assert!(any_of_lineage(&vec![a1.duplicate(), b1.duplicate()], b.fingerprint));
    assert!(!any_of_lineage(&vec![a1.duplicate()], b.fingerprint));
    let written = vec![a1.duplicate(), a2.duplicate(), a3.duplicate(), b1.duplicate()];
    assert_eq!(
        completed_lineages(&written, &Vec::new(), &vec![b2.duplicate()]),
        vec![a.fingerprint]
    );
    assert_eq!(
        completed_lineages(&written, &vec![b2.duplicate()], &Vec::new()),
        vec![a.fingerprint]
    );
    assert_eq!(
        completed_lineages(&written, &Vec::new(), &Vec::new()),
        vec![a.fingerprint, b.fingerprint]
    );
    assert_eq!(
        completed_lineages(&vec![b1, a1], &vec![a2], &vec![b2]),
        Vec::<u128>::new()
    );
    assert_eq!(completed_lineages(&Vec::new(), &Vec::new(), &vec![a3]), Vec::<u128>::new());
}

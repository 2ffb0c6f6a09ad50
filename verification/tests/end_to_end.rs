use std::collections::BTreeMap;

use swiftide_ask::cache::CacheAnswer;
use swiftide_ask::chunker::ChunkRange;
use swiftide_ask::index::{IndexAction, IndexRun, IndexSettings, RunReport};
use swiftide_ask::loader::LoadedFile;
use swiftide_ask::namespace::Namespace;
use swiftide_ask::query::{QueryAction, QueryContext, QuerySettings, QueryState};
use swiftide_ask::retrieve::{score_rank, Hit};
use swiftide_ask::unit::{ContentClass, Unit};

const DIMENSION: usize = 16;

fn words(text: &str) -> Vec<String> {
    text.split(|c: char| !c.is_alphanumeric())
        .filter(|w| !w.is_empty())
        .map(|w| w.to_lowercase())
        .collect()
}

/// A bag of words, folded into a vector of `DIMENSION` components.
fn embed(text: &str) -> Vec<f32> {
    let mut vector = vec![0.0f32; DIMENSION];
    for word in words(text) {
        let slot = word.bytes().fold(7usize, |h, b| h.wrapping_mul(31).wrapping_add(b as usize));
        vector[slot % DIMENSION] += 1.0;
    }
    vector
}

fn cosine(a: &[f32], b: &[f32]) -> f32 {
    let dot: f32 = a.iter().zip(b).map(|(x, y)| x * y).sum();
    let na: f32 = a.iter().map(|x| x * x).sum::<f32>().sqrt();
    let nb: f32 = b.iter().map(|x| x * x).sum::<f32>().sqrt();
    if na == 0.0 || nb == 0.0 {
        0.0
    } else {
        dot / (na * nb)
    }
}

fn bits(vector: &[f32]) -> Vec<u32> {
    vector.iter().map(|x| x.to_bits()).collect()
}

fn numbers(bits: &[u32]) -> Vec<f32> {
    bits.iter().map(|b| f32::from_bits(*b)).collect()
}

struct Services {
    store: BTreeMap<u128, Unit>,
    cache: Vec<u128>,
}

fn index(settings: IndexSettings, files: &[(&str, &str)], services: &mut Services) -> RunReport {
    let namespace = Namespace::derive("/corpus", "0.18", "groq", DIMENSION);
    let mut run = IndexRun::new(settings, &namespace);
    let mut action = run.start();
    loop {
        action = match action {
            IndexAction::Load => run.loaded(Some(
                files
                    .iter()
                    .map(|(p, c)| LoadedFile { path: p.to_string(), content: Some(c.to_string()) })
                    .collect(),
            )),
            IndexAction::LookupCache(files) => run.cache_answered(
                &files
                    .iter()
                    .map(|f| {
                        if services.cache.contains(&f.fingerprint) {
                            CacheAnswer::Indexed
                        } else {
                            CacheAnswer::Absent
                        }
                    })
                    .collect(),
            ),
            IndexAction::Enrich(chunks) => run.enriched(
                &chunks.iter().map(|c| Some(format!("Q: What is in {}?", c.path))).collect(),
            ),
            IndexAction::Embed(texts) => {
                run.embedded(&Some(texts.iter().map(|t| bits(&embed(t))).collect()))
            }
            IndexAction::Upsert(chunks) => {
                for chunk in chunks {
                    services.store.insert(chunk.id, chunk);
                }
                run.stored(true)
            }
            IndexAction::Commit(files) => {
                services.cache.extend(files.iter().map(|f| f.fingerprint));
                run.committed()
            }
            IndexAction::Finish(report) => return report,
            IndexAction::Refused => panic!("refused"),
        };
    }
}

fn search(store: &BTreeMap<u128, Unit>, vector: &[u32], top_n: usize) -> Vec<Hit> {
    let query = numbers(vector);
    let mut hits: Vec<(f32, &Unit)> = store
        .values()
        .map(|u| (cosine(&query, &numbers(u.embedding.as_ref().unwrap())), u))
        .collect();
    hits.sort_by(|a, b| b.0.partial_cmp(&a.0).unwrap());
    hits.into_iter()
        .take(top_n)
        .map(|(score, u)| Hit {
            id: u.id,
            path: u.path.clone(),
            content: u.content.clone(),
            rank: score_rank(score.to_bits()),
        })
        .collect()
}

fn ask(question: &str, services: &Services) -> QueryContext {
    let settings = QuerySettings {
        subquestions: 2,
        top_n: 2,
        max_candidates: 3,
        context_budget: 2000,
        dimension: DIMENSION,
    };
    let mut query = QueryContext::new(settings, question.to_string());
    let mut action = query.start();
    loop {
        action = match action {
            QueryAction::Expand(prompt) => {
                assert!(prompt.contains(question));
                query.expanded(&Some("Which function adds two numbers?\n\nWhat is add?".to_string()))
            }
            QueryAction::Embed(questions) => {
                query.embedded(Some(questions.iter().map(|q| bits(&embed(q))).collect()))
            }
            QueryAction::Search(vectors, top_n) => query.retrieved(&Some(
                vectors.iter().map(|v| search(&services.store, v, top_n)).collect(),
            )),
            QueryAction::Compress(_) => query.compressed(&None),
            QueryAction::Answer(prompt) => {
                let context = prompt.split("Context:\n").nth(1).unwrap().to_string();
                query.answered(&Some(format!("From the context: {}", context)))
            }
            QueryAction::Done(_) | QueryAction::Fail(_) => return query,
            QueryAction::Refused => panic!("refused"),
        };
    }
}

const PROSE: &str = "This corpus holds one small program.\n";
const CODE: &str = "/// Adds two numbers.\nfn add(a: u32, b: u32) -> u32 {\n    a + b\n}\n";

#[test]
fn a_corpus_of_two_files_is_indexed_and_queried() {
    let files = [("a.md", PROSE), ("b.rs", CODE)];
    let mut services = Services { store: BTreeMap::new(), cache: Vec::new() };
    let prose = IndexSettings {
        class: ContentClass::Prose,
        chunk_range: ChunkRange { min: 10, max: 50 },
        embed_batch: 100,
        store_batch: 50,
        outline_min: None,
        concurrency: 4,
    };
    let report = index(prose, &files, &mut services);
    assert_eq!(report, RunReport { processed: 1, skipped: 0, errored: 0, failure: None });
    let report = index(IndexSettings::code(), &files, &mut services);
    assert_eq!(report.failure, None);
    assert_eq!(report.errored, 0);
    assert!(report.processed >= 1);

    let prose_chunks: Vec<&Unit> =
        services.store.values().filter(|u| u.class == ContentClass::Prose).collect();
    let code_chunks: Vec<&Unit> =
        services.store.values().filter(|u| u.class == ContentClass::Code).collect();
    assert_eq!(prose_chunks.len(), 1);
    assert_eq!(prose_chunks[0].path, "a.md");
    assert_eq!(prose_chunks[0].content, PROSE.trim_end());
    assert!(!code_chunks.is_empty());
    for unit in services.store.values() {
        assert!(!unit.metadata.is_empty());
        assert_eq!(unit.embedding.as_ref().map(|v| v.len()), Some(DIMENSION));
        assert_eq!(unit.error, None);
    }
    assert!(code_chunks.iter().all(|u| u.path == "b.rs"));

    let query = ask("What does b.rs do?", &services);
    assert_eq!(query.state, QueryState::Answered);
    assert_eq!(query.expansions, vec!["Which function adds two numbers?", "What is add?"]);
    assert_eq!(query.embeddings.len(), 3);
    assert!(query.candidates.iter().any(|h| h.path == "b.rs"));
    assert_eq!(query.candidates[0].path, "b.rs");
    assert!(!query.answer.is_empty());
    let context = query.answer.strip_prefix("From the context: ").unwrap();
    assert_eq!(context, query.context);
    for part in context.split("\n\n").filter(|p| !p.is_empty()) {
        let text = part.strip_prefix("Source: ").unwrap();
        let (path, content) = text.split_once('\n').unwrap();
        assert!(query.candidates.iter().any(|h| h.path == path && h.content.starts_with(content)));
    }

    let stored: Vec<u128> = services.store.keys().copied().collect();
    let again = index(prose, &files, &mut services);
    assert_eq!(again, RunReport { processed: 0, skipped: 1, errored: 0, failure: None });
    let again = index(IndexSettings::code(), &files, &mut services);
    assert_eq!(again, RunReport { processed: 0, skipped: 1, errored: 0, failure: None });
    assert_eq!(services.store.keys().copied().collect::<Vec<u128>>(), stored);
}

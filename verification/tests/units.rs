use swiftide_ask::config::Config;
use swiftide_ask::error::{ErrorScope, PipelineError};
use swiftide_ask::loader::{accepted_extension, ends_with_extension, load_units, LoadedFile};
use swiftide_ask::namespace::{append_decimal, dash_path, Namespace};
use swiftide_ask::outline::{attach_outline, outline_unit};
use swiftide_ask::text::chars_of;
use swiftide_ask::unit::{
    clone_bits, clone_entries, duplicate_all, fingerprint, mark_all, ContentClass, MetadataEntry,
    Unit,
};

fn entry(key: &str, value: &str) -> MetadataEntry {
    MetadataEntry { key: key.to_string(), value: value.to_string() }
}

#[test]
fn chars_of_lists_the_characters() {
    assert_eq!(chars_of("aß→c"), vec!['a', 'ß', '→', 'c']);
    assert_eq!(chars_of(""), Vec::<char>::new());
}

#[test]
fn identifier_is_the_uuid_of_path_and_content() {
    let unit = Unit::from_file("a.md".to_string(), "hello".to_string(), ContentClass::Prose);
    assert_eq!(unit.id, 0xa076f2d8d1c23e15a2a153ac43a77a84);
    assert_eq!(unit.fingerprint, 0x101d018cfac13e29949acdbc035e66ae);
    assert_eq!(unit.lineage, unit.fingerprint);
}

#[test]
fn fingerprint_depends_on_the_content_alone() {
    assert_eq!(fingerprint("hello"), 0x101d018cfac13e29949acdbc035e66ae);
    assert_eq!(fingerprint(""), 0x596b79dc00dd3991a72fd3696c38c64f);
    let a = Unit::from_file("a.md".to_string(), "same".to_string(), ContentClass::Prose);
    let b = Unit::from_file("b.md".to_string(), "same".to_string(), ContentClass::Prose);
    assert_eq!(a.fingerprint, b.fingerprint);
    assert_ne!(a.id, b.id);
    assert_ne!(fingerprint("same"), fingerprint("other"));
}

#[test]
fn a_file_is_one_unit_that_spans_it() {
    let unit = Unit::from_file("dir/ä.md".to_string(), "äbc".to_string(), ContentClass::Prose);
    assert_eq!(unit.path, "dir/ä.md");
    assert_eq!(unit.content, "äbc");
    assert_eq!(unit.class, ContentClass::Prose);
    assert_eq!((unit.start, unit.end, unit.position), (0, 3, 0));
    assert!(unit.metadata.is_empty());
    assert_eq!(unit.embedding, None);
    assert_eq!(unit.error, None);
}

#[test]
fn a_chunk_inherits_path_class_and_metadata() {
    let mut file = Unit::from_file("b.rs".to_string(), "fn a() {}".to_string(), ContentClass::Code);
    file.insert_metadata("Outline".to_string(), "fn a()".to_string());
    let chunk = file.chunk("a()".to_string(), 3, 6, 2);
    assert_eq!(chunk.path, "b.rs");
    assert_eq!(chunk.content, "a()");
    assert_eq!(chunk.class, ContentClass::Code);
    assert_eq!(chunk.lineage, file.fingerprint);
    assert_eq!(chunk.fingerprint, fingerprint("a()"));
    assert_eq!((chunk.start, chunk.end, chunk.position), (3, 6, 2));
    assert_eq!(chunk.metadata, vec![entry("Outline", "fn a()")]);
    let same = Unit::from_file("b.rs".to_string(), "a()".to_string(), ContentClass::Code);
    assert_eq!(chunk.id, same.id);
}

#[test]
fn metadata_and_copies() {
    let mut unit = Unit::from_file("a.md".to_string(), "text".to_string(), ContentClass::Prose);
    unit.insert_metadata("k".to_string(), "v1".to_string());
    unit.insert_metadata("k".to_string(), "v2".to_string());
    assert_eq!(unit.metadata, vec![entry("k", "v1"), entry("k", "v2")]);
    unit.embedding = Some(vec![1, 2, 3]);
    unit.error = Some(PipelineError::StoreError);
    let copy = unit.duplicate();
    assert_eq!(copy, unit);
    assert_eq!(duplicate_all(&vec![unit.duplicate(), copy]), vec![unit.duplicate(), unit.duplicate()]);
    assert_eq!(clone_entries(&unit.metadata), unit.metadata);
    assert_eq!(clone_bits(&vec![7, 8]), vec![7, 8]);
    let lost = mark_all(vec![unit.duplicate(), unit.duplicate()], PipelineError::ChunkError);
    assert_eq!(lost.len(), 2);
    assert!(lost.iter().all(|u| u.error == Some(PipelineError::ChunkError) && u.content == "text"));
}

#[test]
fn error_scopes() {
    assert_eq!(PipelineError::CacheError.scope(false), ErrorScope::FailOpen);
    assert_eq!(PipelineError::CacheError.scope(true), ErrorScope::FailOpen);
    assert_eq!(PipelineError::ChunkError.scope(false), ErrorScope::Unit);
    assert_eq!(PipelineError::EnrichmentError.scope(false), ErrorScope::Unit);
    assert_eq!(PipelineError::LoadError.scope(false), ErrorScope::Unit);
    assert_eq!(PipelineError::LoadError.scope(true), ErrorScope::Pipeline);
    assert_eq!(PipelineError::EmbeddingError.scope(false), ErrorScope::Batch);
    assert_eq!(PipelineError::StoreError.scope(false), ErrorScope::Batch);
    assert_eq!(PipelineError::GenerationError.scope(false), ErrorScope::Batch);
    assert!(PipelineError::StoreError.is_fatal(false));
    assert!(PipelineError::EmbeddingError.is_fatal(false));
    assert!(PipelineError::LoadError.is_fatal(true));
    assert!(!PipelineError::LoadError.is_fatal(false));
    assert!(!PipelineError::CacheError.is_fatal(true));
    assert!(!PipelineError::ChunkError.is_fatal(false));
    assert!(!PipelineError::EnrichmentError.is_fatal(false));
}

#[test]
fn config_keeps_what_the_variables_hold() {
    let config = Config::from_env(
        Some("http://localhost:6334".to_string()),
        None,
        Some("redis://localhost".to_string()),
    );
    assert_eq!(
        config,
        Config {
            qdrant_url: "http://localhost:6334".to_string(),
            qdrant_api_key: None,
            redis_url: Some("redis://localhost".to_string()),
        }
    );
    let no_cache = Config::from_env(Some("q".to_string()), Some("key".to_string()), None);
    assert_eq!(no_cache.qdrant_url, "q");
    assert_eq!(no_cache.qdrant_api_key, Some("key".to_string()));
    assert_eq!(no_cache.redis_url, None);
}

#[test]
fn namespace_name_holds_root_version_model_and_dimension() {
    let ns = Namespace::derive("/home/user/corpus", "0.18", "groq", 384);
    assert_eq!(ns.name, "swiftide-ask-v0.18--home-user-corpus-groq-384");
    assert_eq!(ns.dimension, 384);
    let other = Namespace::derive("/home/user/corpus", "0.18", "groq", 1536);
    assert_eq!(other.name, "swiftide-ask-v0.18--home-user-corpus-groq-1536");
    assert_ne!(ns.name, other.name);
    assert_eq!(Namespace::derive("", "", "", 0).name, "swiftide-ask-v---0");
    assert_eq!(Namespace::derive("/home/user/corpus", "0.18", "groq", 384), ns);
}

#[test]
fn paths_are_dashed_and_numbers_written_in_decimal() {
    assert_eq!(dash_path("/a/b c/d-e/"), "-a-b c-d-e-");
    assert_eq!(dash_path("ä/ö"), "ä-ö");
    assert_eq!(dash_path(""), "");
    let mut out = "n=".to_string();
    append_decimal(&mut out, 0);
    append_decimal(&mut out, 7);
    append_decimal(&mut out, 10);
    append_decimal(&mut out, 9050);
    assert_eq!(out, "n=07109050");
    let mut max = String::new();
    append_decimal(&mut max, usize::MAX);
    assert_eq!(max, usize::MAX.to_string());
}

#[test]
fn files_are_matched_by_extension() {
    assert_eq!(accepted_extension(ContentClass::Prose), "md");
    assert_eq!(accepted_extension(ContentClass::Code), "rs");
    assert!(ends_with_extension("README.md", "md"));
    assert!(ends_with_extension("a/b.c.md", "md"));
    assert!(ends_with_extension(".md", "md"));
    assert!(!ends_with_extension("md", "md"));
    assert!(!ends_with_extension("READMEmd", "md"));
    assert!(!ends_with_extension("README.MD", "md"));
    assert!(!ends_with_extension("README.md.bak", "md"));
    assert!(!ends_with_extension("", "md"));
    assert!(ends_with_extension("dir.", ""));
    assert!(!ends_with_extension("dir", ""));
}

#[test]
fn unreadable_files_are_counted_and_others_passed_over() {
    let files = vec![
        LoadedFile { path: "a.md".to_string(), content: Some("alpha".to_string()) },
        LoadedFile { path: "b.md".to_string(), content: None },
        LoadedFile { path: "c.rs".to_string(), content: Some("fn c() {}".to_string()) },
        LoadedFile { path: "d.rs".to_string(), content: None },
        LoadedFile { path: "e.md".to_string(), content: Some("".to_string()) },
    ];
    let out = load_units(files, ContentClass::Prose);
    assert_eq!(out.unreadable.len(), 1);
    assert_eq!(out.unreadable[0].path, "b.md");
    assert_eq!(out.unreadable[0].content, "");
    assert_eq!(out.unreadable[0].error, Some(PipelineError::LoadError));
    let paths: Vec<&str> = out.units.iter().map(|u| u.path.as_str()).collect();
    assert_eq!(paths, vec!["a.md", "e.md"]);
    assert_eq!(out.units[0], Unit::from_file("a.md".to_string(), "alpha".to_string(), ContentClass::Prose));
    assert_eq!(out.units[1].end, 0);
    let none = load_units(Vec::new(), ContentClass::Code);
    assert!(none.units.is_empty());
    assert!(none.unreadable.is_empty());
}

const CODE: &str = "use std::fmt;\n\n/// Adds.\nfn add(a: u32, b: u32) -> u32 {\n    a + b\n}\n\nfn main() {\n    println!(\"{}\", add(1, 2));\n}\n";

#[test]
fn the_outline_is_the_code_without_its_bodies() {
    let mut unit = Unit::from_file("b.rs".to_string(), CODE.to_string(), ContentClass::Code);
    outline_unit(&mut unit, 10);
    assert_eq!(
        unit.metadata,
        vec![entry("Outline", "use std::fmt;\n\n/// Adds.\nfn add(a: u32, b: u32) -> u32 \n\nfn main() ")]
    );
}

#[test]
fn small_files_prose_and_broken_code_get_no_outline() {
    let mut small = Unit::from_file("b.rs".to_string(), CODE.to_string(), ContentClass::Code);
    outline_unit(&mut small, CODE.chars().count() + 1);
    assert!(small.metadata.is_empty());
    let mut exact = Unit::from_file("b.rs".to_string(), CODE.to_string(), ContentClass::Code);
    outline_unit(&mut exact, CODE.chars().count());
    assert_eq!(exact.metadata.len(), 1);
    let mut prose = Unit::from_file("a.md".to_string(), CODE.to_string(), ContentClass::Prose);
    outline_unit(&mut prose, 0);
    assert!(prose.metadata.is_empty());
    let mut broken = Unit::from_file("b.rs".to_string(), "fn broken( {".to_string(), ContentClass::Code);
    outline_unit(&mut broken, 1);
    assert!(broken.metadata.is_empty());
    assert_eq!(broken.error, None);
}

#[test]
fn an_outline_that_was_made_is_attached() {
    let mut unit = Unit::from_file("b.rs".to_string(), "fn a() {}".to_string(), ContentClass::Code);
    attach_outline(&mut unit, 9, None);
    assert!(unit.metadata.is_empty());
    attach_outline(&mut unit, 10, Some("fn a()".to_string()));
    assert!(unit.metadata.is_empty());
    attach_outline(&mut unit, 9, Some("fn a()".to_string()));
    assert_eq!(unit.metadata, vec![entry("Outline", "fn a()")]);
    let mut prose = Unit::from_file("a.md".to_string(), "fn a() {}".to_string(), ContentClass::Prose);
    attach_outline(&mut prose, 0, Some("fn a()".to_string()));
    assert!(prose.metadata.is_empty());
}

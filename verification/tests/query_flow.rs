use swiftide_ask::error::PipelineError;
use swiftide_ask::prompt::{
    answer_prompt, expansion_prompt, parse_questions, render_context, summary_prompt, truncate,
};
use swiftide_ask::query::{clone_vectors, QueryAction, QueryContext, QuerySettings, QueryState};
use swiftide_ask::retrieve::{clone_hit, merge_hits, score_rank, take_in, Hit};

fn hit(id: u128, rank: u32) -> Hit {
    Hit { id, path: format!("{}.md", id), content: format!("text {}", id), rank }
}

fn ids(hits: &[Hit]) -> Vec<(u128, u32)> {
    hits.iter().map(|h| (h.id, h.rank)).collect()
}

fn settings() -> QuerySettings {
    QuerySettings { subquestions: 2, top_n: 3, max_candidates: 4, context_budget: 80, dimension: 2 }
}

#[test]
fn ranks_order_scores_as_numbers() {
    let scores = [-1.0f32, -0.5, -0.0, 0.0, 0.25, 0.5, 1.0, 2.5, f32::MAX, f32::INFINITY];
    for pair in scores.windows(2) {
        assert!(score_rank(pair[0].to_bits()) < score_rank(pair[1].to_bits()));
    }
    assert_eq!(score_rank(0), 0x8000_0000);
    assert_eq!(score_rank(1.0f32.to_bits()), 0xbf80_0000);
    assert_eq!(score_rank((-1.0f32).to_bits()), 0x407f_ffff);
    assert_eq!(score_rank(0xffff_ffff), 0);
    assert_eq!(score_rank(0x7fff_ffff), 0xffff_ffff);
}

#[test]
fn a_hit_is_taken_in_by_its_rank() {
    let mut list = Vec::new();
    take_in(&mut list, hit(1, 50));
    take_in(&mut list, hit(2, 70));
    take_in(&mut list, hit(3, 60));
    take_in(&mut list, hit(4, 60));
    assert_eq!(ids(&list), vec![(2, 70), (3, 60), (4, 60), (1, 50)]);
    take_in(&mut list, hit(1, 40));
    assert_eq!(ids(&list), vec![(2, 70), (3, 60), (4, 60), (1, 50)]);
    take_in(&mut list, hit(1, 50));
    assert_eq!(ids(&list), vec![(2, 70), (3, 60), (4, 60), (1, 50)]);
    take_in(&mut list, hit(1, 65));
    assert_eq!(ids(&list), vec![(2, 70), (1, 65), (3, 60), (4, 60)]);
    take_in(&mut list, hit(4, 90));
    assert_eq!(ids(&list), vec![(4, 90), (2, 70), (1, 65), (3, 60)]);
    take_in(&mut list, hit(5, 0));
    assert_eq!(ids(&list), vec![(4, 90), (2, 70), (1, 65), (3, 60), (5, 0)]);
}

#[test]
fn results_are_merged_without_duplicates_best_first() {
    let results = vec![
        vec![hit(1, 90), hit(2, 80), hit(3, 70)],
        vec![hit(2, 85), hit(4, 75), hit(1, 60)],
        vec![],
        vec![hit(5, 75), hit(3, 95)],
    ];
    assert_eq!(
        ids(&merge_hits(&results, 10)),
        vec![(3, 95), (1, 90), (2, 85), (4, 75), (5, 75)]
    );
    assert_eq!(ids(&merge_hits(&results, 5)).len(), 5);
    assert_eq!(ids(&merge_hits(&results, 3)), vec![(3, 95), (1, 90), (2, 85)]);
    assert_eq!(ids(&merge_hits(&results, 1)), vec![(3, 95)]);
    assert!(merge_hits(&results, 0).is_empty());
    assert!(merge_hits(&Vec::new(), 5).is_empty());
    let merged = merge_hits(&results, 10);
    assert_eq!(merged[0], hit(3, 95));
    assert_eq!(clone_hit(&merged[0]), merged[0]);
}

#[test]
fn the_payload_of_the_better_hit_is_kept() {
    let low = Hit { id: 7, path: "old.md".to_string(), content: "old".to_string(), rank: 1 };
    let high = Hit { id: 7, path: "new.md".to_string(), content: "new".to_string(), rank: 2 };
    let merged = merge_hits(&vec![vec![clone_hit(&low)], vec![clone_hit(&high)]], 5);
    assert_eq!(merged, vec![clone_hit(&high)]);
    let merged = merge_hits(&vec![vec![clone_hit(&high)], vec![clone_hit(&low)]], 5);
    assert_eq!(merged, vec![high]);
}

#[test]
fn questions_are_the_lines_that_are_not_blank() {
    let response = "What is a?\n\n  \t\r\n  What is b?\r\n3. What is c? \t\nWhat is d?";
    assert_eq!(
        parse_questions(response, 10),
        vec!["What is a?", "What is b?", "3. What is c?", "What is d?"]
    );
    assert_eq!(parse_questions(response, 2), vec!["What is a?", "What is b?"]);
    assert_eq!(parse_questions(" a b ", 1), vec!["a b"]);
    assert_eq!(parse_questions("x\n", 1), vec!["x"]);
    assert_eq!(parse_questions("\r x", 3), vec!["x"]);
    assert_eq!(parse_questions(response, 0), Vec::<String>::new());
    assert_eq!(parse_questions("", 5), Vec::<String>::new());
    assert_eq!(parse_questions("\n\n \n", 5), Vec::<String>::new());
    assert_eq!(parse_questions("one line", 5), vec!["one line"]);
    assert_eq!(parse_questions("ünï\ncödé\n", 5), vec!["ünï", "cödé"]);
}

#[test]
fn prompts_bind_question_and_context() {
    assert_eq!(
        expansion_prompt("Why?"),
        "Write related questions that help to answer the question below. Write one question per line and nothing else.\n\nQuestion: Why?\n"
    );
    assert_eq!(
        summary_prompt("Why?", "Source: a.md\ntext\n\n"),
        "Summarize the documents below so that the question can still be answered from the summary. Keep the line that names the source of each part.\n\nQuestion: Why?\n\nDocuments:\nSource: a.md\ntext\n\n"
    );
    assert_eq!(
        answer_prompt("Why?", "Because."),
        "Answer the question using only the context below. If the context does not hold the answer, say so.\n\nQuestion: Why?\n\nContext:\nBecause."
    );
}

#[test]
fn the_context_names_the_source_of_every_part() {
    let hits = vec![hit(1, 9), hit(2, 8)];
    assert_eq!(render_context(&hits), "Source: 1.md\ntext 1\n\nSource: 2.md\ntext 2\n\n");
    assert_eq!(render_context(&Vec::new()), "");
}

#[test]
fn a_text_is_cut_off_at_the_budget() {
    assert_eq!(truncate("abcdef", 4), "abcd");
    assert_eq!(truncate("abcdef", 6), "abcdef");
    assert_eq!(truncate("abcdef", 7), "abcdef");
    assert_eq!(truncate("abcdef", 0), "");
    assert_eq!(truncate("äöüß", 2), "äö");
    assert_eq!(truncate("", 3), "");
}

#[test]
fn standard_settings() {
    assert_eq!(
        QuerySettings::standard(384),
        QuerySettings {
            subquestions: 5,
            top_n: 10,
            max_candidates: 20,
            context_budget: 16000,
            dimension: 384
        }
    );
    assert_eq!(clone_vectors(&vec![vec![1, 2], vec![], vec![3]]), vec![vec![1, 2], vec![], vec![3]]);
}

#[test]
fn a_query_runs_from_question_to_answer() {
    let mut query = QueryContext::new(settings(), "What is a?".to_string());
    assert_eq!(query.state, QueryState::Received);
    assert_eq!(query.start(), QueryAction::Expand(expansion_prompt("What is a?")));
    let action = query.expanded(&Some("What is b?\nWhat is c?\nWhat is d?".to_string()));
    assert_eq!(
        action,
        QueryAction::Embed(vec![
            "What is a?".to_string(),
            "What is b?".to_string(),
            "What is c?".to_string()
        ])
    );
    assert_eq!(query.state, QueryState::Expanded);
    assert_eq!(query.expansions, vec!["What is b?", "What is c?"]);
    let vectors = vec![vec![1, 2], vec![3, 4], vec![5, 6]];
    let action = query.embedded(Some(vectors.clone()));
    assert_eq!(action, QueryAction::Search(vectors.clone(), 3));
    assert_eq!(query.state, QueryState::Embedded);
    assert_eq!(query.embeddings, vectors);
    let results = vec![vec![hit(1, 5), hit(2, 4)], vec![hit(2, 9)], vec![]];
    let action = query.retrieved(&Some(results));
    let context = "Source: 2.md\ntext 2\n\nSource: 1.md\ntext 1\n\n";
    assert_eq!(action, QueryAction::Answer(answer_prompt("What is a?", context)));
    assert_eq!(query.state, QueryState::Compressed);
    assert_eq!(ids(&query.candidates), vec![(2, 9), (1, 5)]);
    assert_eq!(query.context, context);
    let action = query.answered(&Some("It is a.".to_string()));
    assert_eq!(action, QueryAction::Done("It is a.".to_string()));
    assert_eq!(query.state, QueryState::Answered);
    assert_eq!(query.answer, "It is a.");
}

#[test]
fn a_failed_expansion_leaves_the_question_alone() {
    let mut query = QueryContext::new(settings(), "What is a?".to_string());
    let action = query.expanded(&None);
    assert_eq!(action, QueryAction::Embed(vec!["What is a?".to_string()]));
    assert_eq!(query.state, QueryState::Expanded);
    assert!(query.expansions.is_empty());
    assert_eq!(query.embedded(Some(vec![vec![1, 2]])), QueryAction::Search(vec![vec![1, 2]], 3));
}

#[test]
fn a_long_context_is_summarized_or_cut_off() {
    let results = vec![vec![hit(1, 5), hit(2, 4), hit(3, 3), hit(4, 2), hit(5, 1)]];
    let long = "Source: 1.md\ntext 1\n\nSource: 2.md\ntext 2\n\nSource: 3.md\ntext 3\n\nSource: 4.md\ntext 4\n\n";
    assert_eq!(long.chars().count(), 84);

    let mut query = QueryContext::new(settings(), "Q".to_string());
    query.expanded(&None);
    query.embedded(Some(vec![vec![0, 0]]));
    let action = query.retrieved(&Some(results));
    assert_eq!(action, QueryAction::Compress(summary_prompt("Q", long)));
    assert_eq!(query.state, QueryState::Retrieved);
    assert_eq!(query.candidates.len(), 4);
    let action = query.compressed(&Some("Source: 1.md\nshort".to_string()));
    assert_eq!(action, QueryAction::Answer(answer_prompt("Q", "Source: 1.md\nshort")));
    assert_eq!(query.state, QueryState::Compressed);
    assert_eq!(query.context, "Source: 1.md\nshort");

    let results = vec![vec![hit(1, 5), hit(2, 4), hit(3, 3), hit(4, 2), hit(5, 1)]];
    let mut query = QueryContext::new(settings(), "Q".to_string());
    query.expanded(&None);
    query.embedded(Some(vec![vec![0, 0]]));
    query.retrieved(&Some(results));
    let action = query.compressed(&None);
    let cut: String = long.chars().take(80).collect();
    assert_eq!(action, QueryAction::Answer(answer_prompt("Q", &cut)));
    assert_eq!(query.context, cut);

    let results = vec![vec![hit(1, 5), hit(2, 4), hit(3, 3), hit(4, 2), hit(5, 1)]];
    let mut query = QueryContext::new(settings(), "Q".to_string());
    query.expanded(&None);
    query.embedded(Some(vec![vec![0, 0]]));
    query.retrieved(&Some(results));
    let summary = "s".repeat(100);
    query.compressed(&Some(summary));
    assert_eq!(query.context, "s".repeat(80));
}

#[test]
fn a_context_within_the_budget_is_not_summarized() {
    let mut query = QueryContext::new(
        QuerySettings { context_budget: 84, ..settings() },
        "Q".to_string(),
    );
    query.expanded(&None);
    query.embedded(Some(vec![vec![0, 0]]));
    let results = vec![vec![hit(1, 5), hit(2, 4), hit(3, 3), hit(4, 2)]];
    assert!(matches!(query.retrieved(&Some(results)), QueryAction::Answer(_)));
    let mut query = QueryContext::new(settings(), "Q".to_string());
    query.expanded(&None);
    query.embedded(Some(vec![vec![0, 0]]));
    assert_eq!(query.retrieved(&Some(vec![vec![]])), QueryAction::Answer(answer_prompt("Q", "")));
}

#[test]
fn queries_fail_with_the_error_of_the_call() {
    let mut query = QueryContext::new(settings(), "Q".to_string());
    query.expanded(&Some("A\nB".to_string()));
    assert_eq!(query.embedded(None), QueryAction::Fail(PipelineError::EmbeddingError));
    assert_eq!(query.state, QueryState::Failed(PipelineError::EmbeddingError));

    let mut query = QueryContext::new(settings(), "Q".to_string());
    query.expanded(&Some("A\nB".to_string()));
    let two = Some(vec![vec![1, 2], vec![3, 4]]);
    assert_eq!(query.embedded(two), QueryAction::Fail(PipelineError::EmbeddingError));

    let mut query = QueryContext::new(settings(), "Q".to_string());
    query.expanded(&None);
    let wide = Some(vec![vec![1, 2, 3]]);
    assert_eq!(query.embedded(wide), QueryAction::Fail(PipelineError::EmbeddingError));

    let mut query = QueryContext::new(settings(), "Q".to_string());
    query.expanded(&None);
    query.embedded(Some(vec![vec![1, 2]]));
    assert_eq!(query.retrieved(&None), QueryAction::Fail(PipelineError::StoreError));
    assert_eq!(query.state, QueryState::Failed(PipelineError::StoreError));

    let mut query = QueryContext::new(settings(), "Q".to_string());
    query.expanded(&None);
    query.embedded(Some(vec![vec![1, 2]]));
    query.retrieved(&Some(Vec::new()));
    assert_eq!(query.answered(&None), QueryAction::Fail(PipelineError::GenerationError));
    assert_eq!(query.state, QueryState::Failed(PipelineError::GenerationError));
    assert_eq!(query.answer, "");
}

#[test]
fn outcomes_out_of_turn_leave_the_query_as_it_is() {
    let mut query = QueryContext::new(settings(), "Q".to_string());
    assert_eq!(query.embedded(Some(vec![vec![1, 2]])), QueryAction::Refused);
    assert_eq!(query.retrieved(&Some(Vec::new())), QueryAction::Refused);
    assert_eq!(query.compressed(&None), QueryAction::Refused);
    assert_eq!(query.answered(&Some("A".to_string())), QueryAction::Refused);
    assert_eq!(query.state, QueryState::Received);
    query.expanded(&None);
    assert_eq!(query.start(), QueryAction::Refused);
    assert_eq!(query.expanded(&None), QueryAction::Refused);
    query.embedded(Some(vec![vec![1, 2]]));
    query.retrieved(&Some(Vec::new()));
    assert_eq!(query.compressed(&Some("s".to_string())), QueryAction::Refused);
    query.answered(&Some("A".to_string()));
    assert_eq!(query.answered(&Some("B".to_string())), QueryAction::Refused);
    assert_eq!(query.expanded(&None), QueryAction::Refused);
    assert_eq!(query.answer, "A");
    assert_eq!(query.state, QueryState::Answered);
}

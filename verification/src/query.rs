//! Answering one question from what the namespace holds.
//!
//! A query moves through the states `Received`, `Expanded`, `Embedded`,
//! `Retrieved`, `Compressed` and `Answered`, or ends early in `Failed`. Each
//! step takes the outcome of the call that the query was waiting for and
//! answers with the call to make next. There is no retry in the engine: a
//! call that keeps failing after the retries of its own policy is a failure.
use crate::batch::{answers_all, bits_of, check_vectors, option_bits};
use crate::error::PipelineError;
use crate::prompt::{
    answer_prompt, answer_prompt_of, context_of, expansion_prompt, expansion_prompt_of,
    law_questions_within_limit, parse_questions, questions_of, render_context, summary_prompt,
    summary_prompt_of, truncate, truncated,
};
use crate::retrieve::{
    hit_views, law_candidates_are_tidy, merge_hits, merged, result_views, tidy, Hit, HitView,
};
use crate::text::{option_text, texts_of};
use crate::unit::clone_bits;
use vstd::prelude::*;

verus! {

/// How a question is answered.
#[derive(Clone, Copy, Debug, PartialEq, Eq, Structural)]
pub struct QuerySettings {
    /// How many related questions are taken from the model at most.
    pub subquestions: usize,
    /// How many chunks each search returns at most.
    pub top_n: usize,
    /// How many candidates are kept after the results were merged.
    pub max_candidates: usize,
    /// How many characters the context of the answer may have.
    pub context_budget: usize,
    /// The dimension of the namespace that is searched.
    pub dimension: usize,
}

impl QuerySettings {
    /// Five related questions, ten chunks per search, twenty candidates and
    /// a context of sixteen thousand characters, in a namespace of the
    /// given dimension.
    pub fn standard(dimension: usize) -> (settings: QuerySettings)
        ensures
            settings == (QuerySettings {
                subquestions: 5,
                top_n: 10,
                max_candidates: 20,
                context_budget: 16000,
                dimension,
            }),
    {
        QuerySettings {
            subquestions: 5,
            top_n: 10,
            max_candidates: 20,
            context_budget: 16000,
            dimension,
        }
    }
}

/// How far a query has come.
#[derive(Clone, Copy, Debug, PartialEq, Eq, Structural)]
pub enum QueryState {
    /// The question is known; the related questions are awaited.
    Received,
    /// The questions are known; their vectors are awaited.
    Expanded,
    /// The vectors are known; the results of the searches are awaited.
    Embedded,
    /// The candidates are known and exceed the budget; their summary is awaited.
    Retrieved,
    /// The context is known; the answer is awaited.
    Compressed,
    /// The answer is known.
    Answered,
    /// The query has ended with this error.
    Failed(PipelineError),
}

/// The state of one query.
#[derive(Debug, PartialEq, Eq)]
pub struct QueryContext {
    pub settings: QuerySettings,
    pub state: QueryState,
    pub question: String,
    /// The related questions that the model proposed.
    pub expansions: Vec<String>,
    /// The vectors of the question and of the related questions, in this order.
    pub embeddings: Vec<Vec<u32>>,
    /// The merged results of the searches, best first.
    pub candidates: Vec<Hit>,
    /// The context that the answer is to be taken from.
    pub context: String,
    pub answer: String,
}

/// The state of a query as mathematical values.
pub struct QueryContextView {
    pub settings: QuerySettings,
    pub state: QueryState,
    pub question: Seq<char>,
    pub expansions: Seq<Seq<char>>,
    pub embeddings: Seq<Seq<u32>>,
    pub candidates: Seq<HitView>,
    pub context: Seq<char>,
    pub answer: Seq<char>,
}

impl View for QueryContext {
    type V = QueryContextView;

    open spec fn view(&self) -> QueryContextView {
        QueryContextView {
            settings: self.settings,
            state: self.state,
            question: self.question@,
            expansions: texts_of(self.expansions@),
            embeddings: bits_of(self.embeddings@),
            candidates: hit_views(self.candidates@),
            context: self.context@,
            answer: self.answer@,
        }
    }
}

/// The call that the caller is asked to make next.
#[derive(Debug, PartialEq, Eq)]
pub enum QueryAction {
    /// Ask the model for related questions with this prompt.
    Expand(String),
    /// Embed these questions in one call.
    Embed(Vec<String>),
    /// Search the namespace once for each of these vectors, for so many chunks each.
    Search(Vec<Vec<u32>>, usize),
    /// Ask the model to summarize the context with this prompt.
    Compress(String),
    /// Ask the model for the answer with this prompt.
    Answer(String),
    /// Nothing: this is the answer.
    Done(String),
    /// Nothing: the query has failed with this error.
    Fail(PipelineError),
    /// Nothing: the query was not waiting for this outcome and has not moved.
    Refused,
}

/// An action with its payload as mathematical values.
pub enum QueryActionView {
    Expand(Seq<char>),
    Embed(Seq<Seq<char>>),
    Search(Seq<Seq<u32>>, usize),
    Compress(Seq<char>),
    Answer(Seq<char>),
    Done(Seq<char>),
    Fail(PipelineError),
    Refused,
}

impl View for QueryAction {
    type V = QueryActionView;

    open spec fn view(&self) -> QueryActionView {
        match self {
            QueryAction::Expand(prompt) => QueryActionView::Expand(prompt@),
            QueryAction::Embed(questions) => QueryActionView::Embed(texts_of(questions@)),
            QueryAction::Search(vectors, top_n) => QueryActionView::Search(
                bits_of(vectors@),
                *top_n,
            ),
            QueryAction::Compress(prompt) => QueryActionView::Compress(prompt@),
            QueryAction::Answer(prompt) => QueryActionView::Answer(prompt@),
            QueryAction::Done(answer) => QueryActionView::Done(answer@),
            QueryAction::Fail(error) => QueryActionView::Fail(*error),
            QueryAction::Refused => QueryActionView::Refused,
        }
    }
}

impl QueryContextView {
    /// A query that has just been received.
    pub open spec fn received(settings: QuerySettings, question: Seq<char>) -> QueryContextView {
        QueryContextView {
            settings,
            state: QueryState::Received,
            question,
            expansions: Seq::empty(),
            embeddings: Seq::empty(),
            candidates: Seq::empty(),
            context: Seq::empty(),
            answer: Seq::empty(),
        }
    }

    /// The query refuses an outcome it was not waiting for.
    pub open spec fn refuse(self) -> (QueryContextView, QueryActionView) {
        (self, QueryActionView::Refused)
    }

    /// The query ends with an error.
    pub open spec fn fail(self, error: PipelineError) -> (QueryContextView, QueryActionView) {
        (QueryContextView { state: QueryState::Failed(error), ..self }, QueryActionView::Fail(error))
    }

    /// The first call of a query: the request for related questions.
    pub open spec fn start(self) -> QueryActionView {
        if self.state == QueryState::Received {
            QueryActionView::Expand(expansion_prompt_of(self.question))
        } else {
            QueryActionView::Refused
        }
    }

    /// The model has proposed related questions, or the call failed
    /// (`None`). A failure is not fatal: the query goes on with the
    /// question alone.
    pub open spec fn expanded(self, response: Option<Seq<char>>) -> (
        QueryContextView,
        QueryActionView,
    ) {
        if self.state != QueryState::Received {
            self.refuse()
        } else {
            let expansions = match response {
                Some(text) => questions_of(text, self.settings.subquestions),
                None => Seq::empty(),
            };
            (
                QueryContextView { state: QueryState::Expanded, expansions, ..self },
                QueryActionView::Embed(seq![self.question] + expansions),
            )
        }
    }

    /// The questions were embedded, or the call failed (`None`). Unless
    /// there is one vector of the dimension of the namespace for every
    /// question, the query fails with an embedding error.
    pub open spec fn embedded(self, vectors: Option<Seq<Seq<u32>>>) -> (
        QueryContextView,
        QueryActionView,
    ) {
        if self.state != QueryState::Expanded {
            self.refuse()
        } else if answers_all(vectors, self.expansions.len() + 1, self.settings.dimension) {
            (
                QueryContextView { state: QueryState::Embedded, embeddings: vectors->0, ..self },
                QueryActionView::Search(vectors->0, self.settings.top_n),
            )
        } else {
            self.fail(PipelineError::EmbeddingError)
        }
    }

    /// The searches have returned, or the store failed (`None`), which fails
    /// the query with a store error. The results are merged into the
    /// candidates. A context within the budget goes to the model as it is;
    /// a longer one is first handed out to be summarized.
    pub open spec fn retrieved(self, results: Option<Seq<Seq<HitView>>>) -> (
        QueryContextView,
        QueryActionView,
    ) {
        if self.state != QueryState::Embedded {
            self.refuse()
        } else {
            match results {
                None => self.fail(PipelineError::StoreError),
                Some(lists) => {
                    let candidates = merged(lists, self.settings.max_candidates);
                    let context = context_of(candidates, candidates.len());
                    if context.len() <= self.settings.context_budget {
                        (
                            QueryContextView {
                                state: QueryState::Compressed,
                                candidates,
                                context,
                                ..self
                            },
                            QueryActionView::Answer(answer_prompt_of(self.question, context)),
                        )
                    } else {
                        (
                            QueryContextView {
                                state: QueryState::Retrieved,
                                candidates,
                                context,
                                ..self
                            },
                            QueryActionView::Compress(summary_prompt_of(self.question, context)),
                        )
                    }
                },
            }
        }
    }

    /// The context was summarized, or the call failed (`None`). The summary,
    /// or without one the context itself, is cut off at the budget and
    /// becomes the context of the answer.
    pub open spec fn compressed(self, summary: Option<Seq<char>>) -> (
        QueryContextView,
        QueryActionView,
    ) {
        if self.state != QueryState::Retrieved {
            self.refuse()
        } else {
            let context = truncated(
                match summary {
                    Some(text) => text,
                    None => self.context,
                },
                self.settings.context_budget,
            );
            (
                QueryContextView { state: QueryState::Compressed, context, ..self },
                QueryActionView::Answer(answer_prompt_of(self.question, context)),
            )
        }
    }

    /// The model has answered, or the call failed (`None`), which fails the
    /// query with a generation error.
    pub open spec fn answered(self, answer: Option<Seq<char>>) -> (
        QueryContextView,
        QueryActionView,
    ) {
        if self.state != QueryState::Compressed {
            self.refuse()
        } else {
            match answer {
                Some(text) => (
                    QueryContextView { state: QueryState::Answered, answer: text, ..self },
                    QueryActionView::Done(text),
                ),
                None => self.fail(PipelineError::GenerationError),
            }
        }
    }
}

/// The views of an optional list of result lists.
pub open spec fn option_results(results: Option<Vec<Vec<Hit>>>) -> Option<Seq<Seq<HitView>>> {
    match results {
        Some(lists) => Some(result_views(lists@)),
        None => None,
    }
}

/// A copy of a list of vectors.
pub fn clone_vectors(vectors: &Vec<Vec<u32>>) -> (copy: Vec<Vec<u32>>)
    ensures
        bits_of(copy@) == bits_of(vectors@),
{
    let mut copy: Vec<Vec<u32>> = Vec::new();
    let mut i: usize = 0;
    while i < vectors.len()
        invariant
            i <= vectors.len(),
            bits_of(copy@) == bits_of(vectors@).take(i as int),
        decreases vectors.len() - i,
    {
        let ghost before = bits_of(copy@);
        let one = clone_bits(&vectors[i]);
        copy.push(one);
        assert(bits_of(copy@) =~= before.push(one@));
        assert(bits_of(vectors@).take(i + 1) =~= bits_of(vectors@).take(i as int).push(one@));
        i += 1;
    }
    assert(bits_of(vectors@).take(vectors.len() as int) =~= bits_of(vectors@));
    copy
}

impl QueryContext {
    /// The context of a question that has just been received.
    pub fn new(settings: QuerySettings, question: String) -> (context: QueryContext)
        ensures
            context@ == QueryContextView::received(settings, question@),
    {
        let context = QueryContext {
            settings,
            state: QueryState::Received,
            question,
            expansions: Vec::new(),
            embeddings: Vec::new(),
            candidates: Vec::new(),
            context: String::new(),
            answer: String::new(),
        };
        assert(texts_of(context.expansions@) =~= Seq::empty());
        assert(bits_of(context.embeddings@) =~= Seq::empty());
        assert(hit_views(context.candidates@) =~= Seq::empty());
        context
    }

    fn fail(&mut self, error: PipelineError) -> (action: QueryAction)
        ensures
            (final(self)@, action@) == old(self)@.fail(error),
    {
        self.state = QueryState::Failed(error);
        QueryAction::Fail(error)
    }

    /// Starts the query. The answer is the request for related questions.
    pub fn start(&self) -> (action: QueryAction)
        ensures
            action@ == self@.start(),
    {
        if matches!(self.state, QueryState::Received) {
            QueryAction::Expand(expansion_prompt(self.question.as_str()))
        } else {
            QueryAction::Refused
        }
    }

    /// Takes the response of the model to the request for related
    /// questions, or `None` if the call failed.
    pub fn expanded(&mut self, response: &Option<String>) -> (action: QueryAction)
        ensures
            (final(self)@, action@) == old(self)@.expanded(option_text(*response)),
    {
        if !matches!(self.state, QueryState::Received) {
            return QueryAction::Refused;
        }
        let expansions = match response {
            Some(text) => parse_questions(text.as_str(), self.settings.subquestions),
            None => Vec::new(),
        };
        assert(response.is_none() ==> texts_of(expansions@) =~= Seq::<Seq<char>>::empty());
        let mut questions: Vec<String> = Vec::new();
        questions.push(self.question.clone());
        let mut i: usize = 0;
        while i < expansions.len()
            invariant
                i <= expansions.len(),
                texts_of(questions@) == seq![self.question@] + texts_of(expansions@).take(i as int),
            decreases expansions.len() - i,
        {
            let ghost before = texts_of(questions@);
            questions.push(expansions[i].clone());
            assert(texts_of(questions@) =~= before.push(expansions@[i as int]@));
            assert(seq![self.question@] + texts_of(expansions@).take(i + 1) =~= (seq![
                self.question@,
            ] + texts_of(expansions@).take(i as int)).push(expansions@[i as int]@));
            i += 1;
        }
        assert(texts_of(expansions@).take(expansions.len() as int) =~= texts_of(expansions@));
        self.expansions = expansions;
        self.state = QueryState::Expanded;
        QueryAction::Embed(questions)
    }

    /// Takes the vectors of the questions, or `None` if the embedding call
    /// failed; `vectors[i]` belongs to the question at index `i` of the request.
    pub fn embedded(&mut self, vectors: Option<Vec<Vec<u32>>>) -> (action: QueryAction)
        ensures
            (final(self)@, action@) == old(self)@.embedded(option_bits(vectors)),
    {
        if !matches!(self.state, QueryState::Expanded) {
            return QueryAction::Refused;
        }
        let wanted = self.expansions.len();
        if wanted == usize::MAX || !check_vectors(&vectors, wanted + 1, self.settings.dimension) {
            proof {
                if wanted == usize::MAX && vectors.is_some() {
                    assert(vectors->0.len() <= usize::MAX);
                    assert(bits_of(vectors->0@).len() == vectors->0.len());
                }
            }
            return self.fail(PipelineError::EmbeddingError);
        }
        match vectors {
            Some(list) => {
                let copy = clone_vectors(&list);
                self.embeddings = list;
                self.state = QueryState::Embedded;
                QueryAction::Search(copy, self.settings.top_n)
            },
            None => self.fail(PipelineError::EmbeddingError),
        }
    }

    /// Takes the results of the searches, or `None` if the store failed;
    /// `results[i]` belongs to the vector at index `i` of the request.
    pub fn retrieved(&mut self, results: &Option<Vec<Vec<Hit>>>) -> (action: QueryAction)
        ensures
            (final(self)@, action@) == old(self)@.retrieved(option_results(*results)),
    {
        if !matches!(self.state, QueryState::Embedded) {
            return QueryAction::Refused;
        }
        match results {
            None => self.fail(PipelineError::StoreError),
            Some(lists) => {
                let candidates = merge_hits(lists, self.settings.max_candidates);
                let context = render_context(&candidates);
                let fits = context.as_str().unicode_len() <= self.settings.context_budget;
                let prompt = if fits {
                    answer_prompt(self.question.as_str(), context.as_str())
                } else {
                    summary_prompt(self.question.as_str(), context.as_str())
                };
                self.candidates = candidates;
                self.context = context;
                if fits {
                    self.state = QueryState::Compressed;
                    QueryAction::Answer(prompt)
                } else {
                    self.state = QueryState::Retrieved;
                    QueryAction::Compress(prompt)
                }
            },
        }
    }

    /// Takes the summary of the context, or `None` if the call failed.
    pub fn compressed(&mut self, summary: &Option<String>) -> (action: QueryAction)
        ensures
            (final(self)@, action@) == old(self)@.compressed(option_text(*summary)),
    {
        if !matches!(self.state, QueryState::Retrieved) {
            return QueryAction::Refused;
        }
        let context = match summary {
            Some(text) => truncate(text.as_str(), self.settings.context_budget),
            None => truncate(self.context.as_str(), self.settings.context_budget),
        };
        let prompt = answer_prompt(self.question.as_str(), context.as_str());
        self.context = context;
        self.state = QueryState::Compressed;
        QueryAction::Answer(prompt)
    }

    /// Takes the answer of the model, or `None` if the call failed.
    pub fn answered(&mut self, answer: &Option<String>) -> (action: QueryAction)
        ensures
            (final(self)@, action@) == old(self)@.answered(option_text(*answer)),
    {
        if !matches!(self.state, QueryState::Compressed) {
            return QueryAction::Refused;
        }
        match answer {
            Some(text) => {
                self.answer = text.clone();
                self.state = QueryState::Answered;
                QueryAction::Done(text.clone())
            },
            None => self.fail(PipelineError::GenerationError),
        }
    }
}

impl QueryContextView {
    /// What holds of a query in every state. There are no more related
    /// questions than the settings allow. From `Embedded` on there is one
    /// vector of the dimension of the namespace for the question and for
    /// each related question. From `Retrieved` on the candidates are at
    /// most as many as the settings allow, ordered from the best down, and
    /// without duplicates. In `Retrieved` the context exceeds the budget;
    /// from `Compressed` on it is within it.
    pub open spec fn well_formed(self) -> bool {
        match self.state {
            QueryState::Received => self.expansions.len() == 0,
            QueryState::Expanded => self.expansions.len() <= self.settings.subquestions,
            QueryState::Embedded => {
                &&& self.expansions.len() <= self.settings.subquestions
                &&& answers_all(
                    Some(self.embeddings),
                    self.expansions.len() + 1,
                    self.settings.dimension,
                )
            },
            QueryState::Retrieved => {
                &&& self.expansions.len() <= self.settings.subquestions
                &&& answers_all(
                    Some(self.embeddings),
                    self.expansions.len() + 1,
                    self.settings.dimension,
                )
                &&& self.candidates.len() <= self.settings.max_candidates
                &&& tidy(self.candidates)
                &&& self.context.len() > self.settings.context_budget
            },
            QueryState::Compressed | QueryState::Answered => {
                &&& self.expansions.len() <= self.settings.subquestions
                &&& answers_all(
                    Some(self.embeddings),
                    self.expansions.len() + 1,
                    self.settings.dimension,
                )
                &&& self.candidates.len() <= self.settings.max_candidates
                &&& tidy(self.candidates)
                &&& self.context.len() <= self.settings.context_budget
            },
            QueryState::Failed(_) => true,
        }
    }
}

/// A query is well-formed when it is received, and every step takes a
/// well-formed query to a well-formed query, whatever the outcome that it
/// is given.
pub proof fn law_steps_keep_queries_well_formed(
    query: QueryContextView,
    response: Option<Seq<char>>,
    vectors: Option<Seq<Seq<u32>>>,
    results: Option<Seq<Seq<HitView>>>,
    summary: Option<Seq<char>>,
    answer: Option<Seq<char>>,
)
    requires
        query.well_formed(),
    ensures
        QueryContextView::received(query.settings, query.question).well_formed(),
        query.expanded(response).0.well_formed(),
        query.embedded(vectors).0.well_formed(),
        query.retrieved(results).0.well_formed(),
        query.compressed(summary).0.well_formed(),
        query.answered(answer).0.well_formed(),
{
    if response.is_some() {
        law_questions_within_limit(response->0, 0, query.settings.subquestions as nat);
    }
    if results.is_some() {
        law_candidates_are_tidy(results->0, query.settings.max_candidates);
    }
}

/// A failed expansion is not fatal: the query goes on, and what is embedded
/// and searched for is the question alone.
pub proof fn law_expansion_failure_degrades(query: QueryContextView)
    requires
        query.state == QueryState::Received,
    ensures
        query.expanded(None).0.state == QueryState::Expanded,
        query.expanded(None).1 == QueryActionView::Embed(seq![query.question]),
{
    assert(seq![query.question] + Seq::<Seq<char>>::empty() =~= seq![query.question]);
}

/// The context that an answer is asked from is within the budget, whether
/// it was summarized, cut off or short enough from the start.
pub proof fn law_context_within_budget(
    query: QueryContextView,
    results: Option<Seq<Seq<HitView>>>,
    summary: Option<Seq<char>>,
)
    ensures
        query.retrieved(results).0.state == QueryState::Compressed && query.state
            == QueryState::Embedded ==> query.retrieved(results).0.context.len()
            <= query.settings.context_budget,
        query.state == QueryState::Retrieved ==> query.compressed(summary).0.context.len()
            <= query.settings.context_budget,
{
}

/// A query that has ended stays as it is: in the states `Answered` and
/// `Failed` every outcome is refused.
pub proof fn law_terminal_states_absorb(query: QueryContextView)
    requires
        query.state == QueryState::Answered || query.state is Failed,
    ensures
        query.start() == QueryActionView::Refused,
        forall|r: Option<Seq<char>>| #[trigger] query.expanded(r) == query.refuse(),
        forall|v: Option<Seq<Seq<u32>>>| #[trigger] query.embedded(v) == query.refuse(),
        forall|r: Option<Seq<Seq<HitView>>>| #[trigger] query.retrieved(r) == query.refuse(),
        forall|s: Option<Seq<char>>| #[trigger] query.compressed(s) == query.refuse(),
        forall|a: Option<Seq<char>>| #[trigger] query.answered(a) == query.refuse(),
{
}

/// A query fails only with an error that is fatal: whatever step it takes,
/// it comes to the state `Failed` with an embedding error, a store error or
/// a generation error, or it was there before.
pub proof fn law_only_fatal_errors_end_queries(
    query: QueryContextView,
    response: Option<Seq<char>>,
    vectors: Option<Seq<Seq<u32>>>,
    results: Option<Seq<Seq<HitView>>>,
    summary: Option<Seq<char>>,
    answer: Option<Seq<char>>,
    error: PipelineError,
)
    ensures
        query.expanded(response).0.state == QueryState::Failed(error) ==> query.state
            == QueryState::Failed(error),
        query.compressed(summary).0.state == QueryState::Failed(error) ==> query.state
            == QueryState::Failed(error),
        query.embedded(vectors).0.state == QueryState::Failed(error) ==> query.state
            == QueryState::Failed(error) || (error == PipelineError::EmbeddingError
            && error.is_fatal(false)),
        query.retrieved(results).0.state == QueryState::Failed(error) ==> query.state
            == QueryState::Failed(error) || (error == PipelineError::StoreError && error.is_fatal(
            false,
        )),
        query.answered(answer).0.state == QueryState::Failed(error) ==> query.state
            == QueryState::Failed(error) || (error == PipelineError::GenerationError
            && error.is_fatal(false)),
{
}

} // verus!

//! Attaching generated retrieval metadata to chunks.
//!
//! For every chunk a text generation call is asked for questions and answers
//! about it. A chunk whose call succeeds goes on with the text in its
//! metadata. A chunk whose call fails, after the retries of the policy, is
//! marked with an enrichment error and leaves the stream; the others are not
//! affected.
use crate::error::PipelineError;
use crate::text::option_text_list;
use crate::unit::{unit_views, with_error, ContentClass, Unit, UnitView};
use vstd::arithmetic::power2::{lemma2_to64, lemma_pow2_unfold, pow2};
use vstd::prelude::*;
use vstd::string::StringExecFns;

verus! {

/// The metadata key under which the generated text of a chunk is kept.
pub open spec fn enrichment_key(class: ContentClass) -> Seq<char> {
    match class {
        ContentClass::Prose => "Questions and Answers (text)"@,
        ContentClass::Code => "Questions and Answers (code)"@,
    }
}

/// What was generated for the chunk at index `i`; a missing answer is a failure.
pub open spec fn generated_at(answers: Seq<Option<Seq<char>>>, i: int) -> Option<Seq<char>> {
    if 0 <= i < answers.len() {
        answers[i]
    } else {
        None
    }
}

/// A chunk with the generated text in its metadata.
pub open spec fn with_enrichment(chunk: UnitView, text: Seq<char>) -> UnitView {
    UnitView { metadata: chunk.metadata.insert(enrichment_key(chunk.class), text), ..chunk }
}

/// Those of the first `n` chunks that were enriched, in order.
pub open spec fn enriched(chunks: Seq<UnitView>, answers: Seq<Option<Seq<char>>>, n: nat) -> Seq<
    UnitView,
>
    decreases n,
{
    if n == 0 {
        Seq::empty()
    } else {
        match generated_at(answers, n - 1) {
            Some(text) => enriched(chunks, answers, (n - 1) as nat).push(
                with_enrichment(chunks[n - 1], text),
            ),
            None => enriched(chunks, answers, (n - 1) as nat),
        }
    }
}

/// Those of the first `n` chunks that could not be enriched, marked, in order.
pub open spec fn unenriched(chunks: Seq<UnitView>, answers: Seq<Option<Seq<char>>>, n: nat) -> Seq<
    UnitView,
>
    decreases n,
{
    if n == 0 {
        Seq::empty()
    } else {
        match generated_at(answers, n - 1) {
            Some(text) => unenriched(chunks, answers, (n - 1) as nat),
            None => unenriched(chunks, answers, (n - 1) as nat).push(
                with_error(chunks[n - 1], PipelineError::EnrichmentError),
            ),
        }
    }
}

/// What enrichment gave: the chunks that go on and those that failed.
#[derive(Debug, PartialEq, Eq)]
pub struct Enriched {
    pub chunks: Vec<Unit>,
    pub failed: Vec<Unit>,
}

/// Attaches to every chunk what was generated for it. `answers[i]` belongs to
/// `chunks[i]`; `None` says that the call failed.
pub fn apply_enrichment(chunks: Vec<Unit>, answers: &Vec<Option<String>>) -> (out: Enriched)
    ensures
        unit_views(out.chunks@) == enriched(
            unit_views(chunks@),
            option_text_list(answers@),
            chunks.len() as nat,
        ),
        unit_views(out.failed@) == unenriched(
            unit_views(chunks@),
            option_text_list(answers@),
            chunks.len() as nat,
        ),
        out.chunks.len() + out.failed.len() == chunks.len(),
{
    let ghost all = unit_views(chunks@);
    let ghost texts = option_text_list(answers@);
    let total = chunks.len();
    let mut kept: Vec<Unit> = Vec::new();
    let mut failed: Vec<Unit> = Vec::new();
    let mut i: usize = 0;
    for chunk in it: chunks
        invariant
            unit_views(it.seq()) == all,
            it.seq().len() == total,
            texts == option_text_list(answers@),
            i == it.index(),
            kept.len() + failed.len() == i,
            unit_views(kept@) == enriched(all, texts, i as nat),
            unit_views(failed@) == unenriched(all, texts, i as nat),
    {
        let mut chunk = chunk;
        assert(all[i as int] == chunk@);
        let ghost kept_before = unit_views(kept@);
        let ghost failed_before = unit_views(failed@);
        if i < answers.len() && answers[i].is_some() {
            let text = match &answers[i] {
                Some(text) => text.clone(),
                None => String::new(),
            };
            assert(generated_at(texts, i as int) == Some(text@));
            let key = match chunk.class {
                ContentClass::Prose => String::from_str("Questions and Answers (text)"),
                ContentClass::Code => String::from_str("Questions and Answers (code)"),
            };
            chunk.insert_metadata(key, text);
            kept.push(chunk);
            assert(unit_views(kept@) =~= kept_before.push(chunk@));
        } else {
            assert(generated_at(texts, i as int).is_none());
            chunk.error = Some(PipelineError::EnrichmentError);
            failed.push(chunk);
            assert(unit_views(failed@) =~= failed_before.push(chunk@));
        }
        i += 1;
    }
    Enriched { chunks: kept, failed }
}

/// Every chunk either goes on or is reported as failed.
pub proof fn law_enrichment_partitions(
    chunks: Seq<UnitView>,
    answers: Seq<Option<Seq<char>>>,
    n: nat,
)
    ensures
        enriched(chunks, answers, n).len() + unenriched(chunks, answers, n).len() == n,
    decreases n,
{
    if n > 0 {
        law_enrichment_partitions(chunks, answers, (n - 1) as nat);
    }
}

/// The chunk that stands at index `j` after the chunk at `k` was taken out.
pub open spec fn skipping(k: int, j: int) -> int {
    if j < k {
        j
    } else {
        j + 1
    }
}

/// One failure does not touch the others: if enrichment fails for the chunk
/// at index `k` and for no other, all other chunks go on, each with its own
/// generated text, in their order, and the failed one is the only one reported.
pub proof fn law_failure_is_isolated(
    chunks: Seq<UnitView>,
    answers: Seq<Option<Seq<char>>>,
    k: int,
)
    requires
        answers.len() == chunks.len(),
        0 <= k < chunks.len(),
        forall|i: int| 0 <= i < chunks.len() ==> (answers[i].is_none() <==> i == k),
    ensures
        enriched(chunks, answers, chunks.len()).len() == chunks.len() - 1,
        forall|j: int|
            0 <= j < chunks.len() - 1 ==> #[trigger] enriched(chunks, answers, chunks.len())[j]
                == with_enrichment(chunks[skipping(k, j)], answers[skipping(k, j)]->0),
        unenriched(chunks, answers, chunks.len()) == seq![
            with_error(chunks[k], PipelineError::EnrichmentError),
        ],
{
    lemma_failure_prefix(chunks, answers, k, chunks.len());
}

proof fn lemma_failure_prefix(
    chunks: Seq<UnitView>,
    answers: Seq<Option<Seq<char>>>,
    k: int,
    n: nat,
)
    requires
        answers.len() == chunks.len(),
        0 <= k < chunks.len(),
        n <= chunks.len(),
        forall|i: int| 0 <= i < chunks.len() ==> (answers[i].is_none() <==> i == k),
    ensures
        enriched(chunks, answers, n).len() == if n <= k {
            n as int
        } else {
            n - 1
        },
        forall|j: int|
            0 <= j < enriched(chunks, answers, n).len() ==> #[trigger] enriched(
                chunks,
                answers,
                n,
            )[j] == with_enrichment(chunks[skipping(k, j)], answers[skipping(k, j)]->0),
        unenriched(chunks, answers, n) == if n <= k {
            Seq::<UnitView>::empty()
        } else {
            seq![with_error(chunks[k], PipelineError::EnrichmentError)]
        },
    decreases n,
{
    if n > 0 {
        lemma_failure_prefix(chunks, answers, k, (n - 1) as nat);
        let before = enriched(chunks, answers, (n - 1) as nat);
        let now = enriched(chunks, answers, n);
        if n - 1 == k {
            assert(answers[n - 1].is_none());
            assert(unenriched(chunks, answers, n) =~= seq![
                with_error(chunks[k], PipelineError::EnrichmentError),
            ]);
        } else {
            assert(answers[n - 1].is_some());
            assert forall|j: int| 0 <= j < now.len() implies #[trigger] now[j] == with_enrichment(
                chunks[skipping(k, j)],
                answers[skipping(k, j)]->0,
            ) by {
                if j < before.len() {
                    assert(now[j] == before[j]);
                }
            }
        }
    }
}

proof fn lemma_all_enriched(chunks: Seq<UnitView>, answers: Seq<Option<Seq<char>>>, n: nat)
    requires
        answers.len() == chunks.len(),
        n <= chunks.len(),
        forall|i: int| 0 <= i < chunks.len() ==> (#[trigger] answers[i]).is_some(),
    ensures
        enriched(chunks, answers, n).len() == n,
        forall|i: int|
            0 <= i < n ==> #[trigger] enriched(chunks, answers, n)[i] == with_enrichment(
                chunks[i],
                answers[i]->0,
            ),
    decreases n,
{
    if n > 0 {
        lemma_all_enriched(chunks, answers, (n - 1) as nat);
        assert(answers[n - 1].is_some());
        let before = enriched(chunks, answers, (n - 1) as nat);
        let now = enriched(chunks, answers, n);
        assert forall|i: int| 0 <= i < n implies #[trigger] now[i] == with_enrichment(
            chunks[i],
            answers[i]->0,
        ) by {
            if i < n - 1 {
                assert(now[i] == before[i]);
            }
        }
    }
}

/// A failure changes nothing for the others. Take two rounds of enrichment
/// over the same chunks that differ in one outcome only: in the one every
/// call succeeds, in the other the call for the chunk at index `k` fails.
/// Then the chunks that go on in the second are those of the first without
/// the chunk at `k`: each with the same identifier, content and metadata,
/// in the same order.
pub proof fn law_failure_leaves_the_rest_as_they_were(
    chunks: Seq<UnitView>,
    all: Seq<Option<Seq<char>>>,
    but_one: Seq<Option<Seq<char>>>,
    k: int,
)
    requires
        all.len() == chunks.len(),
        but_one.len() == chunks.len(),
        0 <= k < chunks.len(),
        forall|i: int| 0 <= i < chunks.len() ==> (#[trigger] all[i]).is_some(),
        forall|i: int| 0 <= i < chunks.len() && i != k ==> #[trigger] but_one[i] == all[i],
        but_one[k].is_none(),
    ensures
        enriched(chunks, all, chunks.len()).len() == chunks.len(),
        enriched(chunks, but_one, chunks.len()).len() == chunks.len() - 1,
        forall|j: int|
            0 <= j < chunks.len() - 1 ==> #[trigger] enriched(chunks, but_one, chunks.len())[j]
                == enriched(chunks, all, chunks.len())[skipping(k, j)],
{
    lemma_all_enriched(chunks, all, chunks.len());
    assert forall|i: int| 0 <= i < chunks.len() implies ((#[trigger] but_one[i]).is_none() <==> i
        == k) by {
        if i != k {
            assert(but_one[i] == all[i]);
            assert(all[i].is_some());
        }
    }
    law_failure_is_isolated(chunks, but_one, k);
    let rest = enriched(chunks, but_one, chunks.len());
    let full = enriched(chunks, all, chunks.len());
    assert forall|j: int| 0 <= j < chunks.len() - 1 implies #[trigger] rest[j] == full[skipping(
        k,
        j,
    )] by {
        let i = skipping(k, j);
        assert(but_one[i] == all[i]);
        assert(full[i] == with_enrichment(chunks[i], all[i]->0));
    }
}

/// How a call to a service is made: how long it may take, how often it is
/// tried, and how long to wait between tries. A call that takes too long
/// counts as a failed call.
#[derive(Clone, Copy, Debug, PartialEq, Eq, Structural)]
pub struct RetryPolicy {
    /// The number of tries in all, the first one included.
    pub attempts: u32,
    /// The wait before the second try, in milliseconds; it doubles from try to try.
    pub base_delay_ms: u64,
    /// The time that one try may take, in milliseconds.
    pub timeout_ms: u64,
}

impl RetryPolicy {
    /// Three tries of at most half a minute each, half a second before the
    /// second, a second before the third.
    pub fn standard() -> (policy: RetryPolicy)
        ensures
            policy == (RetryPolicy { attempts: 3, base_delay_ms: 500, timeout_ms: 30000 }),
    {
        RetryPolicy { attempts: 3, base_delay_ms: 500, timeout_ms: 30000 }
    }

    /// The wait after `failures` failed tries, or `None` when the tries are used up.
    pub open spec fn spec_delay_after(&self, failures: u32) -> Option<u64> {
        if failures == 0 || failures >= self.attempts {
            None
        } else if self.base_delay_ms * pow2((failures - 1) as nat) > u64::MAX {
            Some(u64::MAX)
        } else {
            Some((self.base_delay_ms * pow2((failures - 1) as nat)) as u64)
        }
    }

    /// Says whether a call that has failed `failures` times is tried again,
    /// and after how many milliseconds. The wait doubles with every failure
    /// and stays at the largest number where it would exceed it.
    #[verifier::when_used_as_spec(spec_delay_after)]
    pub fn delay_after(&self, failures: u32) -> (delay: Option<u64>)
        ensures
            delay == self.spec_delay_after(failures),
    {
        if failures == 0 || failures >= self.attempts {
            return None;
        }
        let mut delay = self.base_delay_ms;
        let mut doubled: u32 = 0;
        proof {
            lemma2_to64();
        }
        while doubled < failures - 1
            invariant
                doubled <= failures - 1,
                failures >= 1,
                delay == if self.base_delay_ms * pow2(doubled as nat) > u64::MAX {
                    u64::MAX as int
                } else {
                    self.base_delay_ms * pow2(doubled as nat)
                },
            decreases failures - 1 - doubled,
        {
            proof {
                lemma_pow2_unfold((doubled + 1) as nat);
                assert(self.base_delay_ms * pow2((doubled + 1) as nat) == 2 * (self.base_delay_ms
                    * pow2(doubled as nat))) by (nonlinear_arith)
                    requires
                        pow2((doubled + 1) as nat) == 2 * pow2(doubled as nat),
                ;
            }
            delay = delay.saturating_add(delay);
            doubled += 1;
        }
        Some(delay)
    }
}

} // verus!

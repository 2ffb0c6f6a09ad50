//! The texts that the query flow sends to the model and reads back.
use crate::retrieve::{hit_views, Hit, HitView};
use crate::text::{chars_of, texts_of};
use vstd::prelude::*;
use vstd::string::StringExecFns;

verus! {

/// The request for related questions.
pub open spec fn expansion_prompt_of(question: Seq<char>) -> Seq<char> {
    "Write related questions that help to answer the question below. Write one question per line and nothing else.\n\nQuestion: "@
        + question + "\n"@
}

/// The request to shorten the context of a question.
pub open spec fn summary_prompt_of(question: Seq<char>, context: Seq<char>) -> Seq<char> {
    "Summarize the documents below so that the question can still be answered from the summary. Keep the line that names the source of each part.\n\nQuestion: "@
        + question + "\n\nDocuments:\n"@ + context
}

/// The request for the answer. It binds the question to the context and
/// tells the model to answer from the context alone. The model is asked to
/// keep to this; nothing in the engine can make it.
pub open spec fn answer_prompt_of(question: Seq<char>, context: Seq<char>) -> Seq<char> {
    "Answer the question using only the context below. If the context does not hold the answer, say so.\n\nQuestion: "@
        + question + "\n\nContext:\n"@ + context
}

/// Makes the request for related questions.
pub fn expansion_prompt(question: &str) -> (prompt: String)
    ensures
        prompt@ == expansion_prompt_of(question@),
{
    let mut prompt = String::from_str(
        "Write related questions that help to answer the question below. Write one question per line and nothing else.\n\nQuestion: ",
    );
    prompt.append(question);
    prompt.append("\n");
    prompt
}

/// Makes the request to shorten the context of a question.
pub fn summary_prompt(question: &str, context: &str) -> (prompt: String)
    ensures
        prompt@ == summary_prompt_of(question@, context@),
{
    let mut prompt = String::from_str(
        "Summarize the documents below so that the question can still be answered from the summary. Keep the line that names the source of each part.\n\nQuestion: ",
    );
    prompt.append(question);
    prompt.append("\n\nDocuments:\n");
    prompt.append(context);
    prompt
}

/// Makes the request for the answer.
pub fn answer_prompt(question: &str, context: &str) -> (prompt: String)
    ensures
        prompt@ == answer_prompt_of(question@, context@),
{
    let mut prompt = String::from_str(
        "Answer the question using only the context below. If the context does not hold the answer, say so.\n\nQuestion: ",
    );
    prompt.append(question);
    prompt.append("\n\nContext:\n");
    prompt.append(context);
    prompt
}

/// One candidate as it stands in the context: the file it comes from, then its text.
pub open spec fn context_entry(hit: HitView) -> Seq<char> {
    "Source: "@ + hit.path + "\n"@ + hit.content + "\n\n"@
}

/// The context that the first `n` candidates make, best first.
pub open spec fn context_of(hits: Seq<HitView>, n: nat) -> Seq<char>
    decreases n,
{
    if n == 0 {
        Seq::empty()
    } else {
        context_of(hits, (n - 1) as nat) + context_entry(hits[n - 1])
    }
}

/// Writes the candidates out as the context of the answer, each with its source.
pub fn render_context(hits: &Vec<Hit>) -> (context: String)
    ensures
        context@ == context_of(hit_views(hits@), hits.len() as nat),
{
    let mut context = String::new();
    let mut i: usize = 0;
    while i < hits.len()
        invariant
            i <= hits.len(),
            context@ == context_of(hit_views(hits@), i as nat),
        decreases hits.len() - i,
    {
        let ghost before = context@;
        context.append("Source: ");
        context.append(hits[i].path.as_str());
        context.append("\n");
        context.append(hits[i].content.as_str());
        context.append("\n\n");
        assert(context@ =~= before + context_entry(hit_views(hits@)[i as int]));
        i += 1;
    }
    context
}

/// A text cut off behind its first `budget` characters.
pub open spec fn truncated(text: Seq<char>, budget: usize) -> Seq<char> {
    if text.len() <= budget {
        text
    } else {
        text.take(budget as int)
    }
}

/// Cuts a text off where it exceeds the budget.
pub fn truncate(text: &str, budget: usize) -> (out: String)
    ensures
        out@ == truncated(text@, budget),
{
    if text.unicode_len() <= budget {
        String::from_str(text)
    } else {
        String::from_str(text.substring_char(0, budget))
    }
}

/// Whether a character is white space within a line.
pub open spec fn is_space(c: char) -> bool {
    c == ' ' || c == '\t' || c == '\r'
}

/// The number of characters from `from` to the end of its line.
pub open spec fn line_len(text: Seq<char>, from: nat) -> nat
    decreases text.len() - from,
{
    if from >= text.len() || text[from as int] == '\n' {
        0
    } else {
        1 + line_len(text, from + 1)
    }
}

/// The first index from `from` on that holds no white space; `end` if there is none before it.
pub open spec fn skip_spaces(text: Seq<char>, from: nat, end: nat) -> nat
    decreases end - from,
{
    if from >= end || !is_space(text[from as int]) {
        from
    } else {
        skip_spaces(text, from + 1, end)
    }
}

/// The index behind the last character before `end` that is no white
/// space; `from` if there is none behind it.
pub open spec fn drop_spaces(text: Seq<char>, from: nat, end: nat) -> nat
    decreases end,
{
    if end <= from || !is_space(text[end - 1]) {
        end
    } else {
        drop_spaces(text, from, (end - 1) as nat)
    }
}

/// The first `limit` lines behind `from` that are not blank, each without
/// the white space around it.
pub open spec fn questions_from(text: Seq<char>, from: nat, limit: nat) -> Seq<Seq<char>>
    decreases text.len() - from,
{
    if limit == 0 || from >= text.len() {
        Seq::empty()
    } else {
        let end = from + line_len(text, from);
        let first = skip_spaces(text, from, end);
        let last = drop_spaces(text, first, end);
        if end >= text.len() {
            if first < end {
                seq![text.subrange(first as int, last as int)]
            } else {
                Seq::empty()
            }
        } else if first < end {
            seq![text.subrange(first as int, last as int)] + questions_from(
                text,
                end + 1,
                (limit - 1) as nat,
            )
        } else {
            questions_from(text, end + 1, limit)
        }
    }
}

/// The questions that a response holds: its lines that are not blank, at
/// most `limit` of them, in order, each without the white space around it.
pub open spec fn questions_of(text: Seq<char>, limit: usize) -> Seq<Seq<char>> {
    questions_from(text, 0, limit as nat)
}

/// A response holds no more questions than the limit allows, and none of
/// them is empty.
pub proof fn law_questions_within_limit(text: Seq<char>, from: nat, limit: nat)
    ensures
        questions_from(text, from, limit).len() <= limit,
        forall|i: int|
            0 <= i < questions_from(text, from, limit).len() ==> (#[trigger] questions_from(
                text,
                from,
                limit,
            )[i]).len() > 0,
    decreases text.len() - from,
{
    if limit > 0 && from < text.len() {
        let end = from + line_len(text, from);
        let first = skip_spaces(text, from, end);
        let last = drop_spaces(text, first, end);
        lemma_line_len(text, from);
        lemma_skip_spaces(text, from, end);
        lemma_drop_spaces(text, first, end);
        let all = questions_from(text, from, limit);
        if first < end {
            assert(text.subrange(first as int, last as int).len() == last - first);
        }
        if end < text.len() {
            if first < end {
                law_questions_within_limit(text, end + 1, (limit - 1) as nat);
                let rest = questions_from(text, end + 1, (limit - 1) as nat);
                assert forall|i: int| 0 <= i < all.len() implies (#[trigger] all[i]).len() > 0 by {
                    if i > 0 {
                        assert(all[i] == rest[i - 1]);
                    }
                }
            } else {
                law_questions_within_limit(text, end + 1, limit);
            }
        }
    }
}

proof fn lemma_line_len(text: Seq<char>, from: nat)
    requires
        from <= text.len(),
    ensures
        from + line_len(text, from) <= text.len(),
    decreases text.len() - from,
{
    if from < text.len() && text[from as int] != '\n' {
        lemma_line_len(text, from + 1);
    }
}

proof fn lemma_skip_spaces(text: Seq<char>, from: nat, end: nat)
    requires
        from <= end,
    ensures
        from <= skip_spaces(text, from, end) <= end,
        skip_spaces(text, from, end) < end ==> !is_space(
            text[skip_spaces(text, from, end) as int],
        ),
    decreases end - from,
{
    if from < end && is_space(text[from as int]) {
        lemma_skip_spaces(text, from + 1, end);
    }
}

proof fn lemma_drop_spaces(text: Seq<char>, from: nat, end: nat)
    requires
        from <= end,
    ensures
        from <= drop_spaces(text, from, end) <= end,
        from < end && !is_space(text[from as int]) ==> from < drop_spaces(text, from, end),
    decreases end,
{
    if end > from && is_space(text[end - 1]) {
        lemma_drop_spaces(text, from, (end - 1) as nat);
    }
}

/// Reads the questions out of a response of the model: one per line, blank
/// lines left out, white space around a question taken off, and no more
/// than `limit` questions.
pub fn parse_questions(response: &str, limit: usize) -> (questions: Vec<String>)
    ensures
        texts_of(questions@) == questions_of(response@, limit),
{
    let text = chars_of(response);
    let mut questions: Vec<String> = Vec::new();
    let mut start: usize = 0;
    assert(texts_of(questions@) =~= Seq::<Seq<char>>::empty());
    while start < text.len() && questions.len() < limit
        invariant
            start <= text.len(),
            questions.len() <= limit,
            text@ == response@,
            texts_of(questions@) + questions_from(
                text@,
                start as nat,
                (limit - questions.len()) as nat,
            ) == questions_of(response@, limit),
        decreases text.len() - start,
    {
        let mut end = start;
        while end < text.len() && text[end] != '\n'
            invariant
                start <= end <= text.len(),
                start + line_len(text@, start as nat) == end + line_len(text@, end as nat),
            decreases text.len() - end,
        {
            end += 1;
        }
        let mut first = start;
        while first < end && (text[first] == ' ' || text[first] == '\t' || text[first] == '\r')
            invariant
                start <= first <= end <= text.len(),
                skip_spaces(text@, start as nat, end as nat) == skip_spaces(
                    text@,
                    first as nat,
                    end as nat,
                ),
            decreases end - first,
        {
            first += 1;
        }
        let mut last = end;
        while last > first && (text[last - 1] == ' ' || text[last - 1] == '\t' || text[last - 1]
            == '\r')
            invariant
                first <= last <= end <= text.len(),
                drop_spaces(text@, first as nat, end as nat) == drop_spaces(
                    text@,
                    first as nat,
                    last as nat,
                ),
            decreases last,
        {
            last -= 1;
        }
        let ghost before = texts_of(questions@);
        let ghost left = (limit - questions.len()) as nat;
        let next = if end < text.len() {
            end + 1
        } else {
            end
        };
        if first < end {
            let line = String::from_str(response.substring_char(first, last));
            questions.push(line);
            assert(texts_of(questions@) =~= before.push(line@));
            assert(before.push(line@) + questions_from(text@, next as nat, (left - 1) as nat)
                =~= before + (seq![line@] + questions_from(text@, next as nat, (left - 1) as nat)));
            assert(end >= text.len() ==> seq![line@] + questions_from(
                text@,
                next as nat,
                (left - 1) as nat,
            ) =~= seq![line@]);
        }
        start = next;
    }
    assert(questions_from(text@, start as nat, (limit - questions.len()) as nat)
        =~= Seq::<Seq<char>>::empty());
    assert(texts_of(questions@) + Seq::<Seq<char>>::empty() =~= texts_of(questions@));
    questions
}

} // verus!

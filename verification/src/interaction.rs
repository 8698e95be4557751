//! General user questions, deliberately separate from permission approval.
//!
//! A questioner collects product choices the model cannot infer; it never
//! answers whether an action may run.

use vstd::prelude::*;

use crate::text;

verus! {

pub const MAX_TOTAL_CHARS: usize = 50_000;

pub const MAX_QUESTION_CHARS: usize = 1_000;

pub const MAX_HEADER_CHARS: usize = 12;

pub const MAX_LABEL_CHARS: usize = 100;

pub const MAX_DESCRIPTION_CHARS: usize = 2_000;

pub const MAX_PREVIEW_CHARS: usize = 10_000;

pub const MAX_FREE_TEXT_CHARS: usize = 10_000;

pub const MAX_SOURCE_CHARS: usize = 200;

/// One choice offered for a question.
#[derive(Clone, Debug, PartialEq, Eq)]
pub struct QuestionOption {
    pub label: String,
    pub description: String,
    pub preview: Option<String>,
}

/// One question with its options.
#[derive(Clone, Debug, PartialEq, Eq)]
pub struct Question {
    pub question: String,
    pub header: String,
    pub options: Vec<QuestionOption>,
    pub multi_select: bool,
}

/// Where a question came from.
#[derive(Clone, Debug, Default, PartialEq, Eq)]
pub struct QuestionMetadata {
    pub source: Option<String>,
}

/// A set of questions put to the user together.
#[derive(Clone, Debug, PartialEq, Eq)]
pub struct QuestionRequest {
    pub questions: Vec<Question>,
    pub metadata: Option<QuestionMetadata>,
}

/// The user's answer to one question.
#[derive(Clone, Debug, PartialEq, Eq)]
pub struct QuestionAnswer {
    pub question_index: usize,
    pub selected: Vec<usize>,
    pub other: Option<String>,
    pub notes: Option<String>,
}

/// How asking ended.
#[derive(Clone, Debug, PartialEq, Eq)]
pub enum QuestionOutcome {
    Answered(Vec<QuestionAnswer>),
    Cancelled,
    Unavailable(String),
}

/// The text that `{:?}` prints for a string.
pub uninterp spec fn debug_form(s: Seq<char>) -> Seq<char>;

/// `format!("{:?}")` on a string: the quoted, escaped form, a function of the
/// string alone.
#[verifier::external_body]
pub(crate) fn debug_text(s: &str) -> (r: String)
    ensures
        r@ == debug_form(s@),
{
    format!("{s:?}")
}

// ---------------------------------------------------------------------------
// What is wrong with a request, in the order in which it is looked at
// ---------------------------------------------------------------------------

/// What is wrong with one text: blank, or longer than `max` characters.
pub open spec fn text_error(value: Seq<char>, max: nat, field: Seq<char>) -> Option<Seq<char>> {
    if text::blank(value) {
        Some(field + " must not be empty"@)
    } else if value.len() > max {
        Some(field + " exceeds the "@ + text::decimal(max) + "-character limit"@)
    } else {
        None
    }
}

pub open spec fn question_field(qi: nat) -> Seq<char> {
    "questions["@ + text::decimal(qi) + "]"@
}

pub open spec fn option_field(qi: nat, oi: nat) -> Seq<char> {
    question_field(qi) + ".options["@ + text::decimal(oi) + "]"@
}

/// Some earlier option carries the same label.
pub open spec fn label_repeats(options: Seq<QuestionOption>, oi: int) -> bool {
    exists|k: int| 0 <= k < oi && (#[trigger] options[k]).label@ == options[oi].label@
}

pub open spec fn preview_error(q: Question, qi: nat, oi: nat) -> Option<Seq<char>> {
    match q.options@[oi as int].preview {
        Some(preview) => text::first(
            text_error(preview@, MAX_PREVIEW_CHARS as nat, option_field(qi, oi) + ".preview"@),
            if q.multi_select {
                Some(question_field(qi) + " cannot use previews with multiSelect"@)
            } else {
                None
            },
        ),
        None => None,
    }
}

pub open spec fn option_error(q: Question, qi: nat, oi: nat) -> Option<Seq<char>> {
    let option = q.options@[oi as int];
    text::first(
        text_error(option.label@, MAX_LABEL_CHARS as nat, option_field(qi, oi) + ".label"@),
        text::first(
            text_error(
                option.description@,
                MAX_DESCRIPTION_CHARS as nat,
                option_field(qi, oi) + ".description"@,
            ),
            if label_repeats(q.options@, oi as int) {
                Some(
                    question_field(qi) + ".options contains duplicate label "@ + debug_form(
                        option.label@,
                    ),
                )
            } else {
                preview_error(q, qi, oi)
            },
        ),
    )
}

/// The first complaint among the options from `oi` on.
pub open spec fn options_error(q: Question, qi: nat, oi: nat) -> Option<Seq<char>>
    decreases q.options@.len() - oi,
{
    if oi >= q.options@.len() {
        None
    } else {
        text::first(option_error(q, qi, oi), options_error(q, qi, oi + 1))
    }
}

pub open spec fn question_error(q: Question, qi: nat) -> Option<Seq<char>> {
    text::first(
        text_error(q.question@, MAX_QUESTION_CHARS as nat, question_field(qi) + ".question"@),
        text::first(
            text_error(q.header@, MAX_HEADER_CHARS as nat, question_field(qi) + ".header"@),
            if !(2 <= q.options@.len() <= 4) {
                Some(question_field(qi) + ".options must contain between 2 and 4 items"@)
            } else {
                options_error(q, qi, 0)
            },
        ),
    )
}

/// The first complaint among the questions from `qi` on.
pub open spec fn questions_error(questions: Seq<Question>, qi: nat) -> Option<Seq<char>>
    decreases questions.len() - qi,
{
    if qi >= questions.len() {
        None
    } else {
        text::first(question_error(questions[qi as int], qi), questions_error(questions, qi + 1))
    }
}

/// The characters of an option.
pub open spec fn option_chars(option: QuestionOption) -> nat {
    option.label@.len() + option.description@.len() + match option.preview {
        Some(preview) => preview@.len(),
        None => 0,
    }
}

/// The characters of the first `n` options.
pub open spec fn options_chars(options: Seq<QuestionOption>, n: nat) -> nat
    decreases n,
{
    if n == 0 {
        0
    } else {
        options_chars(options, (n - 1) as nat) + option_chars(options[n - 1])
    }
}

/// The characters of the first `n` questions, options included.
pub open spec fn questions_chars(questions: Seq<Question>, n: nat) -> nat
    decreases n,
{
    if n == 0 {
        0
    } else {
        let q = questions[n - 1];
        questions_chars(questions, (n - 1) as nat) + q.question@.len() + q.header@.len()
            + options_chars(q.options@, q.options@.len())
    }
}

impl QuestionRequest {
    /// The source the request names, where it names one.
    pub open spec fn source(self) -> Option<Seq<char>> {
        match self.metadata {
            Some(metadata) => match metadata.source {
                Some(source) => Some(source@),
                None => None,
            },
            None => None,
        }
    }

    /// All characters that the request puts before the user.
    pub open spec fn payload_chars(self) -> nat {
        questions_chars(self.questions@, self.questions@.len()) + match self.source() {
            Some(source) => source.len(),
            None => 0,
        }
    }

    /// What is wrong with the request: the first complaint in document order.
    pub open spec fn error(self) -> Option<Seq<char>> {
        if !(1 <= self.questions@.len() <= 4) {
            Some("questions must contain between 1 and 4 items"@)
        } else {
            text::first(
                questions_error(self.questions@, 0),
                text::first(
                    match self.source() {
                        Some(source) => text_error(
                            source,
                            MAX_SOURCE_CHARS as nat,
                            "metadata.source"@,
                        ),
                        None => None,
                    },
                    if self.payload_chars() > MAX_TOTAL_CHARS {
                        Some(
                            "question payload exceeds the "@ + text::decimal(MAX_TOTAL_CHARS as nat)
                                + "-character limit"@,
                        )
                    } else {
                        None
                    },
                ),
            )
        }
    }

    /// Whether the request may be put before the user; the error names the
    /// first thing that is wrong with it.
    pub fn validate(&self) -> (r: Result<(), String>)
        ensures
            match r {
                Ok(()) => self.error() is None,
                Err(e) => self.error() == Some(e@),
            },
    {
        if self.questions.len() < 1 || self.questions.len() > 4 {
            return Err("questions must contain between 1 and 4 items".to_owned());
        }
        let mut total: usize = 0;
        let mut qi: usize = 0;
        while qi < self.questions.len()
            invariant
                1 <= self.questions@.len() <= 4,
                qi <= self.questions@.len(),
                questions_error(self.questions@, 0) == questions_error(
                    self.questions@,
                    qi as nat,
                ),
                total == questions_chars(self.questions@, qi as nat),
                total <= qi * 60_000,
            decreases self.questions@.len() - qi,
        {
            let chars = validate_question(&self.questions[qi], qi)?;
            total = total + chars;
            qi += 1;
        }
        if let Some(metadata) = &self.metadata {
            if let Some(source) = &metadata.source {
                validate_text(source.as_str(), MAX_SOURCE_CHARS, "metadata.source")?;
                total = total + text::char_count(source.as_str());
            }
        }
        if total > MAX_TOTAL_CHARS {
            let mut e = "question payload exceeds the ".to_owned();
            e.append(text::decimal_text(MAX_TOTAL_CHARS as u64).as_str());
            e.append("-character limit");
            return Err(e);
        }
        Ok(())
    }

    /// What is wrong with a set of answers: the first complaint.
    pub open spec fn answers_error(self, answers: Seq<QuestionAnswer>) -> Option<Seq<char>> {
        if answers.len() != self.questions@.len() {
            Some(
                "questioner returned "@ + text::decimal(answers.len()) + " answers for "@
                    + text::decimal(self.questions@.len()) + " questions"@,
            )
        } else {
            answers_error_from(self.questions@, answers, 0)
        }
    }

    /// Whether the answers fit the request; the error names the first thing
    /// that is wrong with them.
    pub fn validate_answers(&self, answers: &[QuestionAnswer]) -> (r: Result<(), String>)
        ensures
            match r {
                Ok(()) => self.answers_error(answers@) is None,
                Err(e) => self.answers_error(answers@) == Some(e@),
            },
    {
        if answers.len() != self.questions.len() {
            let mut e = "questioner returned ".to_owned();
            e.append(text::decimal_text(answers.len() as u64).as_str());
            e.append(" answers for ");
            e.append(text::decimal_text(self.questions.len() as u64).as_str());
            e.append(" questions");
            return Err(e);
        }
        let mut i: usize = 0;
        while i < answers.len()
            invariant
                answers@.len() == self.questions@.len(),
                i <= answers@.len(),
                answers_error_from(self.questions@, answers@, 0) == answers_error_from(
                    self.questions@,
                    answers@,
                    i as nat,
                ),
            decreases answers@.len() - i,
        {
            validate_answer(&self.questions[i], &answers[i], i)?;
            i += 1;
        }
        Ok(())
    }
}

fn question_field_text(qi: usize) -> (r: String)
    ensures
        r@ == question_field(qi as nat),
{
    let mut f = "questions[".to_owned();
    f.append(text::decimal_text(qi as u64).as_str());
    f.append("]");
    f
}

fn option_field_text(qi: usize, oi: usize, name: &str) -> (r: String)
    ensures
        r@ == option_field(qi as nat, oi as nat) + name@,
{
    let mut f = question_field_text(qi);
    f.append(".options[");
    f.append(text::decimal_text(oi as u64).as_str());
    f.append("]");
    f.append(name);
    f
}

fn validate_text(value: &str, max: usize, field: &str) -> (r: Result<(), String>)
    ensures
        match r {
            Ok(()) => text_error(value@, max as nat, field@) is None,
            Err(e) => text_error(value@, max as nat, field@) == Some(e@),
        },
{
    let mut e = field.to_owned();
    if text::is_blank(value) {
        e.append(" must not be empty");
        return Err(e);
    }
    if text::char_count(value) > max {
        e.append(" exceeds the ");
        e.append(text::decimal_text(max as u64).as_str());
        e.append("-character limit");
        return Err(e);
    }
    Ok(())
}

/// Checks one option; counts its characters.
fn validate_option(q: &Question, qi: usize, oi: usize) -> (r: Result<usize, String>)
    requires
        oi < q.options@.len(),
    ensures
        match r {
            Ok(chars) => {
                &&& option_error(*q, qi as nat, oi as nat) is None
                &&& chars == option_chars(q.options@[oi as int])
                &&& chars <= 12_100
            },
            Err(e) => option_error(*q, qi as nat, oi as nat) == Some(e@),
        },
{
    let option = &q.options[oi];
    validate_text(
        option.label.as_str(),
        MAX_LABEL_CHARS,
        option_field_text(qi, oi, ".label").as_str(),
    )?;
    validate_text(
        option.description.as_str(),
        MAX_DESCRIPTION_CHARS,
        option_field_text(qi, oi, ".description").as_str(),
    )?;
    let mut k: usize = 0;
    while k < oi
        invariant
            k <= oi < q.options@.len(),
            *option == q.options@[oi as int],
            forall|j: int|
                0 <= j < k ==> (#[trigger] q.options@[j]).label@ != q.options@[oi as int].label@,
            text_error(
                option.label@,
                MAX_LABEL_CHARS as nat,
                option_field(qi as nat, oi as nat) + ".label"@,
            ) is None,
            text_error(
                option.description@,
                MAX_DESCRIPTION_CHARS as nat,
                option_field(qi as nat, oi as nat) + ".description"@,
            ) is None,
        decreases oi - k,
    {
        if text::same(q.options[k].label.as_str(), option.label.as_str()) {
            proof {
                assert(label_repeats(q.options@, oi as int));
            }
            let mut e = question_field_text(qi);
            e.append(".options contains duplicate label ");
            e.append(debug_text(option.label.as_str()).as_str());
            return Err(e);
        }
        k += 1;
    }
    let mut chars: usize = text::char_count(option.label.as_str()) + text::char_count(
        option.description.as_str(),
    );
    if let Some(preview) = &option.preview {
        validate_text(
            preview.as_str(),
            MAX_PREVIEW_CHARS,
            option_field_text(qi, oi, ".preview").as_str(),
        )?;
        if q.multi_select {
            let mut e = question_field_text(qi);
            e.append(" cannot use previews with multiSelect");
            return Err(e);
        }
        chars = chars + text::char_count(preview.as_str());
    }
    Ok(chars)
}

/// Checks one question; counts its characters, options included.
fn validate_question(q: &Question, qi: usize) -> (r: Result<usize, String>)
    ensures
        match r {
            Ok(chars) => {
                &&& question_error(*q, qi as nat) is None
                &&& chars == q.question@.len() + q.header@.len() + options_chars(
                    q.options@,
                    q.options@.len(),
                )
                &&& chars <= 60_000
            },
            Err(e) => question_error(*q, qi as nat) == Some(e@),
        },
{
    let mut field = question_field_text(qi);
    field.append(".question");
    validate_text(q.question.as_str(), MAX_QUESTION_CHARS, field.as_str())?;
    let mut field = question_field_text(qi);
    field.append(".header");
    validate_text(q.header.as_str(), MAX_HEADER_CHARS, field.as_str())?;
    if q.options.len() < 2 || q.options.len() > 4 {
        let mut e = question_field_text(qi);
        e.append(".options must contain between 2 and 4 items");
        return Err(e);
    }
    let mut chars: usize = 0;
    let mut oi: usize = 0;
    while oi < q.options.len()
        invariant
            2 <= q.options@.len() <= 4,
            oi <= q.options@.len(),
            options_error(*q, qi as nat, 0) == options_error(*q, qi as nat, oi as nat),
            question_error(*q, qi as nat) == options_error(*q, qi as nat, 0),
            chars == options_chars(q.options@, oi as nat),
            chars <= oi * 12_100,
        decreases q.options@.len() - oi,
    {
        chars = chars + validate_option(q, qi, oi)?;
        oi += 1;
    }
    Ok(chars + text::char_count(q.question.as_str()) + text::char_count(q.header.as_str()))
}

// ---------------------------------------------------------------------------
// What is wrong with an answer
// ---------------------------------------------------------------------------

/// The first complaint about the selected indices from position `k` on.
pub open spec fn selected_error(options: nat, selected: Seq<usize>, k: nat, at: nat) -> Option<
    Seq<char>,
>
    decreases selected.len() - k,
{
    if k >= selected.len() {
        None
    } else if selected[k as int] >= options {
        Some("questioner selected an unknown option for question "@ + text::decimal(at))
    } else if selected.take(k as int).contains(selected[k as int]) {
        Some(
            "questioner selected option "@ + text::decimal(selected[k as int] as nat)
                + " twice for question "@ + text::decimal(at),
        )
    } else {
        selected_error(options, selected, k + 1, at)
    }
}

pub open spec fn free_text_error(value: Option<String>, at: nat, name: Seq<char>) -> Option<
    Seq<char>,
> {
    match value {
        Some(t) => text_error(
            t@,
            MAX_FREE_TEXT_CHARS as nat,
            "answers["@ + text::decimal(at) + name,
        ),
        None => None,
    }
}

pub open spec fn answer_error(question: Question, answer: QuestionAnswer, at: nat) -> Option<
    Seq<char>,
> {
    if answer.question_index != at {
        Some("questioner answer order drift at index "@ + text::decimal(at))
    } else {
        text::first(
            selected_error(question.options@.len(), answer.selected@, 0, at),
            text::first(
                if !question.multi_select && answer.selected@.len() > 1 {
                    Some(
                        "questioner selected multiple options for single-select question "@
                            + text::decimal(at),
                    )
                } else {
                    None
                },
                text::first(
                    free_text_error(answer.other, at, "].other"@),
                    text::first(
                        free_text_error(answer.notes, at, "].notes"@),
                        if answer.selected@.len() == 0 && answer.other is None
                            && answer.notes is None {
                            Some(
                                "questioner returned no selection, Other text, or notes for question "@
                                    + text::decimal(at),
                            )
                        } else {
                            None
                        },
                    ),
                ),
            ),
        )
    }
}

/// The first complaint among the answers from `i` on.
pub open spec fn answers_error_from(
    questions: Seq<Question>,
    answers: Seq<QuestionAnswer>,
    i: nat,
) -> Option<Seq<char>>
    decreases answers.len() - i,
{
    if i >= answers.len() {
        None
    } else {
        text::first(
            answer_error(questions[i as int], answers[i as int], i),
            answers_error_from(questions, answers, i + 1),
        )
    }
}

fn validate_selected(options: usize, selected: &Vec<usize>, at: usize) -> (r: Result<(), String>)
    ensures
        match r {
            Ok(()) => selected_error(options as nat, selected@, 0, at as nat) is None,
            Err(e) => selected_error(options as nat, selected@, 0, at as nat) == Some(e@),
        },
{
    let mut k: usize = 0;
    while k < selected.len()
        invariant
            k <= selected@.len(),
            selected_error(options as nat, selected@, 0, at as nat) == selected_error(
                options as nat,
                selected@,
                k as nat,
                at as nat,
            ),
        decreases selected@.len() - k,
    {
        let index: usize = selected[k];
        if index >= options {
            let mut e = "questioner selected an unknown option for question ".to_owned();
            e.append(text::decimal_text(at as u64).as_str());
            return Err(e);
        }
        let mut j: usize = 0;
        while j < k
            invariant
                j <= k < selected@.len(),
                index == selected@[k as int],
                index < options,
                forall|m: int| 0 <= m < j ==> selected@[m] != index,
                selected_error(options as nat, selected@, 0, at as nat) == selected_error(
                    options as nat,
                    selected@,
                    k as nat,
                    at as nat,
                ),
            decreases k - j,
        {
            if selected[j] == index {
                proof {
                    assert(selected@.take(k as int)[j as int] == index);
                    assert(selected@.take(k as int).contains(index));
                }
                let mut e = "questioner selected option ".to_owned();
                e.append(text::decimal_text(index as u64).as_str());
                e.append(" twice for question ");
                e.append(text::decimal_text(at as u64).as_str());
                return Err(e);
            }
            j += 1;
        }
        k += 1;
    }
    Ok(())
}

fn validate_free_text(value: &Option<String>, at: usize, name: &str) -> (r: Result<(), String>)
    ensures
        match r {
            Ok(()) => free_text_error(*value, at as nat, name@) is None,
            Err(e) => free_text_error(*value, at as nat, name@) == Some(e@),
        },
{
    match value {
        Some(t) => {
            let mut field = "answers[".to_owned();
            field.append(text::decimal_text(at as u64).as_str());
            field.append(name);
            validate_text(t.as_str(), MAX_FREE_TEXT_CHARS, field.as_str())
        },
        None => Ok(()),
    }
}

fn validate_answer(question: &Question, answer: &QuestionAnswer, at: usize) -> (r: Result<
    (),
    String,
>)
    ensures
        match r {
            Ok(()) => answer_error(*question, *answer, at as nat) is None,
            Err(e) => answer_error(*question, *answer, at as nat) == Some(e@),
        },
{
    if answer.question_index != at {
        let mut e = "questioner answer order drift at index ".to_owned();
        e.append(text::decimal_text(at as u64).as_str());
        return Err(e);
    }
    validate_selected(question.options.len(), &answer.selected, at)?;
    if !question.multi_select && answer.selected.len() > 1 {
        let mut e = "questioner selected multiple options for single-select question ".to_owned();
        e.append(text::decimal_text(at as u64).as_str());
        return Err(e);
    }
    validate_free_text(&answer.other, at, "].other")?;
    validate_free_text(&answer.notes, at, "].notes")?;
    if answer.selected.len() == 0 && answer.other.is_none() && answer.notes.is_none() {
        let mut e =
            "questioner returned no selection, Other text, or notes for question ".to_owned();
        e.append(text::decimal_text(at as u64).as_str());
        return Err(e);
    }
    Ok(())
}

// ---------------------------------------------------------------------------
// Laws
// ---------------------------------------------------------------------------

/// Answers that fit a request come one per question in question order, select
/// only options that exist, each at most once, at most one where the question
/// is single-select, and never say nothing.
pub proof fn law_accepted_answers_fit(request: QuestionRequest, answers: Seq<QuestionAnswer>, i: int)
    requires
        request.answers_error(answers) is None,
        0 <= i < answers.len(),
    ensures
        answers.len() == request.questions@.len(),
        answers[i].question_index == i,
        forall|k: int|
            0 <= k < answers[i].selected@.len() ==> #[trigger] answers[i].selected@[k]
                < request.questions@[i].options@.len(),
        answers[i].selected@.no_duplicates(),
        !request.questions@[i].multi_select ==> answers[i].selected@.len() <= 1,
        answers[i].selected@.len() > 0 || answers[i].other is Some || answers[i].notes is Some,
{
    lemma_answers_ok(request.questions@, answers, 0, i as nat);
    lemma_selected_ok(
        request.questions@[i].options@.len(),
        answers[i].selected@,
        0,
        i as nat,
    );
}

proof fn lemma_answers_ok(
    questions: Seq<Question>,
    answers: Seq<QuestionAnswer>,
    from: nat,
    i: nat,
)
    requires
        answers_error_from(questions, answers, from) is None,
        from <= i < answers.len(),
    ensures
        answer_error(questions[i as int], answers[i as int], i) is None,
    decreases i - from,
{
    if from < i {
        lemma_answers_ok(questions, answers, from + 1, i);
    }
}

proof fn lemma_selected_ok(options: nat, selected: Seq<usize>, from: nat, at: nat)
    requires
        selected_error(options, selected, from, at) is None,
        from <= selected.len(),
        selected.take(from as int).no_duplicates(),
        forall|k: int| 0 <= k < from ==> #[trigger] selected[k] < options,
    ensures
        forall|k: int| 0 <= k < selected.len() ==> #[trigger] selected[k] < options,
        selected.no_duplicates(),
    decreases selected.len() - from,
{
    if from == selected.len() {
        assert(selected.take(from as int) =~= selected);
    } else {
        let before = selected.take(from as int);
        let now = selected.take(from as int + 1);
        assert forall|a: int, b: int| 0 <= a < now.len() && 0 <= b < now.len() && a != b implies now[a]
            != now[b] by {
            if a < from && b < from {
                assert(before[a] != before[b]);
            } else if a < from {
                assert(before.contains(before[a]));
            } else {
                assert(before.contains(before[b]));
            }
        }
        lemma_selected_ok(options, selected, from + 1, at);
    }
}

/// A request that passes has between one and four questions, each with two to
/// four options under distinct labels, previews only where one option may be
/// chosen, and no more characters than the limit.
pub proof fn law_accepted_request_shape(request: QuestionRequest, i: int)
    requires
        request.error() is None,
        0 <= i < request.questions@.len(),
    ensures
        1 <= request.questions@.len() <= 4,
        2 <= request.questions@[i].options@.len() <= 4,
        forall|a: int, b: int|
            0 <= a < b < request.questions@[i].options@.len() ==> (
            #[trigger] request.questions@[i].options@[a]).label@ != (
            #[trigger] request.questions@[i].options@[b]).label@,
        request.questions@[i].multi_select ==> forall|a: int|
            0 <= a < request.questions@[i].options@.len() ==> (
            #[trigger] request.questions@[i].options@[a]).preview is None,
        request.payload_chars() <= MAX_TOTAL_CHARS,
{
    lemma_questions_ok(request.questions@, 0, i as nat);
    let q = request.questions@[i];
    assert forall|a: int, b: int| 0 <= a < b < q.options@.len() implies (
    #[trigger] q.options@[a]).label@ != (#[trigger] q.options@[b]).label@ by {
        lemma_options_ok(q, i as nat, 0, b as nat);
        assert(!label_repeats(q.options@, b));
    }
    if q.multi_select {
        assert forall|a: int| 0 <= a < q.options@.len() implies (
        #[trigger] q.options@[a]).preview is None by {
            lemma_options_ok(q, i as nat, 0, a as nat);
        }
    }
}

proof fn lemma_questions_ok(questions: Seq<Question>, from: nat, i: nat)
    requires
        questions_error(questions, from) is None,
        from <= i < questions.len(),
    ensures
        question_error(questions[i as int], i) is None,
    decreases i - from,
{
    if from < i {
        lemma_questions_ok(questions, from + 1, i);
    }
}

proof fn lemma_options_ok(q: Question, qi: nat, from: nat, i: nat)
    requires
        options_error(q, qi, from) is None,
        from <= i < q.options@.len(),
    ensures
        option_error(q, qi, i) is None,
    decreases i - from,
{
    if from < i {
        lemma_options_ok(q, qi, from + 1, i);
    }
}

/// Whether numbers are the positions below `n` in some order.
pub open spec fn is_order(order: Seq<int>, n: nat) -> bool {
    &&& order.len() == n
    &&& forall|i: int| 0 <= i < n ==> 0 <= #[trigger] order[i] < n
    &&& forall|i: int, j: int| 0 <= i < j < n ==> #[trigger] order[i] != #[trigger] order[j]
}

/// Whether an option is another, with its preview or without it.
pub open spec fn slimmer_option(now: QuestionOption, before: QuestionOption) -> bool {
    &&& now.label@ == before.label@
    &&& now.description@ == before.description@
    &&& match (now.preview, before.preview) {
        (None, _) => true,
        (Some(a), Some(b)) => a@ == b@,
        (Some(_), None) => false,
    }
}

/// Whether a question is another with its options in some order, each with its
/// preview or without it.
pub open spec fn slimmer_question(now: Question, before: Question, order: Seq<int>) -> bool {
    &&& now.question@ == before.question@
    &&& now.header@ == before.header@
    &&& now.multi_select == before.multi_select
    &&& now.options@.len() == before.options@.len()
    &&& is_order(order, now.options@.len())
    &&& forall|i: int|
        0 <= i < now.options@.len() ==> slimmer_option(
            #[trigger] now.options@[i],
            before.options@[order[i]],
        )
}

/// Whether a request is another with its questions and their options in some
/// order, with any of the previews or the metadata left out.
pub open spec fn slimmer_request(
    now: QuestionRequest,
    before: QuestionRequest,
    order: Seq<int>,
    option_orders: Seq<Seq<int>>,
) -> bool {
    &&& now.questions@.len() == before.questions@.len()
    &&& is_order(order, now.questions@.len())
    &&& forall|i: int|
        0 <= i < now.questions@.len() ==> slimmer_question(
            #[trigger] now.questions@[i],
            before.questions@[order[i]],
            option_orders[i],
        )
    &&& now.source() is None || now.source() == before.source()
}

/// Whether a text is neither blank nor too long.
spec fn text_fits(value: Seq<char>, max: nat) -> bool {
    !text::blank(value) && value.len() <= max
}

/// Whether nothing is wrong with an option but, perhaps, its label's twin.
spec fn option_fits(option: QuestionOption, multi_select: bool) -> bool {
    &&& text_fits(option.label@, MAX_LABEL_CHARS as nat)
    &&& text_fits(option.description@, MAX_DESCRIPTION_CHARS as nat)
    &&& option.preview matches Some(preview) ==> !multi_select && text_fits(
        preview@,
        MAX_PREVIEW_CHARS as nat,
    )
}

/// Whether nothing is wrong with a question, wherever it stands.
spec fn question_fits(q: Question) -> bool {
    &&& text_fits(q.question@, MAX_QUESTION_CHARS as nat)
    &&& text_fits(q.header@, MAX_HEADER_CHARS as nat)
    &&& 2 <= q.options@.len() <= 4
    &&& forall|i: int|
        0 <= i < q.options@.len() ==> option_fits(#[trigger] q.options@[i], q.multi_select)
    &&& forall|a: int, b: int|
        0 <= a < b < q.options@.len() ==> (#[trigger] q.options@[a]).label@ != (
        #[trigger] q.options@[b]).label@
}

proof fn lemma_options_fit(q: Question, qi: nat, oi: nat)
    requires
        oi <= q.options@.len(),
        forall|i: int|
            oi <= i < q.options@.len() ==> option_fits(#[trigger] q.options@[i], q.multi_select),
        forall|a: int, b: int|
            0 <= a < b < q.options@.len() ==> (#[trigger] q.options@[a]).label@ != (
            #[trigger] q.options@[b]).label@,
    ensures
        options_error(q, qi, oi) is None,
    decreases q.options@.len() - oi,
{
    if oi < q.options@.len() {
        assert(option_fits(q.options@[oi as int], q.multi_select));
        assert(!label_repeats(q.options@, oi as int));
        lemma_options_fit(q, qi, oi + 1);
    }
}

proof fn lemma_question_fits(q: Question, qi: nat)
    ensures
        question_error(q, qi) is None <==> question_fits(q),
{
    if question_fits(q) {
        lemma_options_fit(q, qi, 0);
    }
    if question_error(q, qi) is None {
        assert forall|i: int| 0 <= i < q.options@.len() implies option_fits(
            #[trigger] q.options@[i],
            q.multi_select,
        ) by {
            lemma_options_ok(q, qi, 0, i as nat);
        }
        assert forall|a: int, b: int| 0 <= a < b < q.options@.len() implies (
        #[trigger] q.options@[a]).label@ != (#[trigger] q.options@[b]).label@ by {
            lemma_options_ok(q, qi, 0, b as nat);
            assert(!label_repeats(q.options@, b));
        }
    }
}

proof fn lemma_questions_fit(questions: Seq<Question>, qi: nat)
    requires
        qi <= questions.len(),
        forall|i: int| qi <= i < questions.len() ==> question_fits(#[trigger] questions[i]),
    ensures
        questions_error(questions, qi) is None,
    decreases questions.len() - qi,
{
    if qi < questions.len() {
        lemma_question_fits(questions[qi as int], qi);
        lemma_questions_fit(questions, qi + 1);
    }
}

/// The sum of the first `n` numbers.
spec fn sum_of(s: Seq<nat>, n: nat) -> nat
    decreases n,
{
    if n == 0 {
        0
    } else {
        sum_of(s, (n - 1) as nat) + s[n - 1]
    }
}

/// Numbers that are no larger than others, in some order, sum to no more.
proof fn lemma_order_sum(now: Seq<nat>, before: Seq<nat>, order: Seq<int>)
    requires
        now.len() == before.len() <= 4,
        is_order(order, now.len()),
        forall|i: int| 0 <= i < now.len() ==> #[trigger] now[i] <= before[order[i]],
    ensures
        sum_of(now, now.len()) <= sum_of(before, before.len()),
{
    let n = now.len();
    reveal_with_fuel(sum_of, 5);
    assert forall|i: int| 0 <= i < n implies (#[trigger] order[i] == 0 || order[i] == 1 || order[i]
        == 2 || order[i] == 3) && now[i] <= before[order[i]] by {}
    if n >= 1 {
        assert(0 <= order[0] < n && now[0] <= before[order[0]]);
    }
    if n >= 2 {
        assert(0 <= order[1] < n && now[1] <= before[order[1]] && order[0] != order[1]);
    }
    if n >= 3 {
        assert(0 <= order[2] < n && now[2] <= before[order[2]]);
        assert(order[0] != order[2] && order[1] != order[2]);
    }
    if n >= 4 {
        assert(0 <= order[3] < n && now[3] <= before[order[3]]);
        assert(order[0] != order[3] && order[1] != order[3] && order[2] != order[3]);
    }
}

spec fn chars_of_options(options: Seq<QuestionOption>) -> Seq<nat> {
    Seq::new(options.len(), |i: int| option_chars(options[i]))
}

spec fn question_chars(q: Question) -> nat {
    q.question@.len() + q.header@.len() + options_chars(q.options@, q.options@.len())
}

spec fn chars_of_questions(questions: Seq<Question>) -> Seq<nat> {
    Seq::new(questions.len(), |i: int| question_chars(questions[i]))
}

proof fn lemma_options_sum(options: Seq<QuestionOption>, n: nat)
    requires
        n <= options.len(),
    ensures
        options_chars(options, n) == sum_of(chars_of_options(options), n),
    decreases n,
{
    if n > 0 {
        lemma_options_sum(options, (n - 1) as nat);
    }
}

proof fn lemma_questions_sum(questions: Seq<Question>, n: nat)
    requires
        n <= questions.len(),
    ensures
        questions_chars(questions, n) == sum_of(chars_of_questions(questions), n),
    decreases n,
{
    if n > 0 {
        lemma_questions_sum(questions, (n - 1) as nat);
    }
}

proof fn lemma_slimmer_question(now: Question, before: Question, order: Seq<int>)
    requires
        slimmer_question(now, before, order),
        question_fits(before),
    ensures
        question_fits(now),
        question_chars(now) <= question_chars(before),
{
    assert forall|i: int| 0 <= i < now.options@.len() implies option_fits(
        #[trigger] now.options@[i],
        now.multi_select,
    ) && chars_of_options(now.options@)[i] <= chars_of_options(before.options@)[order[i]] by {
        assert(slimmer_option(now.options@[i], before.options@[order[i]]));
        assert(option_fits(before.options@[order[i]], before.multi_select));
    }
    assert forall|a: int, b: int| 0 <= a < b < now.options@.len() implies (
    #[trigger] now.options@[a]).label@ != (#[trigger] now.options@[b]).label@ by {
        assert(slimmer_option(now.options@[a], before.options@[order[a]]));
        assert(slimmer_option(now.options@[b], before.options@[order[b]]));
        assert(order[a] != order[b]);
        if order[a] < order[b] {
            assert(before.options@[order[a]].label@ != before.options@[order[b]].label@);
        } else {
            assert(before.options@[order[b]].label@ != before.options@[order[a]].label@);
        }
    }
    lemma_options_sum(now.options@, now.options@.len());
    lemma_options_sum(before.options@, before.options@.len());
    assert forall|i: int| 0 <= i < now.options@.len() implies #[trigger] chars_of_options(
        now.options@,
    )[i] <= chars_of_options(before.options@)[order[i]] by {
        assert(slimmer_option(now.options@[i], before.options@[order[i]]));
    }
    lemma_order_sum(chars_of_options(now.options@), chars_of_options(before.options@), order);
}

/// A request that passes still passes with any of its previews or its metadata
/// left out, and with its questions, and the options inside them, in any order.
pub proof fn law_slimmer_requests_pass(
    now: QuestionRequest,
    before: QuestionRequest,
    order: Seq<int>,
    option_orders: Seq<Seq<int>>,
)
    requires
        before.error() is None,
        slimmer_request(now, before, order, option_orders),
    ensures
        now.error() is None,
{
    let old_questions = before.questions@;
    let new_questions = now.questions@;
    assert forall|i: int| 0 <= i < new_questions.len() implies question_fits(
        #[trigger] new_questions[i],
    ) by {
        lemma_questions_ok(old_questions, 0, order[i] as nat);
        lemma_question_fits(old_questions[order[i]], order[i] as nat);
        lemma_slimmer_question(new_questions[i], old_questions[order[i]], option_orders[i]);
    }
    assert forall|i: int| 0 <= i < new_questions.len() implies #[trigger] chars_of_questions(
        new_questions,
    )[i] <= chars_of_questions(old_questions)[order[i]] by {
        lemma_questions_ok(old_questions, 0, order[i] as nat);
        lemma_question_fits(old_questions[order[i]], order[i] as nat);
        lemma_slimmer_question(new_questions[i], old_questions[order[i]], option_orders[i]);
    }
    lemma_questions_fit(new_questions, 0);
    lemma_questions_sum(new_questions, new_questions.len());
    lemma_questions_sum(old_questions, old_questions.len());
    lemma_order_sum(chars_of_questions(new_questions), chars_of_questions(old_questions), order);
}

// ---------------------------------------------------------------------------
// What is accepted
// ---------------------------------------------------------------------------

/// Whether a text says something, within a number of characters.
pub open spec fn says_something(value: Seq<char>, max: nat) -> bool {
    &&& value.len() <= max
    &&& exists|i: int| 0 <= i < value.len() && !text::white_space(#[trigger] value[i])
}

/// Whether a question can be asked: it and its header say something, it has two to
/// four options, each with a label of its own and a description, and previews only
/// where one option is to be picked.
pub open spec fn can_be_asked(q: Question) -> bool {
    &&& says_something(q.question@, 1_000)
    &&& says_something(q.header@, 12)
    &&& 2 <= q.options@.len() <= 4
    &&& forall|i: int|
        0 <= i < q.options@.len() ==> {
            &&& says_something((#[trigger] q.options@[i]).label@, 100)
            &&& says_something(q.options@[i].description@, 2_000)
            &&& q.options@[i].preview matches Some(preview) ==> !q.multi_select && says_something(
                preview@,
                10_000,
            )
        }
    &&& forall|a: int, b: int|
        0 <= a < b < q.options@.len() ==> (#[trigger] q.options@[a]).label@ != (
        #[trigger] q.options@[b]).label@
}

proof fn lemma_says_something(value: Seq<char>, max: nat)
    ensures
        says_something(value, max) <==> text_fits(value, max),
{
}

proof fn lemma_can_be_asked(q: Question)
    ensures
        can_be_asked(q) <==> question_fits(q),
{
    if can_be_asked(q) {
        assert forall|i: int| 0 <= i < q.options@.len() implies option_fits(
            #[trigger] q.options@[i],
            q.multi_select,
        ) by {
            assert(says_something(q.options@[i].label@, 100));
        }
    }
    if question_fits(q) {
        assert forall|i: int| 0 <= i < q.options@.len() implies ({
            &&& says_something((#[trigger] q.options@[i]).label@, 100)
            &&& says_something(q.options@[i].description@, 2_000)
            &&& q.options@[i].preview matches Some(preview) ==> !q.multi_select && says_something(
                preview@,
                10_000,
            )
        }) by {
            assert(option_fits(q.options@[i], q.multi_select));
        }
    }
}

/// A request is accepted exactly where it has one to four questions that can be asked,
/// says something about where it came from if it says so at all, and is not too large
/// as a whole.
pub proof fn law_when_a_request_is_accepted(request: QuestionRequest)
    ensures
        request.error() is None <==> {
            &&& 1 <= request.questions@.len() <= 4
            &&& forall|i: int|
                0 <= i < request.questions@.len() ==> can_be_asked(#[trigger] request.questions@[i])
            &&& request.metadata matches Some(metadata) ==> (metadata.source matches Some(source)
                ==> says_something(source@, 200))
            &&& request.payload_chars() <= 50_000
        },
{
    let questions = request.questions@;
    assert forall|i: int| 0 <= i < questions.len() implies (can_be_asked(#[trigger] questions[i])
        <==> question_error(questions[i], i as nat) is None) by {
        lemma_can_be_asked(questions[i]);
        lemma_question_fits(questions[i], i as nat);
    }
    if request.error() is None {
        assert forall|i: int| 0 <= i < questions.len() implies can_be_asked(
            #[trigger] questions[i],
        ) by {
            lemma_questions_ok(questions, 0, i as nat);
        }
    }
    if forall|i: int| 0 <= i < questions.len() ==> can_be_asked(#[trigger] questions[i]) {
        assert forall|i: int| 0 <= i < questions.len() implies question_fits(
            #[trigger] questions[i],
        ) by {
            lemma_can_be_asked(questions[i]);
        }
        lemma_questions_fit(questions, 0);
    }
}

proof fn lemma_first_bad_question(questions: Seq<Question>, from: nat, i: nat)
    requires
        from <= i < questions.len(),
        forall|k: int| from <= k < i ==> can_be_asked(#[trigger] questions[k]),
        !can_be_asked(questions[i as int]),
    ensures
        questions_error(questions, from) == question_error(questions[i as int], i),
        question_error(questions[i as int], i) is Some,
    decreases i - from,
{
    lemma_can_be_asked(questions[from as int]);
    lemma_question_fits(questions[from as int], from);
    if from < i {
        lemma_first_bad_question(questions, from + 1, i);
    }
}

/// The complaint is about the first question that cannot be asked, and begins with its
/// place.
pub proof fn law_the_first_bad_question_is_named(request: QuestionRequest, i: int)
    requires
        1 <= request.questions@.len() <= 4,
        0 <= i < request.questions@.len(),
        forall|k: int| 0 <= k < i ==> can_be_asked(#[trigger] request.questions@[k]),
        !can_be_asked(request.questions@[i]),
    ensures
        request.error() is Some,
        text::starts_with(
            request.error()->0,
            "questions["@ + text::decimal(i as nat) + "]"@,
        ),
{
    lemma_first_bad_question(request.questions@, 0, i as nat);
    let q = request.questions@[i];
    let field = question_field(i as nat);
    lemma_options_complaint(q, i as nat, 0);
    lemma_starts(field, ".question"@, " must not be empty"@);
    lemma_starts_long(field, ".question"@, MAX_QUESTION_CHARS as nat);
    lemma_starts(field, ".header"@, " must not be empty"@);
    lemma_starts_long(field, ".header"@, MAX_HEADER_CHARS as nat);
    lemma_starts(field, ".options must contain between 2 and 4 items"@, Seq::empty());
    assert(field + ".options must contain between 2 and 4 items"@ + Seq::<char>::empty() =~= field
        + ".options must contain between 2 and 4 items"@);
}

proof fn lemma_starts(field: Seq<char>, a: Seq<char>, b: Seq<char>)
    ensures
        text::starts_with(field + a + b, field),
{
    assert((field + a + b).take(field.len() as int) =~= field);
}

proof fn lemma_starts_long(field: Seq<char>, a: Seq<char>, max: nat)
    ensures
        text::starts_with(
            field + a + " exceeds the "@ + text::decimal(max) + "-character limit"@,
            field,
        ),
{
    assert((field + a + " exceeds the "@ + text::decimal(max) + "-character limit"@).take(
        field.len() as int,
    ) =~= field);
}

proof fn lemma_text_complaint(value: Seq<char>, max: nat, whole: Seq<char>, field: Seq<char>)
    requires
        text::starts_with(whole, field),
    ensures
        text_error(value, max, whole) matches Some(e) ==> text::starts_with(e, field),
{
    let a = whole + " must not be empty"@;
    let b = whole + " exceeds the "@ + text::decimal(max) + "-character limit"@;
    assert(whole.take(field.len() as int) == field);
    assert(a.take(field.len() as int) =~= whole.take(field.len() as int));
    assert(b.take(field.len() as int) =~= whole.take(field.len() as int));
}

proof fn lemma_options_complaint(q: Question, qi: nat, oi: nat)
    ensures
        options_error(q, qi, oi) matches Some(e) ==> text::starts_with(e, question_field(qi)),
    decreases q.options@.len() - oi,
{
    if oi < q.options@.len() {
        lemma_options_complaint(q, qi, oi + 1);
        let field = question_field(qi);
        let part = option_field(qi, oi);
        let option = q.options@[oi as int];
        assert(part.take(field.len() as int) =~= field);
        assert((part + ".label"@).take(field.len() as int) =~= field);
        assert((part + ".description"@).take(field.len() as int) =~= field);
        assert((part + ".preview"@).take(field.len() as int) =~= field);
        lemma_text_complaint(option.label@, MAX_LABEL_CHARS as nat, part + ".label"@, field);
        lemma_text_complaint(
            option.description@,
            MAX_DESCRIPTION_CHARS as nat,
            part + ".description"@,
            field,
        );
        if option.preview is Some {
            lemma_text_complaint(
                option.preview->0@,
                MAX_PREVIEW_CHARS as nat,
                part + ".preview"@,
                field,
            );
        }
        let twice = field + ".options contains duplicate label "@ + debug_form(option.label@);
        assert(twice.take(field.len() as int) =~= field);
        let previews = field + " cannot use previews with multiSelect"@;
        assert(previews.take(field.len() as int) =~= field);
    }
}

/// Whether an answer fits its question: it names it, picks options that exist, none
/// twice and no more than one where one is to be picked, says something wherever it
/// writes, and is not empty.
pub open spec fn answers_the_question(q: Question, answer: QuestionAnswer, at: int) -> bool {
    &&& answer.question_index == at
    &&& forall|k: int|
        0 <= k < answer.selected@.len() ==> #[trigger] answer.selected@[k] < q.options@.len()
    &&& forall|k: int, l: int|
        0 <= k < l < answer.selected@.len() ==> #[trigger] answer.selected@[k]
            != #[trigger] answer.selected@[l]
    &&& q.multi_select || answer.selected@.len() <= 1
    &&& answer.other matches Some(other) ==> says_something(other@, 10_000)
    &&& answer.notes matches Some(notes) ==> says_something(notes@, 10_000)
    &&& answer.selected@.len() > 0 || answer.other is Some || answer.notes is Some
}

proof fn lemma_selected_fits(options: nat, selected: Seq<usize>, from: nat, at: nat)
    requires
        from <= selected.len(),
        forall|k: int| 0 <= k < selected.len() ==> #[trigger] selected[k] < options,
        forall|k: int, l: int|
            0 <= k < l < selected.len() ==> #[trigger] selected[k] != #[trigger] selected[l],
    ensures
        selected_error(options, selected, from, at) is None,
    decreases selected.len() - from,
{
    if from < selected.len() {
        let before = selected.take(from as int);
        if before.contains(selected[from as int]) {
            let k = choose|k: int| 0 <= k < before.len() && before[k] == selected[from as int];
            assert(selected[k] == selected[from as int]);
        }
        lemma_selected_fits(options, selected, from + 1, at);
    }
}

proof fn lemma_answer_fits(q: Question, answer: QuestionAnswer, at: nat)
    ensures
        answer_error(q, answer, at) is None <==> answers_the_question(q, answer, at as int),
{
    let selected = answer.selected@;
    if answers_the_question(q, answer, at as int) {
        lemma_selected_fits(q.options@.len(), selected, 0, at);
    }
    if answer_error(q, answer, at) is None {
        lemma_selected_ok(q.options@.len(), selected, 0, at);
    }
}

proof fn lemma_answers_fit(questions: Seq<Question>, answers: Seq<QuestionAnswer>, i: nat)
    requires
        i <= answers.len(),
        forall|k: int|
            i <= k < answers.len() ==> answers_the_question(
                questions[k],
                #[trigger] answers[k],
                k,
            ),
    ensures
        answers_error_from(questions, answers, i) is None,
    decreases answers.len() - i,
{
    if i < answers.len() {
        lemma_answer_fits(questions[i as int], answers[i as int], i);
        assert(answers_the_question(questions[i as int], answers[i as int], i as int));
        lemma_answers_fit(questions, answers, i + 1);
    }
}

/// Answers are accepted exactly where there is one for each question, in order, and
/// each fits.
pub proof fn law_when_answers_are_accepted(
    request: QuestionRequest,
    answers: Seq<QuestionAnswer>,
)
    ensures
        request.answers_error(answers) is None <==> {
            &&& answers.len() == request.questions@.len()
            &&& forall|i: int|
                0 <= i < answers.len() ==> answers_the_question(
                    request.questions@[i],
                    #[trigger] answers[i],
                    i,
                )
        },
{
    let questions = request.questions@;
    if request.answers_error(answers) is None {
        assert forall|i: int| 0 <= i < answers.len() implies answers_the_question(
            questions[i],
            #[trigger] answers[i],
            i,
        ) by {
            lemma_answers_ok(questions, answers, 0, i as nat);
            lemma_answer_fits(questions[i], answers[i], i as nat);
        }
    } else if answers.len() == questions.len() {
        if forall|i: int|
            0 <= i < answers.len() ==> answers_the_question(
                questions[i],
                #[trigger] answers[i],
                i,
            ) {
            lemma_answers_fit(questions, answers, 0);
        }
    }
}

/// The size of a request is that of all the texts that the user would see.
pub proof fn law_every_text_counts(request: QuestionRequest, options: Seq<QuestionOption>, n: nat)
    requires
        0 < n <= options.len(),
        request.questions@.len() > 0,
    ensures
        options_chars(options, n) == options_chars(options, (n - 1) as nat) + options[n
            - 1].label@.len() + options[n - 1].description@.len() + (match options[n - 1].preview {
            Some(preview) => preview@.len(),
            None => 0,
        }),
        options_chars(options, 0) == 0,
        ({
            let last = request.questions@.last();
            let before = request.questions@.len() - 1;
            questions_chars(request.questions@, request.questions@.len()) == questions_chars(
                request.questions@,
                before as nat,
            ) + last.question@.len() + last.header@.len() + options_chars(
                last.options@,
                last.options@.len(),
            )
        }),
        questions_chars(request.questions@, 0) == 0,
        request.metadata is None ==> request.payload_chars() == questions_chars(
            request.questions@,
            request.questions@.len(),
        ),
        request.metadata matches Some(m) ==> (m.source matches Some(source)
            ==> request.payload_chars() == questions_chars(
            request.questions@,
            request.questions@.len(),
        ) + source@.len()),
{
}

/// What is said of a text that cannot be taken: that it is empty, or how long it may be.
pub proof fn law_what_is_said_of_a_text(value: Seq<char>, max: nat, field: Seq<char>)
    ensures
        text::blank(value) ==> text_error(value, max, field) == Some(field + " must not be empty"@),
        !text::blank(value) && value.len() > max ==> text_error(value, max, field) == Some(
            field + " exceeds the "@ + text::decimal(max) + "-character limit"@,
        ),
        !text::blank(value) && value.len() <= max ==> text_error(value, max, field) is None,
{
}

/// The complaint about answers is about the first that does not fit, or about their
/// number.
pub proof fn law_the_first_bad_answer_is_named(
    request: QuestionRequest,
    answers: Seq<QuestionAnswer>,
    i: int,
)
    requires
        answers.len() == request.questions@.len(),
        0 <= i < answers.len(),
        forall|k: int|
            0 <= k < i ==> answers_the_question(request.questions@[k], #[trigger] answers[k], k),
        !answers_the_question(request.questions@[i], answers[i], i),
    ensures
        request.answers_error(answers) == answer_error(
            request.questions@[i],
            answers[i],
            i as nat,
        ),
        answers[i].question_index != i ==> request.answers_error(answers) == Some(
            "questioner answer order drift at index "@ + text::decimal(i as nat),
        ),
{
    lemma_first_bad_answer(request.questions@, answers, 0, i as nat);
}

proof fn lemma_first_bad_answer(
    questions: Seq<Question>,
    answers: Seq<QuestionAnswer>,
    from: nat,
    i: nat,
)
    requires
        from <= i < answers.len(),
        forall|k: int|
            from <= k < i ==> answers_the_question(questions[k], #[trigger] answers[k], k),
        !answers_the_question(questions[i as int], answers[i as int], i as int),
    ensures
        answers_error_from(questions, answers, from) == answer_error(
            questions[i as int],
            answers[i as int],
            i,
        ),
    decreases i - from,
{
    lemma_answer_fits(questions[from as int], answers[from as int], from);
    if from < i {
        assert(answers_the_question(questions[from as int], answers[from as int], from as int));
        lemma_first_bad_answer(questions, answers, from + 1, i);
    }
}

} // verus!

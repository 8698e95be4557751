use kloop_core::interaction::{
    Question, QuestionAnswer, QuestionMetadata, QuestionOption, QuestionRequest,
};

fn request(multi_select: bool, preview: Option<&str>) -> QuestionRequest {
    QuestionRequest {
        questions: vec![Question {
            question: "Which option?".into(),
            header: "Choice".into(),
            options: vec![
                QuestionOption {
                    label: "A".into(),
                    description: "first".into(),
                    preview: preview.map(str::to_string),
                },
                QuestionOption { label: "B".into(), description: "second".into(), preview: None },
            ],
            multi_select,
        }],
        metadata: None,
    }
}

fn answer(selected: Vec<usize>) -> QuestionAnswer {
    QuestionAnswer { question_index: 0, selected, other: None, notes: None }
}

#[test]
fn validates_request_and_answer_contract() {
    let req = request(false, Some("A preview"));
    assert_eq!(req.validate(), Ok(()));
    assert_eq!(
        req.validate_answers(&[QuestionAnswer {
            question_index: 0,
            selected: vec![0],
            other: None,
            notes: Some("ship it".into()),
        }]),
        Ok(())
    );
}

#[test]
fn rejects_preview_on_multi_select_and_bad_answer_indices() {
    let req = request(true, Some("preview"));
    assert!(req.validate().unwrap_err().contains("previews"));

    let req = request(false, None);
    assert!(req
        .validate_answers(&[QuestionAnswer {
            question_index: 0,
            selected: vec![9],
            other: None,
            notes: None,
        }])
        .unwrap_err()
        .contains("unknown option"));
}

#[test]
fn a_valid_request_stays_valid_slimmer_and_in_any_order() {
    let mut full = request(false, Some("A preview"));
    let mut second = full.questions[0].clone();
    second.question = "And then?".into();
    full.questions.push(second);
    full.metadata = Some(QuestionMetadata { source: Some("plan".into()) });
    assert_eq!(full.validate(), Ok(()));
    let mut slim = full.clone();
    slim.questions.reverse();
    slim.questions[0].options.reverse();
    slim.questions[1].options[0].preview = None;
    slim.metadata = None;
    assert_eq!(slim.validate(), Ok(()));
}

#[test]
fn every_request_complaint_names_its_field() {
    let error = |edit: fn(&mut QuestionRequest)| {
        let mut req = request(false, None);
        edit(&mut req);
        req.validate().unwrap_err()
    };
    assert_eq!(
        error(|r| r.questions.clear()),
        "questions must contain between 1 and 4 items"
    );
    assert_eq!(
        error(|r| r.questions[0].question = " \t".into()),
        "questions[0].question must not be empty"
    );
    assert_eq!(
        error(|r| r.questions[0].header = "thirteen char".into()),
        "questions[0].header exceeds the 12-character limit"
    );
    assert_eq!(
        error(|r| r.questions[0].options.truncate(1)),
        "questions[0].options must contain between 2 and 4 items"
    );
    assert_eq!(
        error(|r| r.questions[0].options[1].label = "x".repeat(101)),
        "questions[0].options[1].label exceeds the 100-character limit"
    );
    assert_eq!(
        error(|r| r.questions[0].options[1].description = String::new()),
        "questions[0].options[1].description must not be empty"
    );
    assert_eq!(
        error(|r| {
            r.questions[0].options[0].label = "say \"hi\"\n".into();
            r.questions[0].options[1].label = "say \"hi\"\n".into();
        }),
        "questions[0].options contains duplicate label \"say \\\"hi\\\"\\n\""
    );
    assert_eq!(
        error(|r| r.questions[0].options[0].preview = Some("y".repeat(10_001))),
        "questions[0].options[0].preview exceeds the 10000-character limit"
    );
    assert_eq!(
        error(|r| r.metadata = Some(QuestionMetadata { source: Some("  ".into()) })),
        "metadata.source must not be empty"
    );
}

#[test]
fn the_payload_limit_counts_every_text() {
    let mut req = request(false, None);
    let extra = req.questions[0].clone();
    req.questions.push(extra.clone());
    req.questions.push(extra);
    for question in &mut req.questions {
        for option in &mut question.options {
            option.preview = Some("p".repeat(10_000));
        }
    }
    assert_eq!(
        req.validate().unwrap_err(),
        "question payload exceeds the 50000-character limit"
    );
    req.questions.pop();
    assert_eq!(req.validate(), Ok(()));
}

#[test]
fn every_answer_complaint_names_its_question() {
    let single = request(false, None);
    let multi = request(true, None);
    assert_eq!(
        single.validate_answers(&[]).unwrap_err(),
        "questioner returned 0 answers for 1 questions"
    );
    let mut drifted = answer(vec![0]);
    drifted.question_index = 3;
    assert_eq!(
        single.validate_answers(&[drifted]).unwrap_err(),
        "questioner answer order drift at index 0"
    );
    assert_eq!(
        multi.validate_answers(&[answer(vec![1, 0, 1])]).unwrap_err(),
        "questioner selected option 1 twice for question 0"
    );
    assert_eq!(
        single.validate_answers(&[answer(vec![1, 0])]).unwrap_err(),
        "questioner selected multiple options for single-select question 0"
    );
    assert_eq!(multi.validate_answers(&[answer(vec![1, 0])]), Ok(()));
    assert_eq!(
        single.validate_answers(&[answer(vec![])]).unwrap_err(),
        "questioner returned no selection, Other text, or notes for question 0"
    );
    let mut other = answer(vec![]);
    other.other = Some(" ".into());
    assert_eq!(
        single.validate_answers(&[other]).unwrap_err(),
        "answers[0].other must not be empty"
    );
    let mut notes = answer(vec![]);
    notes.notes = Some("n".repeat(10_001));
    assert_eq!(
        single.validate_answers(&[notes]).unwrap_err(),
        "answers[0].notes exceeds the 10000-character limit"
    );
}

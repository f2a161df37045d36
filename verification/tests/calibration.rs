use agentos_core::prompt::calibration::{
    corpus, report_markdown, Calibration, ReportFigures, Sample,
};
use agentos_core::prompt::tokens;

#[test]
fn every_case_has_a_distinct_id_and_some_content() {
    let corpus = corpus();
    let mut ids: Vec<&str> = corpus.iter().map(|case| case.id).collect();
    ids.sort_unstable();
    let distinct = ids.len();
    ids.dedup();
    assert_eq!(
        distinct,
        ids.len(),
        "case ids must be unique: they key the record"
    );
    for case in &corpus {
        assert!(!case.messages.is_empty(), "{} has no messages", case.id);
        assert!(case.estimated_tokens() > 0, "{} estimates zero", case.id);
    }
}

#[test]
fn the_corpus_covers_both_character_classes() {
    let corpus = corpus();
    let wide: usize = corpus
        .iter()
        .flat_map(|case| case.messages.iter())
        .flat_map(|message| message.content.chars())
        .filter(|character| !character.is_ascii())
        .count();
    assert!(wide > 200, "only {wide} wide characters in the corpus");
}

#[test]
fn the_estimate_matches_what_assemble_would_record() {
    let case = corpus()
        .into_iter()
        .find(|case| case.id == "tool_schemas")
        .expect("the corpus has a tool case");
    let expected = case
        .messages
        .iter()
        .map(tokens::estimate_message)
        .sum::<usize>()
        + tokens::estimate_tool_specs(&case.tools);
    assert_eq!(case.estimated_tokens(), expected);
    assert!(
        tokens::estimate_tool_specs(&case.tools) > 100,
        "the tool schemas should dominate this case"
    );
    assert_eq!(case.try_estimated_tokens(), Some(expected));
}

fn sample(case: &str, estimated: usize, actual: u64) -> Sample {
    Sample {
        case: case.to_owned(),
        chars: 0,
        messages: 1,
        tools: 0,
        estimated_tokens: estimated,
        actual_tokens: actual,
    }
}

fn error_percent(sample: &Sample) -> f64 {
    if sample.actual_tokens == 0 {
        return 0.0;
    }
    let actual = sample.actual_tokens as f64;
    (sample.estimated_tokens as f64 - actual) / actual * 100.0
}

#[test]
fn the_report_names_every_case_it_recorded() {
    let calibration = Calibration {
        provider: "deepseek".to_owned(),
        model: "deepseek-chat".to_owned(),
        recorded_at: "2026-08-17".to_owned(),
        samples: vec![sample("minimal", 5, 6)],
    };
    let error = error_percent(&calibration.samples[0]);
    let figures = ReportFigures {
        within_target: 0,
        target: "15".to_owned(),
        median_abs: format!("{:.1}", error.abs()),
        mean_error: format!("{error:+.1}"),
        worst_over: "+0.0".to_owned(),
        worst_under: format!("{error:+.1}"),
        errors: vec![format!("{error:+.1}")],
    };
    let report = report_markdown(&calibration, &figures);
    assert!(report.contains("| `minimal` |"));
    assert!(report.contains("deepseek-chat"));
    // The notes explain what a class is, so a reader of the table knows what
    // "mixed_scripts" was.
    assert!(report.contains("**`mixed_scripts`**"));
    assert!(report.starts_with("Recorded 2026-08-17 against `deepseek-chat` on `deepseek`.\n\n"));
    assert!(report.contains("| `minimal` | 0 | 5 | 6 | -16.7% |\n"));
    assert!(report.contains("**0 of 1 cases within ±15%.** Median absolute error 16.7%"));
}

#[test]
fn the_corpus_is_fingerprinted_by_its_characters() {
    let corpus = corpus();
    assert_eq!(corpus[0].chars(), 4);
    assert_eq!(corpus.len(), 8);
    assert_eq!(corpus[0].estimated_tokens(), 5);
}

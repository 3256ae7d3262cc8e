use inkify::classifier::ModelRun;
use inkify::config::Config;
use inkify::detect::detection_report;
use inkify::detect::first_line_of;
use inkify::detect::language_from_classifier;
use inkify::detect::ClassifierOutcome;
use inkify::error::ConfigError;
use inkify::scores::Percent;
use inkify::scores::Prediction;
use inkify::scores::RankedScore;
use inkify::scores::ScoreMap;
use inkify::syntax::SyntaxDb;
use syntect::parsing::SyntaxDefinition;
use syntect::parsing::SyntaxSet;
use syntect::parsing::SyntaxSetBuilder;

fn definition(name: &str, extension: &str, first_line: Option<&str>) -> SyntaxDefinition {
    let first_line = match first_line {
        Some(pattern) => format!("first_line_match: '{}'\n", pattern),
        None => String::new(),
    };
    let text = format!(
        "%YAML 1.2\n---\nname: {}\nfile_extensions: [{}]\n{}scope: source.{}\ncontexts:\n  main:\n    - match: 'x'\n      scope: keyword.{}\n",
        name, extension, first_line, extension, extension
    );
    SyntaxDefinition::load_from_str(&text, true, None).unwrap()
}

fn small_set(with_log: bool) -> SyntaxSet {
    let mut builder = SyntaxSetBuilder::new();
    builder.add(definition("Rust", "rs", None));
    builder.add(definition("Python", "py", Some("^#!.*\\bpython[0-9.]*\\b")));
    builder.add(definition("Ruby", "rb", Some("^#!.*\\bruby\\b")));
    if with_log {
        builder.add(definition("Log", "log", None));
    }
    builder.build()
}

fn small_db() -> SyntaxDb {
    SyntaxDb::new(small_set(true)).unwrap()
}

fn code(text: &str, language: Option<&str>) -> Config {
    let mut cfg = Config::default();
    cfg.code = text.to_string();
    cfg.language = language.map(|l| l.to_string());
    cfg
}

fn scores(entries: &[(&str, i64)]) -> ClassifierOutcome {
    ClassifierOutcome::Scores(ScoreMap::from_entries(
        entries.iter().map(|(l, s)| Prediction { label: l.to_string(), score: *s }).collect(),
    ))
}

fn name_of(cfg: &Config, db: &SyntaxDb, classifier: &ClassifierOutcome) -> String {
    cfg.language(db, classifier).unwrap().name.clone()
}

#[test]
fn shebang_resolves_by_first_line_without_the_classifier() {
    let db = SyntaxDb::new(SyntaxSet::load_defaults_newlines()).unwrap();
    let cfg = code("#!/usr/bin/env python\nprint(1)", None);
    let early = cfg.language_without_classifier(&db).unwrap();
    assert_eq!(early.unwrap().name, "Python");
    assert_eq!(name_of(&cfg, &db, &ClassifierOutcome::Unavailable), "Python");
    assert_eq!(name_of(&cfg, &db, &ClassifierOutcome::Failed), "Python");
    assert_eq!(name_of(&cfg, &db, &scores(&[("rs", 100), ("py", 1)])), "Python");
}

#[test]
fn first_line_match_in_a_small_set() {
    let db = small_db();
    let cfg = code("#!/usr/bin/ruby\nputs 1\n", None);
    assert_eq!(cfg.language_without_classifier(&db).unwrap().unwrap().name, "Ruby");
    assert_eq!(name_of(&cfg, &db, &scores(&[("rs", 5)])), "Ruby");
    let cfg = code("#!/usr/bin/env python3\r\nprint(1)\r\n", None);
    assert_eq!(name_of(&cfg, &db, &ClassifierOutcome::Unavailable), "Python");
    let cfg = code("print(1)\n#!/usr/bin/env python\n", None);
    assert!(cfg.language_without_classifier(&db).unwrap().is_none());
}

#[test]
fn unknown_named_language_is_invalid_language() {
    let db = SyntaxDb::new(SyntaxSet::load_defaults_newlines()).unwrap();
    let cfg = code("#!/usr/bin/env python\nprint(1)", Some("klingon"));
    let expected = ConfigError::InvalidLanguage("klingon".to_string());
    assert_eq!(cfg.language_without_classifier(&db).unwrap_err(), expected);
    assert_eq!(cfg.language(&db, &ClassifierOutcome::Unavailable).unwrap_err(), expected);
    assert_eq!(cfg.language(&db, &scores(&[("py", 9), ("rs", 1)])).unwrap_err(), expected);
    let db = small_db();
    assert_eq!(cfg.language(&db, &scores(&[("py", 9)])).unwrap_err(), expected);
}

#[test]
fn named_language_is_found_by_extension_or_name() {
    let db = SyntaxDb::new(SyntaxSet::load_defaults_newlines()).unwrap();
    let shebang = "#!/usr/bin/env python\nprint(1)";
    assert_eq!(name_of(&code(shebang, Some("rs")), &db, &ClassifierOutcome::Failed), "Rust");
    assert_eq!(name_of(&code(shebang, Some("Rust")), &db, &ClassifierOutcome::Failed), "Rust");
    assert_eq!(name_of(&code(shebang, Some("rust")), &db, &scores(&[("py", 9)])), "Rust");
    assert_eq!(name_of(&code("x", Some("py")), &db, &ClassifierOutcome::Failed), "Python");
    assert_eq!(db.find_by_token("rs").unwrap().name, "Rust");
    assert_eq!(db.find_by_token("RS").unwrap().name, "Rust");
    assert!(db.find_by_token("").is_none());
    assert!(db.find_by_token("no such language").is_none());
}

#[test]
fn lookups_agree_with_the_syntax_set() {
    let set = SyntaxSet::load_defaults_newlines();
    let db = SyntaxDb::new(SyntaxSet::load_defaults_newlines()).unwrap();
    for token in ["rs", "py", "Python", "html", "c", "C", "java", "nope", "", "log", "PLAIN TEXT"] {
        assert_eq!(
            db.find_by_token(token).map(|s| s.name.clone()),
            set.find_syntax_by_token(token).map(|s| s.name.clone()),
            "{}",
            token
        );
    }
    for line in ["#!/bin/sh", "#!/usr/bin/env python", "<?xml version=\"1.0\"?>", "hello", ""] {
        assert_eq!(
            db.find_by_first_line(line).map(|s| s.name.clone()),
            set.find_syntax_by_first_line(line).map(|s| s.name.clone()),
            "{}",
            line
        );
    }
    assert_eq!(db.syntax_set().syntaxes().len(), set.syntaxes().len());
}

#[test]
fn classifier_label_decides_when_nothing_else_does() {
    let db = small_db();
    let cfg = code("print(1)", None);
    assert!(cfg.language_without_classifier(&db).unwrap().is_none());
    assert_eq!(name_of(&cfg, &db, &scores(&[("py", 5), ("rs", 9), ("rb", -1)])), "Rust");
    assert_eq!(name_of(&cfg, &db, &scores(&[("rs", 5), ("python", 9)])), "Python");
    assert_eq!(name_of(&cfg, &db, &scores(&[("rb", i64::MIN)])), "Ruby");
}

#[test]
fn classifier_ties_go_to_the_first_label() {
    let db = small_db();
    let cfg = code("print(1)", None);
    assert_eq!(name_of(&cfg, &db, &scores(&[("rs", 9), ("py", 9), ("rb", 9)])), "Python");
    assert_eq!(name_of(&cfg, &db, &scores(&[("rb", 9), ("rs", 9)])), "Ruby");
    assert_eq!(name_of(&cfg, &db, &scores(&[("rs", 9), ("rb", 9)])), "Ruby");
}

#[test]
fn detection_falls_back_to_plain_logs() {
    let db = small_db();
    let cfg = code("print(1)", None);
    assert_eq!(name_of(&cfg, &db, &ClassifierOutcome::Unavailable), "Log");
    assert_eq!(name_of(&cfg, &db, &ClassifierOutcome::Failed), "Log");
    assert_eq!(name_of(&cfg, &db, &scores(&[])), "Log");
    assert_eq!(name_of(&cfg, &db, &scores(&[("cobol", 9), ("rs", 1)])), "Log");
    assert_eq!(language_from_classifier(&db, &ClassifierOutcome::Failed).unwrap().name, "Log");
    assert_eq!(language_from_classifier(&db, &scores(&[("rs", 0)])).unwrap().name, "Rust");
}

#[test]
fn a_set_without_plain_logs_has_nothing_to_fall_back_on() {
    let db = SyntaxDb::new(small_set(false)).unwrap();
    let cfg = code("print(1)", None);
    let expected = ConfigError::InvalidLanguage("log".to_string());
    assert_eq!(cfg.language(&db, &ClassifierOutcome::Unavailable).unwrap_err(), expected);
    assert_eq!(cfg.language(&db, &scores(&[("cobol", 1)])).unwrap_err(), expected);
    assert_eq!(name_of(&cfg, &db, &scores(&[("rs", 1)])), "Rust");
}

#[test]
fn a_set_with_a_broken_first_line_pattern_is_turned_down() {
    let mut builder = SyntaxSetBuilder::new();
    builder.add(definition("Rust", "rs", None));
    builder.add(definition("Broken", "bk", Some("^#!(unclosed")));
    assert!(SyntaxDb::new(builder.build()).is_none());
    assert!(SyntaxDb::new(small_set(true)).is_some());
    assert!(SyntaxDb::new(SyntaxSet::new()).is_some());
}

#[test]
fn first_line_is_what_lines_gives_first() {
    for text in [
        "",
        "a",
        "a\n",
        "a\nb",
        "a\r\nb",
        "a\r",
        "a\rb\n",
        "\n",
        "\r\n",
        "\r",
        "\r\r\n",
        "\na",
        "héllo wörld\r\nnext",
        "#!/usr/bin/env python\nprint(1)",
        "日本語\n",
    ] {
        assert_eq!(first_line_of(text), text.lines().next().unwrap_or_default(), "{:?}", text);
    }
    assert_eq!(first_line_of("#!/usr/bin/env python\nprint(1)"), "#!/usr/bin/env python");
    assert_eq!(first_line_of("a\r\nb"), "a");
    assert_eq!(first_line_of("a\r"), "a\r");
}

#[test]
fn report_ranks_and_rescales_the_scores() {
    let report = detection_report("print(1)", scores(&[("rs", -30), ("py", -10), ("rb", -20)]));
    assert_eq!(
        report,
        Ok(vec![
            RankedScore {
                label: "py".to_string(),
                score: -10,
                percent: Percent { numerator: 2000, denominator: 20 },
            },
            RankedScore {
                label: "rb".to_string(),
                score: -20,
                percent: Percent { numerator: 1000, denominator: 20 },
            },
            RankedScore {
                label: "rs".to_string(),
                score: -30,
                percent: Percent { numerator: 0, denominator: 20 },
            },
        ])
    );
}

#[test]
fn report_surfaces_classifier_failures() {
    assert_eq!(
        detection_report("x", ClassifierOutcome::Unavailable),
        Err(ConfigError::ClassifierUnavailable)
    );
    assert_eq!(
        detection_report("x", ClassifierOutcome::Failed),
        Err(ConfigError::ClassifierInferenceFailure)
    );
    assert_eq!(detection_report("x", scores(&[])), Ok(Vec::new()));
}

#[test]
fn report_needs_code() {
    assert_eq!(detection_report("", scores(&[("rs", 1)])), Err(ConfigError::MissingCode));
    assert_eq!(detection_report("", ClassifierOutcome::Unavailable), Err(ConfigError::MissingCode));
}

#[test]
fn model_output_becomes_scores_by_label() {
    let run = ModelRun::Output {
        classes: vec!["rs".to_string(), "py".to_string(), "rb".to_string()],
        scores: vec![-3, -1, -2],
    };
    assert_eq!(
        Config::predict_language_with_tensorflow(run),
        scores(&[("rs", -3), ("py", -1), ("rb", -2)])
    );
}

#[test]
fn model_output_keeps_the_last_score_of_a_label() {
    let run = ModelRun::Output {
        classes: vec![
            "rs".to_string(),
            "py".to_string(),
            "rs".to_string(),
            "rb".to_string(),
            "py".to_string(),
        ],
        scores: vec![1, 2, 3, 4, 5],
    };
    assert_eq!(
        Config::predict_language_with_tensorflow(run),
        scores(&[("rs", 3), ("rb", 4), ("py", 5)])
    );
}

#[test]
fn model_output_reads_no_labels_beyond_the_scores() {
    let run = ModelRun::Output {
        classes: vec!["rs".to_string(), "py".to_string(), "rs".to_string()],
        scores: vec![1, 2],
    };
    assert_eq!(Config::predict_language_with_tensorflow(run), scores(&[("rs", 1), ("py", 2)]));
    let run = ModelRun::Output { classes: Vec::new(), scores: Vec::new() };
    assert_eq!(Config::predict_language_with_tensorflow(run), scores(&[]));
}

#[test]
fn model_failures_are_told_apart() {
    assert_eq!(Config::predict_language_with_tensorflow(ModelRun::NotLoaded), ClassifierOutcome::Unavailable);
    assert_eq!(Config::predict_language_with_tensorflow(ModelRun::Failed), ClassifierOutcome::Failed);
    let run = ModelRun::Output { classes: vec!["rs".to_string()], scores: vec![1, 2] };
    assert_eq!(Config::predict_language_with_tensorflow(run), ClassifierOutcome::Failed);
}

#[test]
fn score_map_keeps_the_last_entry_of_each_label() {
    let entry = |l: &str, s: i64| Prediction { label: l.to_string(), score: s };
    let map = ScoreMap::from_entries(vec![
        entry("rs", 1),
        entry("py", 2),
        entry("rs", 3),
        entry("rb", 4),
        entry("py", 5),
    ]);
    assert_eq!(map.entries(), &vec![entry("rs", 3), entry("rb", 4), entry("py", 5)]);
    assert_eq!(map.clone(), map);
    assert_eq!(map.clone().into_entries(), vec![entry("rs", 3), entry("rb", 4), entry("py", 5)]);
    let plain = vec![entry("a", 1), entry("b", 1), entry("c", 0)];
    assert_eq!(ScoreMap::from_entries(plain.clone()).into_entries(), plain);
    assert_eq!(ScoreMap::from_entries(Vec::new()).into_entries(), Vec::<Prediction>::new());
}

#[test]
fn report_counts_a_label_once() {
    let report = detection_report("x", scores(&[("rs", 0), ("py", 10), ("rs", 20)])).unwrap();
    let labels: Vec<&str> = report.iter().map(|r| r.label.as_str()).collect();
    assert_eq!(labels, vec!["rs", "py"]);
    assert_eq!(report[0].percent, Percent { numerator: 1000, denominator: 10 });
    assert_eq!(report[1].percent, Percent { numerator: 0, denominator: 10 });
}

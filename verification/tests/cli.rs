use aa_engine::check::{check_exit_code, find_cargo_manifest, parse_cargo_errors, CheckError};
use aa_engine::eval::{eval_command_plan, finish_eval_command, resolve_eval_path, suite_outcome, task_outcome};
use aa_engine::exit_codes::ExitCode;
use aa_engine::index::{classify_hit, count_matches, extract_relations, file_hit, query_terms, summarize_line};
use aa_engine::project::{manifest_path, project_path, required_config_files, resolve_project_root, ProjectError};
use aa_engine::playtest::{playtest_exit_code, PlaytestRun};
use aa_engine::world;

#[test]
fn exit_code_numbers() {
    assert_eq!(ExitCode::Success.as_i32(), 0);
    assert_eq!(ExitCode::ValidationFailed.as_i32(), 1);
    assert_eq!(ExitCode::CompileFailed.as_i32(), 2);
    assert_eq!(ExitCode::InvalidArgs.as_i32(), 4);
    assert_eq!(ExitCode::InternalError.as_i32(), 5);
}

#[test]
fn project_paths() {
    assert_eq!(manifest_path("/games/demo"), "/games/demo/aa.project.toml");
    assert_eq!(manifest_path("/games/demo/"), "/games/demo/aa.project.toml");
    assert_eq!(manifest_path(""), "aa.project.toml");
    assert_eq!(project_path("/r", "assets/data/tags.ron"), "/r/assets/data/tags.ron");
    assert_eq!(project_path("/r", "/abs/x"), "/abs/x");
    assert_eq!(required_config_files(), vec!["engine.toml", "game.toml"]);
}

#[test]
fn project_root_resolution() {
    assert_eq!(resolve_project_root("/games/demo", true), Ok("/games/demo".to_string()));
    assert_eq!(resolve_project_root("/games/demo/aa.project.toml", false), Ok("/games/demo".to_string()));
    assert_eq!(resolve_project_root("/aa.project.toml", false), Ok("/".to_string()));
    assert_eq!(resolve_project_root("aa.project.toml", false), Ok("".to_string()));
    assert_eq!(
        resolve_project_root("/games/none", false),
        Err(ProjectError::ManifestMissing("/games/none/aa.project.toml".to_string()))
    );
    assert_eq!(
        ProjectError::ManifestMissing("/x/aa.project.toml".into()).message(),
        "aa.project.toml not found at /x/aa.project.toml"
    );
    assert_eq!(ProjectError::Parse("bad".into()).message(), "failed to parse manifest: bad");
    assert_eq!(ProjectError::Io("gone".into()).message(), "failed to read manifest: gone");
}

#[test]
fn world_command_exit_codes() {
    let missing: Result<String, ProjectError> = Err(ProjectError::ManifestMissing("x".into()));
    let broken: Result<String, ProjectError> = Err(ProjectError::Io("x".into()));
    let found: Result<String, ProjectError> = Ok("/p".into());
    assert_eq!(world::run(&missing, None), ExitCode::InvalidArgs);
    assert_eq!(world::run(&broken, Some(true)), ExitCode::InternalError);
    assert_eq!(world::run(&found, None), ExitCode::InternalError);
    assert_eq!(world::run(&found, Some(true)), ExitCode::Success);
    assert_eq!(world::run(&found, Some(false)), ExitCode::ValidationFailed);
}

#[test]
fn cargo_errors_are_read_from_stderr() {
    let stderr = "   Compiling x v0.1.0\nerror[E0308]: mismatched types\r\n  --> src/main.rs:10:5\n  |\nerror: could not compile\n --> lib.rs: 7 \nwarning: unused\n";
    let errors = parse_cargo_errors(stderr);
    assert_eq!(
        errors,
        vec![
            CheckError { file: "src/main.rs".into(), line: None, message: "error[E0308]: mismatched types".into() },
            CheckError { file: "lib.rs".into(), line: Some(7), message: "error: could not compile".into() },
        ]
    );
    assert_eq!(parse_cargo_errors(" --> a.rs:1\n"), vec![]);
    assert_eq!(check_exit_code(true), ExitCode::Success);
    assert_eq!(check_exit_code(false), ExitCode::CompileFailed);
}

#[test]
fn cargo_manifest_choice() {
    assert_eq!(find_cargo_manifest("/p", true, true, Some("/w".into()), true), Some("/p/Cargo.toml".into()));
    assert_eq!(find_cargo_manifest("/p", false, true, Some("/w".into()), true), Some("/w/Cargo.toml".into()));
    assert_eq!(find_cargo_manifest("/p", false, false, Some("/w".into()), true), None);
    assert_eq!(find_cargo_manifest("/p", false, true, None, true), None);
    assert_eq!(find_cargo_manifest("/p", false, true, Some("/w".into()), false), None);
}

#[test]
fn eval_command_table() {
    let plan = eval_command_plan("aa index", "enemy_camp", "examples/open_world_studio").expect("known");
    assert_eq!(plan.run_args, vec!["index", "examples/open_world_studio", "--query", "enemy camp sector", "--json"]);
    assert_eq!(plan.report_args, vec!["--query", "enemy camp sector", "--json"]);
    assert_eq!(plan.failure, "index failed");
    let plan = eval_command_plan("aa playtest", "ability", "p").expect("known");
    assert_eq!(plan.run_args, vec!["playtest", "--project", "examples/demo_game", "--scenario", "fireball_hit", "--duration", "20", "--json"]);
    assert!(eval_command_plan("aa fly", "x", "p").is_none());

    let (report, failure) = finish_eval_command("aa fly", None, 0);
    assert_eq!(report.exit_code, 1);
    assert_eq!(failure, Some("unknown command".to_string()));
    let plan = eval_command_plan("aa check", "", "p");
    let (report, failure) = finish_eval_command("aa check", plan, 101);
    assert_eq!(report.args, vec!["--json"]);
    assert_eq!(report.exit_code, 1);
    assert_eq!(failure, Some("check failed".to_string()));
}

#[test]
fn eval_outcomes() {
    let commands = vec!["aa index".to_string(), "aa check".to_string(), "aa validate".to_string()];
    let failures = vec![Some("index failed".to_string()), None, Some("validate failed".to_string())];
    assert_eq!(
        task_outcome(&commands, &failures),
        (false, Some("aa index: index failed; aa validate: validate failed".to_string()))
    );
    assert_eq!(task_outcome(&commands, &vec![None, None, None]), (true, None));
    assert_eq!(suite_outcome(&vec![true, false, true]), (2, false));
    assert_eq!(suite_outcome(&vec![]), (0, true));
    let fixtures = vec![("/r/a.json".to_string(), None), ("/r/b.json".to_string(), Some("camp".to_string()))];
    assert_eq!(resolve_eval_path("/r", "camp", false, &fixtures), "/r/b.json");
    assert_eq!(resolve_eval_path("/r", "x.json", true, &fixtures), "/r/x.json");
    assert_eq!(
        resolve_eval_path("/r", "other", false, &fixtures),
        "/r/docs/specs/fixtures/open_world_studio/other.eval.json"
    );
}

#[test]
fn index_helpers() {
    assert_eq!(query_terms("  Enemy CAMP\tsector "), vec!["enemy", "camp", "sector"]);
    assert!(query_terms("   ").is_empty());
    assert_eq!(count_matches(&"aaaa".chars().collect(), &"aa".chars().collect()), 2);
    assert_eq!(count_matches(&"ab".chars().collect(), &vec![]), 3);
    assert_eq!(classify_hit("sectors/s.ron"), "asset");
    assert_eq!(classify_hit("x/sectors/s.ron"), "sector");
    assert_eq!(classify_hit("x/spawn_tables/s.ron"), "spawn_table");
    assert_eq!(classify_hit("x/worlds/w.ron"), "world");
    assert_eq!(classify_hit("docs/a.md"), "spec");
    assert_eq!(summarize_line("   short  "), "short");
    let long = "x".repeat(130);
    assert_eq!(summarize_line(&long), format!("{}…", "x".repeat(120)));
    assert_eq!(
        extract_relations("see assets/b.ron, assets/a.ron and assets/b.ron; not/here"),
        vec!["assets/a.ron".to_string(), "assets/b.ron".to_string()]
    );
}

#[test]
fn index_file_hit() {
    let terms = query_terms("camp fire");
    let text = "title\nfire camp with fire\nassets/x.ron camp";
    let hit = file_hit("sectors/camp.ron", text, &terms).expect("hit");
    assert_eq!(hit.path_score, 1);
    assert_eq!(hit.text_score, 4);
    assert_eq!(hit.line_start, 2);
    assert_eq!(hit.id, "sectors/camp.ron:2");
    assert_eq!(hit.best_line, "fire camp with fire");
    assert_eq!(hit.tags, vec!["camp".to_string(), "fire".to_string()]);
    assert!(file_hit("a.ron", "nothing here", &terms).is_none());
    assert!(file_hit("a.ron", "anything", &vec![]).is_none());
}

#[test]
fn playtest_exit_codes() {
    assert_eq!(playtest_exit_code(PlaytestRun::SpawnFailed, Some(true)), ExitCode::InternalError);
    assert_eq!(playtest_exit_code(PlaytestRun::TimedOut, Some(true)), ExitCode::InternalError);
    assert_eq!(playtest_exit_code(PlaytestRun::Exited { success: false }, Some(true)), ExitCode::ValidationFailed);
    assert_eq!(playtest_exit_code(PlaytestRun::Exited { success: true }, None), ExitCode::InternalError);
    assert_eq!(playtest_exit_code(PlaytestRun::Exited { success: true }, Some(true)), ExitCode::Success);
    assert_eq!(playtest_exit_code(PlaytestRun::Exited { success: true }, Some(false)), ExitCode::ValidationFailed);
}

//! `aa eval`: the command table of eval suites, and how task and suite
//! outcomes are decided.
use vstd::prelude::*;
use crate::text::{strs, push_text};
use crate::exit_codes::ExitCode;
use crate::schema_subset::joined;
use crate::scene::join_strings;

verus! {

/// What running one eval command means: the arguments `aa` is run with, the
/// arguments recorded in the report, and the failure text when it fails.
#[derive(Debug, Clone, PartialEq, Eq)]
pub struct EvalCommandPlan {
    pub run_args: Vec<String>,
    pub report_args: Vec<String>,
    pub failure: String,
}

pub open spec fn scene_fixture() -> Seq<char> {
    "examples/open_world_studio/assets/sectors/sector_0_0.ron"@
}

/// The command table: for each known command, the `aa` arguments, the
/// recorded arguments and the failure text (`None` for an unknown command).
pub open spec fn command_plan(command: Seq<char>, category: Seq<char>, project_root: Seq<char>) -> Option<
    (Seq<Seq<char>>, Seq<Seq<char>>, Seq<char>),
> {
    if command == "aa index"@ {
        let query = if category == "enemy_camp"@ {
            "enemy camp sector"@
        } else if category == "ability"@ {
            "fire ability fireball demo_game"@
        } else {
            "open world"@
        };
        Some((seq!["index"@, project_root, "--query"@, query, "--json"@], seq!["--query"@, query, "--json"@], "index failed"@))
    } else if command == "aa validate"@ {
        Some((seq!["validate"@, project_root, "--format"@, "json"@], seq!["--format"@, "json"@], "validate failed"@))
    } else if command == "aa check"@ {
        Some((seq!["check"@, project_root, "--json"@], seq!["--json"@], "check failed"@))
    } else if command == "aa world inspect"@ {
        Some(
            (
                seq!["world"@, "inspect"@, "--project"@, "examples/open_world_studio"@, "--world"@, "open_world_studio"@, "--json"@],
                seq!["--world"@, "open_world_studio"@, "--json"@],
                "world inspect failed"@,
            ),
        )
    } else if command == "aa world cook"@ {
        Some(
            (
                seq![
                    "world"@,
                    "cook"@,
                    "--project"@,
                    "examples/open_world_studio"@,
                    "--world"@,
                    "open_world_studio"@,
                    "--verify"@,
                    "--json"@,
                ],
                seq!["--world"@, "open_world_studio"@, "--verify"@, "--json"@],
                "world cook failed"@,
            ),
        )
    } else if command == "aa playtest"@ {
        let scenario = if category == "ability"@ {
            "fireball_hit"@
        } else {
            "open_world_enemy_camp"@
        };
        let project = if category == "ability"@ {
            "examples/demo_game"@
        } else {
            "examples/open_world_studio"@
        };
        Some(
            (
                seq!["playtest"@, "--project"@, project, "--scenario"@, scenario, "--duration"@, "20"@, "--json"@],
                seq!["--scenario"@, scenario, "--json"@],
                "playtest failed"@,
            ),
        )
    } else if command == "aa profile summarize"@ {
        let trace = "examples/open_world_studio/artifacts/profiles/open_world_enemy_camp.trace"@;
        Some((seq!["profile"@, "summarize"@, trace, "--json"@], seq![trace, "--json"@], "profile summarize failed"@))
    } else if command == "aa scene inspect"@ {
        Some(
            (
                seq!["scene"@, "inspect"@, "sector_0_0/entity_0"@, "--scene"@, scene_fixture(), "--json"@],
                seq!["sector_0_0/entity_0"@, "--scene"@, scene_fixture(), "--json"@],
                "scene inspect failed"@,
            ),
        )
    } else if command == "aa scene patch"@ {
        Some(
            (
                seq![
                    "scene"@,
                    "patch"@,
                    "--scene"@,
                    scene_fixture(),
                    "--patch"@,
                    "docs/specs/fixtures/open_world_studio/add_campfire.scene_patch.json"@,
                    "--dry-run"@,
                    "--json"@,
                ],
                seq!["--dry-run"@, "--json"@],
                "scene patch failed"@,
            ),
        )
    } else {
        None
    }
}

fn strings(items: Vec<&str>) -> (r: Vec<String>)
    ensures
        strs(r@) == items@.map_values(|s: &str| s@),
{
    let mut out: Vec<String> = Vec::new();
    let mut i: usize = 0;
    while i < items.len()
        invariant
            i <= items.len(),
            strs(out@) == items@.take(i as int).map_values(|s: &str| s@),
        decreases items.len() - i,
    {
        let ghost before = strs(out@);
        out.push(items[i].to_string());
        assert(strs(out@) =~= before.push(items@[i as int]@));
        assert(items@.take(i + 1).map_values(|s: &str| s@) =~= items@.take(i as int).map_values(|s: &str| s@).push(
            items@[i as int]@,
        ));
        i = i + 1;
    }
    assert(items@.take(i as int) =~= items@);
    out
}

fn plan(run: Vec<&str>, report: Vec<&str>, failure: &str) -> (r: EvalCommandPlan)
    ensures
        strs(r.run_args@) == run@.map_values(|s: &str| s@),
        strs(r.report_args@) == report@.map_values(|s: &str| s@),
        r.failure@ == failure@,
{
    EvalCommandPlan { run_args: strings(run), report_args: strings(report), failure: failure.to_string() }
}

/// How an eval command is run and reported (see `command_plan`).
pub fn eval_command_plan(command: &str, category: &str, project_root: &str) -> (r: Option<EvalCommandPlan>)
    ensures
        match command_plan(command@, category@, project_root@) {
            Some((run, report, failure)) => r matches Some(p) && strs(p.run_args@) == run && strs(
                p.report_args@,
            ) == report && p.failure@ == failure,
            None => r is None,
        },
{
    let same = |a: &str, b: &str| -> (r: bool)
        ensures
            r == (a@ == b@),
        { crate::text::same_text(a, b) };
    if same(command, "aa index") {
        let query = if same(category, "enemy_camp") {
            "enemy camp sector"
        } else if same(category, "ability") {
            "fire ability fireball demo_game"
        } else {
            "open world"
        };
        let r = plan(vec!["index", project_root, "--query", query, "--json"], vec!["--query", query, "--json"], "index failed");
        assert(strs(r.run_args@) =~= seq!["index"@, project_root@, "--query"@, query@, "--json"@]);
        assert(strs(r.report_args@) =~= seq!["--query"@, query@, "--json"@]);
        Some(r)
    } else if same(command, "aa validate") {
        let r = plan(vec!["validate", project_root, "--format", "json"], vec!["--format", "json"], "validate failed");
        assert(strs(r.run_args@) =~= seq!["validate"@, project_root@, "--format"@, "json"@]);
        assert(strs(r.report_args@) =~= seq!["--format"@, "json"@]);
        Some(r)
    } else if same(command, "aa check") {
        let r = plan(vec!["check", project_root, "--json"], vec!["--json"], "check failed");
        assert(strs(r.run_args@) =~= seq!["check"@, project_root@, "--json"@]);
        assert(strs(r.report_args@) =~= seq!["--json"@]);
        Some(r)
    } else if same(command, "aa world inspect") {
        let r = plan(
            vec!["world", "inspect", "--project", "examples/open_world_studio", "--world", "open_world_studio", "--json"],
            vec!["--world", "open_world_studio", "--json"],
            "world inspect failed",
        );
        assert(strs(r.run_args@) =~= seq!["world"@, "inspect"@, "--project"@, "examples/open_world_studio"@, "--world"@, "open_world_studio"@, "--json"@]);
        assert(strs(r.report_args@) =~= seq!["--world"@, "open_world_studio"@, "--json"@]);
        Some(r)
    } else if same(command, "aa world cook") {
        let r = plan(
            vec!["world", "cook", "--project", "examples/open_world_studio", "--world", "open_world_studio", "--verify", "--json"],
            vec!["--world", "open_world_studio", "--verify", "--json"],
            "world cook failed",
        );
        assert(strs(r.run_args@) =~= seq!["world"@, "cook"@, "--project"@, "examples/open_world_studio"@, "--world"@, "open_world_studio"@, "--verify"@, "--json"@]);
        assert(strs(r.report_args@) =~= seq!["--world"@, "open_world_studio"@, "--verify"@, "--json"@]);
        Some(r)
    } else if same(command, "aa playtest") {
        let ability = same(category, "ability");
        let scenario = if ability {
            "fireball_hit"
        } else {
            "open_world_enemy_camp"
        };
        let project = if ability {
            "examples/demo_game"
        } else {
            "examples/open_world_studio"
        };
        let r = plan(
            vec!["playtest", "--project", project, "--scenario", scenario, "--duration", "20", "--json"],
            vec!["--scenario", scenario, "--json"],
            "playtest failed",
        );
        assert(strs(r.run_args@) =~= seq!["playtest"@, "--project"@, project@, "--scenario"@, scenario@, "--duration"@, "20"@, "--json"@]);
        assert(strs(r.report_args@) =~= seq!["--scenario"@, scenario@, "--json"@]);
        Some(r)
    } else if same(command, "aa profile summarize") {
        let trace = "examples/open_world_studio/artifacts/profiles/open_world_enemy_camp.trace";
        let r = plan(vec!["profile", "summarize", trace, "--json"], vec![trace, "--json"], "profile summarize failed");
        assert(strs(r.run_args@) =~= seq!["profile"@, "summarize"@, trace@, "--json"@]);
        assert(strs(r.report_args@) =~= seq![trace@, "--json"@]);
        Some(r)
    } else if same(command, "aa scene inspect") {
        let scene = "examples/open_world_studio/assets/sectors/sector_0_0.ron";
        let r = plan(
            vec!["scene", "inspect", "sector_0_0/entity_0", "--scene", scene, "--json"],
            vec!["sector_0_0/entity_0", "--scene", scene, "--json"],
            "scene inspect failed",
        );
        assert(strs(r.run_args@) =~= seq!["scene"@, "inspect"@, "sector_0_0/entity_0"@, "--scene"@, scene_fixture(), "--json"@]);
        assert(strs(r.report_args@) =~= seq!["sector_0_0/entity_0"@, "--scene"@, scene_fixture(), "--json"@]);
        Some(r)
    } else if same(command, "aa scene patch") {
        let scene = "examples/open_world_studio/assets/sectors/sector_0_0.ron";
        let r = plan(
            vec![
                "scene",
                "patch",
                "--scene",
                scene,
                "--patch",
                "docs/specs/fixtures/open_world_studio/add_campfire.scene_patch.json",
                "--dry-run",
                "--json",
            ],
            vec!["--dry-run", "--json"],
            "scene patch failed",
        );
        assert(strs(r.run_args@) =~= seq![
            "scene"@,
            "patch"@,
            "--scene"@,
            scene_fixture(),
            "--patch"@,
            "docs/specs/fixtures/open_world_studio/add_campfire.scene_patch.json"@,
            "--dry-run"@,
            "--json"@,
        ]);
        assert(strs(r.report_args@) =~= seq!["--dry-run"@, "--json"@]);
        Some(r)
    } else {
        None
    }
}

} // verus!

verus! {

/// The record of one eval command.
#[derive(Debug, Clone, PartialEq, Eq)]
pub struct EvalCommandReport {
    pub command: String,
    pub args: Vec<String>,
    pub exit_code: i32,
}

/// How an eval command ended, given its plan (none for an unknown command)
/// and the exit status `aa` ran with: a non-zero status fails it with the
/// plan's failure text; an unknown command fails without being run.
pub fn finish_eval_command(command: &str, plan: Option<EvalCommandPlan>, status: i32) -> (r: (EvalCommandReport, Option<String>))
    ensures
        r.0.command@ == command@,
        match plan {
            None => strs(r.0.args@).len() == 0 && (r.1 matches Some(f) && f@ == "unknown command"@),
            Some(p) => strs(r.0.args@) == strs(p.report_args@) && if status == 0 {
                r.1 is None
            } else {
                r.1 matches Some(f) && f@ == p.failure@
            },
        },
        r.0.exit_code == if r.1 is None {
            0i32
        } else {
            1i32
        },
{
    match plan {
        None => (EvalCommandReport { command: command.to_string(), args: Vec::new(), exit_code: 1 }, Some("unknown command".to_string())),
        Some(p) => {
            let failure = if status == 0 {
                None
            } else {
                Some(p.failure)
            };
            let exit_code = if failure.is_none() {
                0
            } else {
                1
            };
            (EvalCommandReport { command: command.to_string(), args: p.report_args, exit_code }, failure)
        },
    }
}

/// The failure lines of a task: `COMMAND: FAILURE` for each failed command, in order.
pub open spec fn failure_lines(commands: Seq<Seq<char>>, failures: Seq<Option<Seq<char>>>) -> Seq<Seq<char>>
    decreases commands.len(),
{
    if commands.len() == 0 {
        Seq::empty()
    } else {
        failure_lines(commands.drop_last(), failures) + match failures[commands.len() - 1] {
            Some(f) => seq![commands.last() + ": "@ + f],
            None => Seq::empty(),
        }
    }
}

pub open spec fn opt_views(v: Seq<Option<String>>) -> Seq<Option<Seq<char>>> {
    v.map_values(|o: Option<String>| match o {
        Some(s) => Some(s@),
        None => None,
    })
}

/// A task passes when none of its commands failed; otherwise the reason is
/// the failure lines joined with `; `.
pub fn task_outcome(commands: &Vec<String>, failures: &Vec<Option<String>>) -> (r: (bool, Option<String>))
    requires
        commands.len() == failures.len(),
    ensures
        r.0 == (failure_lines(strs(commands@), opt_views(failures@)).len() == 0),
        r.0 ==> r.1 is None,
        !r.0 ==> (r.1 matches Some(reason) && reason@ == joined(failure_lines(strs(commands@), opt_views(failures@)), "; "@)),
{
    let ghost cs = strs(commands@);
    let ghost fs = opt_views(failures@);
    let mut lines: Vec<String> = Vec::new();
    let mut i: usize = 0;
    assert(cs.take(0) =~= Seq::<Seq<char>>::empty());
    while i < commands.len()
        invariant
            i <= commands.len() == failures.len(),
            cs == strs(commands@),
            fs == opt_views(failures@),
            strs(lines@) == failure_lines(cs.take(i as int), fs),
        decreases commands.len() - i,
    {
        assert(cs.take(i + 1).drop_last() =~= cs.take(i as int));
        assert(cs.take(i + 1).last() == commands@[i as int]@);
        match &failures[i] {
            Some(f) => {
                let mut line = commands[i].clone();
                push_text(&mut line, ": ");
                push_text(&mut line, f.as_str());
                let ghost before = strs(lines@);
                let ghost lv = line@;
                lines.push(line);
                assert(strs(lines@) =~= before.push(lv));
                assert(failure_lines(cs.take(i + 1), fs) =~= failure_lines(cs.take(i as int), fs).push(lv));
            },
            None => {
                assert(failure_lines(cs.take(i + 1), fs) =~= failure_lines(cs.take(i as int), fs));
            },
        }
        i = i + 1;
    }
    assert(cs.take(i as int) =~= cs);
    if lines.len() == 0 {
        (true, None)
    } else {
        (false, Some(join_strings(&lines, "; ")))
    }
}

/// Number of `true` values.
pub open spec fn count_true(v: Seq<bool>) -> nat
    decreases v.len(),
{
    if v.len() == 0 {
        0
    } else {
        count_true(v.drop_last()) + if v.last() {
            1nat
        } else {
            0nat
        }
    }
}

/// How many tasks passed, and whether all of them did.
pub fn suite_outcome(passed: &Vec<bool>) -> (r: (usize, bool))
    ensures
        r.0 == count_true(passed@),
        r.1 == (count_true(passed@) == passed@.len()),
{
    let mut n: usize = 0;
    let mut i: usize = 0;
    assert(passed@.take(0) =~= Seq::<bool>::empty());
    while i < passed.len()
        invariant
            i <= passed.len(),
            n == count_true(passed@.take(i as int)),
            n <= i,
        decreases passed.len() - i,
    {
        assert(passed@.take(i + 1).drop_last() =~= passed@.take(i as int));
        if passed[i] {
            n = n + 1;
        }
        i = i + 1;
    }
    assert(passed@.take(i as int) =~= passed@);
    (n, n == passed.len())
}

/// How an eval run ends: success when every task passed.
pub fn eval_exit_code(ok: bool) -> (r: ExitCode)
    ensures
        r == if ok {
            ExitCode::Success
        } else {
            ExitCode::ValidationFailed
        },
{
    if ok {
        ExitCode::Success
    } else {
        ExitCode::ValidationFailed
    }
}

/// Whether a fixture declares the id `id`.
pub open spec fn fixture_is(f: (String, Option<String>), id: Seq<char>) -> bool {
    f.1 matches Some(x) && x@ == id
}

/// Index of the first fixture whose id is `id`.
pub open spec fn first_fixture(fixtures: Seq<(String, Option<String>)>, id: Seq<char>) -> Option<int> {
    if exists|i: int| 0 <= i < fixtures.len() && fixture_is(#[trigger] fixtures[i], id)
        && forall|j: int| 0 <= j < i ==> !fixture_is(fixtures[j], id) {
        Some(
            choose|i: int| 0 <= i < fixtures.len() && fixture_is(#[trigger] fixtures[i], id)
                && forall|j: int| 0 <= j < i ==> !fixture_is(fixtures[j], id),
        )
    } else {
        None
    }
}

/// Where an eval suite is read from: the path itself when it names a file
/// under the repository; else the first fixture (in walk order, each with the
/// `id` its JSON declares) whose id it is; else the open-world fixture of that name.
pub fn resolve_eval_path(repo: &str, id_or_path: &str, direct_is_file: bool, fixtures: &Vec<(String, Option<String>)>) -> (r: String)
    ensures
        direct_is_file ==> r@ == crate::project::path_join(repo@, id_or_path@),
        !direct_is_file ==> match first_fixture(fixtures@, id_or_path@) {
            Some(i) => r@ == fixtures@[i].0@,
            None => r@ == crate::project::path_join(
                repo@,
                "docs/specs/fixtures/open_world_studio/"@ + id_or_path@ + ".eval.json"@,
            ),
        },
{
    if direct_is_file {
        return crate::project::join_path(repo, id_or_path);
    }
    let mut i: usize = 0;
    while i < fixtures.len()
        invariant
            i <= fixtures.len(),
            forall|j: int| 0 <= j < i ==> !fixture_is(fixtures@[j], id_or_path@),
            !direct_is_file,
        decreases fixtures.len() - i,
    {
        if let Some(id) = &fixtures[i].1 {
            if crate::text::same_text(id.as_str(), id_or_path) {
                proof {
                    let all = fixtures@;
                    assert(0 <= i < all.len() && fixture_is(all[i as int], id_or_path@));
                    let c = choose|k: int| 0 <= k < all.len() && fixture_is(#[trigger] all[k], id_or_path@)
                        && forall|j: int| 0 <= j < k ==> !fixture_is(all[j], id_or_path@);
                    assert(c == i) by {
                        if c > i {
                            assert(fixture_is(all[i as int], id_or_path@));
                        }
                    }
                }
                return fixtures[i].0.clone();
            }
        }
        i = i + 1;
    }
    let mut rel = "docs/specs/fixtures/open_world_studio/".to_string();
    push_text(&mut rel, id_or_path);
    push_text(&mut rel, ".eval.json");
    crate::project::join_path(repo, rel.as_str())
}

/// The commands that act on a project (`aa validate`, `aa check`, `aa index`)
/// run that subcommand with the task's project root as its first argument.
pub proof fn law_project_commands_use_the_task_project(category: Seq<char>, project_root: Seq<char>)
    ensures
        command_plan("aa validate"@, category, project_root) matches Some((run, _, _)) && run.len() >= 2
            && run[0] == "validate"@ && run[1] == project_root,
        command_plan("aa check"@, category, project_root) matches Some((run, _, _)) && run.len() >= 2
            && run[0] == "check"@ && run[1] == project_root,
        command_plan("aa index"@, category, project_root) matches Some((run, _, _)) && run.len() >= 2
            && run[0] == "index"@ && run[1] == project_root,
{
    reveal_strlit("aa validate");
    reveal_strlit("aa check");
    reveal_strlit("aa index");
    assert("aa validate"@.len() == 11 && "aa index"@.len() == 8 && "aa check"@.len() == 8);
    assert("aa validate"@ != "aa index"@);
    assert("aa check"@[3] != "aa index"@[3]);
    assert("aa check"@ != "aa index"@);
    assert("aa check"@ != "aa validate"@);
}

} // verus!

//! The flags of the evaluation programs.

use vstd::prelude::*;
use crate::text;

verus! {

/// Why flags were refused.
#[derive(Debug, Clone, PartialEq, Eq)]
pub enum FlagError {
    /// No fixture was named.
    MissingFixture,
    /// A flag that takes a value stands at the end.
    MissingPath(String),
    /// A flag that the program does not know.
    Unknown(String),
}

/// Why flags were refused.
pub enum FlagErrorView {
    MissingFixture,
    MissingPath(Seq<char>),
    Unknown(Seq<char>),
}

impl View for FlagError {
    type V = FlagErrorView;

    open spec fn view(&self) -> FlagErrorView {
        match self {
            FlagError::MissingFixture => FlagErrorView::MissingFixture,
            FlagError::MissingPath(flag) => FlagErrorView::MissingPath(flag@),
            FlagError::Unknown(flag) => FlagErrorView::Unknown(flag@),
        }
    }
}

/// How the fixture program is called.
pub const AGENT_USAGE: &'static str =
    "usage: gauge-agent <fixture.json> [--limit N] [--llm-command CMD] [--json]";

/// How the regression program is called.
pub const CI_EVAL_USAGE: &'static str =
    "usage: gauge-ci-eval [--baseline PATH] [--summary-dir DIR] [--json] [--k N] [--tolerance FLOAT] [--skip-baseline]";

/// The command that answers, unless another is named.
pub const DEFAULT_LLM_COMMAND: &'static str = "benchmarks/comparison/codex-complete";

/// The argument behind the one at `i`.
pub open spec fn value_at(args: Seq<Seq<char>>, i: int) -> Option<Seq<char>> {
    if i + 1 < args.len() {
        Some(args[i + 1])
    } else {
        None
    }
}

/// The argument behind the one at `i` as a number.
pub open spec fn number_at(args: Seq<Seq<char>>, i: int) -> Option<int> {
    match value_at(args, i) {
        Some(value) => text::unsigned_value(value, usize::MAX as int),
        None => None,
    }
}

fn read_number(args: &Vec<String>, i: usize) -> (r: Option<usize>)
    requires
        i < args@.len(),
    ensures
        match r {
            Some(n) => number_at(text::texts(args@), i as int) == Some(n as int),
            None => number_at(text::texts(args@), i as int) is None,
        },
{
    if args.len() - i > 1 {
        assert(text::texts(args@)[i + 1] == args@[i + 1]@);
        text::parse_usize(args[i + 1].as_str())
    } else {
        None
    }
}

// ---------------------------------------------------------------------------------------------
// The fixture program
// ---------------------------------------------------------------------------------------------

/// What the fixture program is asked for.
#[derive(Debug, Clone, PartialEq, Eq)]
pub struct AgentArgs {
    pub path: String,
    pub limit: Option<usize>,
    pub llm_command: String,
    pub json: bool,
}

/// What the fixture program is asked for.
#[verifier::ext_equal]
pub struct AgentArgsView {
    pub path: Seq<char>,
    pub limit: Option<int>,
    pub llm_command: Seq<char>,
    pub json: bool,
}

/// A number as an integer.
pub open spec fn number_opt(n: Option<usize>) -> Option<int> {
    match n {
        Some(n) => Some(n as int),
        None => None,
    }
}

impl View for AgentArgs {
    type V = AgentArgsView;

    open spec fn view(&self) -> AgentArgsView {
        AgentArgsView {
            path: self.path@,
            limit: number_opt(self.limit),
            llm_command: self.llm_command@,
            json: self.json,
        }
    }
}

/// The flags from `i` on, read one after another. A flag that takes a value takes the next
/// argument, whatever it is; a limit that is not a number is no limit.
pub open spec fn agent_flags(args: Seq<Seq<char>>, i: int, so_far: AgentArgsView) -> Result<
    AgentArgsView,
    FlagErrorView,
>
    decreases args.len() + 1 - i,
{
    if i < 0 || i >= args.len() {
        Ok(so_far)
    } else if args[i] == "--limit"@ {
        agent_flags(args, i + 2, AgentArgsView { limit: number_at(args, i), ..so_far })
    } else if args[i] == "--llm-command"@ {
        match value_at(args, i) {
            Some(value) => agent_flags(
                args,
                i + 2,
                AgentArgsView { llm_command: value, ..so_far },
            ),
            None => Ok(so_far),
        }
    } else if args[i] == "--json"@ {
        agent_flags(args, i + 1, AgentArgsView { json: true, ..so_far })
    } else {
        Err(FlagErrorView::Unknown(args[i]))
    }
}

/// What the fixture program is asked for: the fixture first, and then flags.
pub open spec fn agent_args(args: Seq<Seq<char>>) -> Result<AgentArgsView, FlagErrorView> {
    if args.len() == 0 || args[0].len() == 0 {
        Err(FlagErrorView::MissingFixture)
    } else {
        agent_flags(
            args,
            1,
            AgentArgsView {
                path: args[0],
                limit: None,
                llm_command: DEFAULT_LLM_COMMAND@,
                json: false,
            },
        )
    }
}

/// What the fixture program is asked for.
pub fn parse_agent_args(args: &Vec<String>) -> (r: Result<AgentArgs, FlagError>)
    ensures
        match r {
            Ok(parsed) => agent_args(text::texts(args@)) == Ok::<_, FlagErrorView>(parsed@),
            Err(error) => agent_args(text::texts(args@)) == Err::<AgentArgsView, _>(error@),
        },
{
    let ghost all = text::texts(args@);
    if args.len() == 0 {
        return Err(FlagError::MissingFixture);
    }
    assert(all[0] == args@[0]@);
    if args[0].as_str().is_empty() {
        return Err(FlagError::MissingFixture);
    }
    let mut out = AgentArgs {
        path: args[0].clone(),
        limit: None,
        llm_command: DEFAULT_LLM_COMMAND.to_owned(),
        json: false,
    };
    let mut i: usize = 1;
    while i < args.len()
        invariant
            all == text::texts(args@),
            1 <= i,
            agent_args(all) == agent_flags(all, i as int, out@),
        decreases args@.len() - i,
    {
        assert(all[i as int] == args@[i as int]@);
        let flag = args[i].as_str();
        if text::same_text(flag, "--limit") {
            out.limit = read_number(args, i);
            if args.len() - i == 1 {
                assert(agent_flags(all, i + 2, out@) == Ok::<_, FlagErrorView>(out@));
                return Ok(out);
            }
            i = i + 2;
        } else if text::same_text(flag, "--llm-command") {
            if args.len() - i == 1 {
                return Ok(out);
            }
            assert(all[i + 1] == args@[i + 1]@);
            out.llm_command = args[i + 1].clone();
            i = i + 2;
        } else if text::same_text(flag, "--json") {
            out.json = true;
            i = i + 1;
        } else {
            return Err(FlagError::Unknown(args[i].clone()));
        }
    }
    Ok(out)
}

// ---------------------------------------------------------------------------------------------
// The regression program
// ---------------------------------------------------------------------------------------------

/// What the regression program is asked for. The tolerance stands as text.
#[derive(Debug, Clone, PartialEq, Eq)]
pub struct CiEvalArgs {
    pub baseline: Option<String>,
    pub summary_dir: Option<String>,
    pub json: bool,
    pub skip_baseline: bool,
    pub k: Option<usize>,
    pub tolerance: Option<String>,
}

/// What the regression program is asked for.
#[verifier::ext_equal]
pub struct CiEvalView {
    pub baseline: Option<Seq<char>>,
    pub summary_dir: Option<Seq<char>>,
    pub json: bool,
    pub skip_baseline: bool,
    pub k: Option<int>,
    pub tolerance: Option<Seq<char>>,
}

impl View for CiEvalArgs {
    type V = CiEvalView;

    open spec fn view(&self) -> CiEvalView {
        CiEvalView {
            baseline: text::text_opt(self.baseline),
            summary_dir: text::text_opt(self.summary_dir),
            json: self.json,
            skip_baseline: self.skip_baseline,
            k: number_opt(self.k),
            tolerance: text::text_opt(self.tolerance),
        }
    }
}

/// The flags from `i` on, read one after another.
pub open spec fn ci_eval_flags(args: Seq<Seq<char>>, i: int, so_far: CiEvalView) -> Result<
    CiEvalView,
    FlagErrorView,
>
    decreases args.len() + 1 - i,
{
    if i < 0 || i >= args.len() {
        Ok(so_far)
    } else if args[i] == "--baseline"@ {
        match value_at(args, i) {
            Some(path) => ci_eval_flags(
                args,
                i + 2,
                CiEvalView { baseline: Some(path), ..so_far },
            ),
            None => Err(FlagErrorView::MissingPath(args[i])),
        }
    } else if args[i] == "--summary-dir"@ {
        match value_at(args, i) {
            Some(path) => ci_eval_flags(
                args,
                i + 2,
                CiEvalView { summary_dir: Some(path), ..so_far },
            ),
            None => Err(FlagErrorView::MissingPath(args[i])),
        }
    } else if args[i] == "--json"@ {
        ci_eval_flags(args, i + 1, CiEvalView { json: true, ..so_far })
    } else if args[i] == "--skip-baseline"@ {
        ci_eval_flags(args, i + 1, CiEvalView { skip_baseline: true, ..so_far })
    } else if args[i] == "--k"@ {
        ci_eval_flags(args, i + 2, CiEvalView { k: number_at(args, i), ..so_far })
    } else if args[i] == "--tolerance"@ {
        ci_eval_flags(args, i + 2, CiEvalView { tolerance: value_at(args, i), ..so_far })
    } else {
        Err(FlagErrorView::Unknown(args[i]))
    }
}

/// What the regression program is asked for.
pub open spec fn ci_eval_args(args: Seq<Seq<char>>) -> Result<CiEvalView, FlagErrorView> {
    ci_eval_flags(
        args,
        0,
        CiEvalView {
            baseline: None,
            summary_dir: None,
            json: false,
            skip_baseline: false,
            k: None,
            tolerance: None,
        },
    )
}

/// What the regression program is asked for.
pub fn parse_ci_eval_args(args: &Vec<String>) -> (r: Result<CiEvalArgs, FlagError>)
    ensures
        match r {
            Ok(parsed) => ci_eval_args(text::texts(args@)) == Ok::<_, FlagErrorView>(parsed@),
            Err(error) => ci_eval_args(text::texts(args@)) == Err::<CiEvalView, _>(error@),
        },
{
    let ghost all = text::texts(args@);
    let mut out = CiEvalArgs {
        baseline: None,
        summary_dir: None,
        json: false,
        skip_baseline: false,
        k: None,
        tolerance: None,
    };
    let mut i: usize = 0;
    while i < args.len()
        invariant
            all == text::texts(args@),
            ci_eval_args(all) == ci_eval_flags(all, i as int, out@),
        decreases args@.len() - i,
    {
        assert(all[i as int] == args@[i as int]@);
        let flag = args[i].as_str();
        let last: bool = args.len() - i == 1;
        if !last {
            assert(all[i + 1] == args@[i + 1]@);
        }
        if text::same_text(flag, "--baseline") {
            if last {
                return Err(FlagError::MissingPath(args[i].clone()));
            }
            out.baseline = Some(args[i + 1].clone());
            i = i + 2;
        } else if text::same_text(flag, "--summary-dir") {
            if last {
                return Err(FlagError::MissingPath(args[i].clone()));
            }
            out.summary_dir = Some(args[i + 1].clone());
            i = i + 2;
        } else if text::same_text(flag, "--json") {
            out.json = true;
            i = i + 1;
        } else if text::same_text(flag, "--skip-baseline") {
            out.skip_baseline = true;
            i = i + 1;
        } else if text::same_text(flag, "--k") {
            out.k = read_number(args, i);
            if last {
                assert(ci_eval_flags(all, i + 2, out@) == Ok::<_, FlagErrorView>(out@));
                return Ok(out);
            }
            i = i + 2;
        } else if text::same_text(flag, "--tolerance") {
            if last {
                out.tolerance = None;
                assert(ci_eval_flags(all, i + 2, out@) == Ok::<_, FlagErrorView>(out@));
                return Ok(out);
            }
            out.tolerance = Some(args[i + 1].clone());
            i = i + 2;
        } else {
            return Err(FlagError::Unknown(args[i].clone()));
        }
    }
    Ok(out)
}

/// The two tools whose flags are read here.
#[derive(Debug, Clone, Copy, PartialEq, Eq, Structural)]
pub enum GaugeTool {
    Agent,
    CiEval,
}

/// What is said of flags that were refused. The evaluation tells its usage with an unknown flag.
pub open spec fn refusal(error: FlagErrorView, tool: GaugeTool) -> Seq<char> {
    match error {
        FlagErrorView::MissingFixture => match tool {
            GaugeTool::Agent => AGENT_USAGE@,
            GaugeTool::CiEval => CI_EVAL_USAGE@,
        },
        FlagErrorView::MissingPath(flag) => flag + " requires a path"@,
        FlagErrorView::Unknown(flag) => match tool {
            GaugeTool::Agent => "unknown flag: "@ + flag,
            GaugeTool::CiEval => "unknown flag: "@ + flag + "\n"@ + CI_EVAL_USAGE@,
        },
    }
}

/// What is said of flags that were refused.
pub fn flag_error_text(error: &FlagError, tool: GaugeTool) -> (r: String)
    ensures
        r@ == refusal(error@, tool),
{
    match error {
        FlagError::MissingFixture => match tool {
            GaugeTool::Agent => AGENT_USAGE.to_owned(),
            GaugeTool::CiEval => CI_EVAL_USAGE.to_owned(),
        },
        FlagError::MissingPath(flag) => {
            let mut out = flag.clone();
            out.append(" requires a path");
            out
        },
        FlagError::Unknown(flag) => {
            let mut out = "unknown flag: ".to_owned();
            out.append(flag.as_str());
            match tool {
                GaugeTool::Agent => {},
                GaugeTool::CiEval => {
                    out.append("\n");
                    out.append(CI_EVAL_USAGE);
                },
            }
            out
        },
    }
}

/// The number of results that are compared: what was asked for, else what the baseline has, else
/// the default.
pub fn choose_k(requested: Option<usize>, baseline: Option<usize>, fallback: usize) -> (r: usize)
    ensures
        r == (match requested {
            Some(k) => k,
            None => match baseline {
                Some(k) => k,
                None => fallback,
            },
        }),
{
    match requested {
        Some(k) => k,
        None => match baseline {
            Some(k) => k,
            None => fallback,
        },
    }
}

/// The fixture program gets what it is asked for: the fixture by the first argument, the limit, the
/// command and the form of the output by their flags, and each by its default where the flag is not
/// there. A limit that is no number is none.
pub proof fn law_agent_flags_are_read(path: Seq<char>, limit: Seq<char>, command: Seq<char>)
    requires
        path.len() > 0,
    ensures
        ({
            let full = seq![path, "--limit"@, limit, "--llm-command"@, command, "--json"@];
            let parsed = agent_args(full);
            &&& parsed is Ok
            &&& parsed->Ok_0.path == path
            &&& parsed->Ok_0.limit == text::unsigned_value(limit, usize::MAX as int)
            &&& parsed->Ok_0.llm_command == command
            &&& parsed->Ok_0.json
        }),
        ({
            let parsed = agent_args(seq![path]);
            &&& parsed is Ok
            &&& parsed->Ok_0.path == path
            &&& parsed->Ok_0.limit is None
            &&& parsed->Ok_0.llm_command == "benchmarks/comparison/codex-complete"@
            &&& !parsed->Ok_0.json
        }),
        agent_args(Seq::empty()) is Err,
{
    lemma_agent_flags_differ();
    reveal_with_fuel(agent_flags, 5);
}

proof fn lemma_agent_flags_differ()
    ensures
        "--limit"@ != "--llm-command"@,
        "--limit"@ != "--json"@,
        "--llm-command"@ != "--json"@,
{
    reveal_strlit("--limit");
    reveal_strlit("--llm-command");
    reveal_strlit("--json");
    assert("--limit"@.len() == 7);
    assert("--llm-command"@.len() == 13);
    assert("--json"@.len() == 6);
}

/// A flag that the fixture program does not know is refused by its name, and so is a call without a
/// fixture.
pub proof fn law_unknown_agent_flags_are_refused(path: Seq<char>, flag: Seq<char>, rest: Seq<Seq<char>>)
    requires
        path.len() > 0,
        flag != "--limit"@,
        flag != "--llm-command"@,
        flag != "--json"@,
    ensures
        agent_args(seq![path, flag] + rest) == Err::<AgentArgsView, _>(FlagErrorView::Unknown(flag)),
        agent_args(seq![Seq::<char>::empty()] + rest) == Err::<AgentArgsView, _>(
            FlagErrorView::MissingFixture,
        ),
{
}

/// The regression program gets what it is asked for by its flags, and nothing else.
pub proof fn law_ci_eval_flags_are_read(
    baseline: Seq<char>,
    dir: Seq<char>,
    k: Seq<char>,
    tolerance: Seq<char>,
)
    ensures
        ({
            let parsed = ci_eval_args(
                seq![
                    "--baseline"@,
                    baseline,
                    "--summary-dir"@,
                    dir,
                    "--k"@,
                    k,
                    "--tolerance"@,
                    tolerance,
                    "--json"@,
                    "--skip-baseline"@,
                ],
            );
            &&& parsed is Ok
            &&& parsed->Ok_0.baseline == Some(baseline)
            &&& parsed->Ok_0.summary_dir == Some(dir)
            &&& parsed->Ok_0.k == text::unsigned_value(k, usize::MAX as int)
            &&& parsed->Ok_0.tolerance == Some(tolerance)
            &&& parsed->Ok_0.json
            &&& parsed->Ok_0.skip_baseline
        }),
        ({
            let parsed = ci_eval_args(Seq::empty());
            &&& parsed is Ok
            &&& parsed->Ok_0.baseline is None
            &&& parsed->Ok_0.summary_dir is None
            &&& parsed->Ok_0.k is None
            &&& parsed->Ok_0.tolerance is None
            &&& !parsed->Ok_0.json
            &&& !parsed->Ok_0.skip_baseline
        }),
{
    lemma_ci_eval_flags_differ();
    reveal_with_fuel(ci_eval_flags, 8);
}

proof fn lemma_ci_eval_flags_differ()
    ensures
        "--summary-dir"@ != "--baseline"@,
        "--json"@ != "--baseline"@,
        "--json"@ != "--summary-dir"@,
        "--skip-baseline"@ != "--baseline"@,
        "--skip-baseline"@ != "--summary-dir"@,
        "--skip-baseline"@ != "--json"@,
        "--k"@ != "--baseline"@,
        "--k"@ != "--summary-dir"@,
        "--k"@ != "--json"@,
        "--k"@ != "--skip-baseline"@,
        "--tolerance"@ != "--baseline"@,
        "--tolerance"@ != "--summary-dir"@,
        "--tolerance"@ != "--json"@,
        "--tolerance"@ != "--skip-baseline"@,
        "--tolerance"@ != "--k"@,
{
    reveal_strlit("--baseline");
    reveal_strlit("--summary-dir");
    reveal_strlit("--json");
    reveal_strlit("--skip-baseline");
    reveal_strlit("--k");
    reveal_strlit("--tolerance");
    assert("--baseline"@.len() == 10);
    assert("--summary-dir"@.len() == 13);
    assert("--json"@.len() == 6);
    assert("--skip-baseline"@.len() == 15);
    assert("--k"@.len() == 3);
    assert("--tolerance"@.len() == 11);
}

/// A flag that the regression program does not know is refused by its name; a flag for a path without
/// one is refused by its name too.
pub proof fn law_bad_ci_eval_flags_are_refused(flag: Seq<char>, rest: Seq<Seq<char>>)
    ensures
        flag != "--baseline"@ && flag != "--summary-dir"@ && flag != "--json"@ && flag
            != "--skip-baseline"@ && flag != "--k"@ && flag != "--tolerance"@ ==> ci_eval_args(
            seq![flag] + rest,
        ) == Err::<CiEvalView, _>(FlagErrorView::Unknown(flag)),
        flag == "--baseline"@ || flag == "--summary-dir"@ ==> ci_eval_args(seq![flag]) == Err::<
            CiEvalView,
            _,
        >(FlagErrorView::MissingPath(flag)),
{
}

/// What is said of a refused flag names the flag.
pub proof fn law_refusals_name_the_flag(flag: Seq<char>, tool: GaugeTool)
    ensures
        text::begins_with(
            refusal(FlagErrorView::Unknown(flag), tool),
            "unknown flag: "@ + flag,
        ),
        text::begins_with(refusal(FlagErrorView::MissingPath(flag), tool), flag),
{
    let said = "unknown flag: "@ + flag;
    crate::text_laws::law_text_is_found_where_it_stands(
        Seq::empty(),
        said,
        "\n"@ + CI_EVAL_USAGE@,
    );
    assert(said + ("\n"@ + CI_EVAL_USAGE@) =~= said + "\n"@ + CI_EVAL_USAGE@);
    crate::text_laws::law_text_is_found_where_it_stands(Seq::empty(), said, Seq::empty());
    assert(said + Seq::empty() =~= said);
    crate::text_laws::law_text_is_found_where_it_stands(
        Seq::empty(),
        flag,
        " requires a path"@,
    );
}

} // verus!

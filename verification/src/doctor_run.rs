//! The whole run of the checks on registrations, binaries and sessions, and the footprint of a
//! running server.

use vstd::prelude::*;
use crate::assistant::Assistant;
use crate::compat::ARTESIAN_VERSION;
use crate::doctor;
use crate::doctor::{ItemView, ReportItem, ResolvedCommand};
use crate::handshake::HandshakeOk;
use crate::processes::RunningMcpProcess;
use crate::registration;
use crate::registration::McpRegistrationEntry;
use crate::session::StaleResumeFinding;
use crate::sorting;
use crate::text;
use crate::update::VersionProbe;

verus! {

// ---------------------------------------------------------------------------------------------
// Footprints
// ---------------------------------------------------------------------------------------------

/// The unit of a footprint.
#[derive(Debug, Clone, Copy, PartialEq, Eq, Structural)]
pub enum FootprintUnit {
    Gigabytes,
    Megabytes,
    Kilobytes,
    Bytes,
}

/// A footprint as a tool wrote it: the digits and the unit.
#[derive(Debug, Clone, PartialEq, Eq)]
pub struct Footprint {
    pub digits: String,
    pub unit: FootprintUnit,
}

/// A footprint as a tool wrote it.
#[verifier::ext_equal]
pub struct FootprintView {
    pub digits: Seq<char>,
    pub unit: FootprintUnit,
}

/// The first line from `i` on that tells the footprint.
pub open spec fn footprint_line(lines: Seq<Seq<char>>, i: int) -> Option<Seq<char>>
    decreases lines.len() - i,
{
    if i < 0 || i >= lines.len() {
        None
    } else if text::begins_with(lines[i], "Physical footprint:"@) {
        Some(lines[i])
    } else {
        footprint_line(lines, i + 1)
    }
}

/// The footprint in a field: the last character tells the unit, where it is a letter for one.
pub open spec fn footprint_field(field: Seq<char>) -> Option<FootprintView> {
    if field.len() == 0 {
        None
    } else {
        let number = text::bare(field.drop_last());
        let last = field.last();
        if last == 'G' {
            Some(FootprintView { digits: number, unit: FootprintUnit::Gigabytes })
        } else if last == 'M' {
            Some(FootprintView { digits: number, unit: FootprintUnit::Megabytes })
        } else if last == 'K' {
            Some(FootprintView { digits: number, unit: FootprintUnit::Kilobytes })
        } else {
            Some(FootprintView { digits: text::bare(field), unit: FootprintUnit::Bytes })
        }
    }
}

/// The footprint that the output of the memory tool tells: what stands between the first and the
/// second colon of the line about it.
pub open spec fn footprint_in(output: Seq<char>) -> Option<FootprintView> {
    match footprint_line(text::lines_of(output), 0) {
        Some(line) => {
            let fields = text::pieces(line, ':');
            if fields.len() > 1 {
                footprint_field(text::bare(fields[1]))
            } else {
                None
            }
        },
        None => None,
    }
}

fn read_field(field: &str) -> (r: Option<Footprint>)
    ensures
        match r {
            Some(footprint) => footprint_field(field@) == Some(
                FootprintView { digits: footprint.digits@, unit: footprint.unit },
            ),
            None => footprint_field(field@) is None,
        },
{
    let cs = text::to_chars(field);
    if cs.len() == 0 {
        return None;
    }
    let number = text::string_of(&cs, 0, cs.len() - 1);
    assert(number@ =~= field@.drop_last());
    let digits = text::trim(number.as_str());
    let last: char = cs[cs.len() - 1];
    if last == 'G' {
        Some(Footprint { digits, unit: FootprintUnit::Gigabytes })
    } else if last == 'M' {
        Some(Footprint { digits, unit: FootprintUnit::Megabytes })
    } else if last == 'K' {
        Some(Footprint { digits, unit: FootprintUnit::Kilobytes })
    } else {
        Some(Footprint { digits: text::trim(field), unit: FootprintUnit::Bytes })
    }
}

/// The footprint that the output of the memory tool tells.
pub fn read_footprint(output: &str) -> (r: Option<Footprint>)
    ensures
        match r {
            Some(footprint) => footprint_in(output@) == Some(
                FootprintView { digits: footprint.digits@, unit: footprint.unit },
            ),
            None => footprint_in(output@) is None,
        },
{
    let lines = text::lines(output);
    let ghost all = text::lines_of(output@);
    let mut i: usize = 0;
    while i < lines.len()
        invariant
            text::texts(lines@) == all,
            all == text::lines_of(output@),
            i <= lines@.len(),
            footprint_line(all, 0) == footprint_line(all, i as int),
        decreases lines@.len() - i,
    {
        assert(all[i as int] == lines@[i as int]@);
        if text::starts_with(lines[i].as_str(), "Physical footprint:") {
            let fields = text::split_char(lines[i].as_str(), ':');
            assert(text::texts(fields@).len() == fields@.len());
            if fields.len() > 1 {
                assert(text::texts(fields@)[1] == fields@[1]@);
                let field = text::trim(fields[1].as_str());
                return read_field(field.as_str());
            }
            return None;
        }
        i = i + 1;
    }
    None
}

// ---------------------------------------------------------------------------------------------
// The run
// ---------------------------------------------------------------------------------------------

/// A registration with what its command resolves to, and what the program behind it resolves to
/// when the command is a script.
pub struct ResolvedRegistration {
    pub reg: McpRegistrationEntry,
    pub command: Option<ResolvedCommand>,
    pub program: Option<ResolvedCommand>,
}

/// What was found out about the machine for the checks. There is one cost for each process, one
/// probe for each version target and one handshake for each launch.
pub struct DoctorFacts {
    pub registrations: Vec<ResolvedRegistration>,
    pub processes: Result<Vec<RunningMcpProcess>, String>,
    pub costs: Vec<Option<String>>,
    pub combined: Option<String>,
    pub heavy: bool,
    pub probes: Vec<Option<VersionProbe>>,
    pub handshakes: Vec<Result<HandshakeOk, String>>,
    pub sessions: Result<Vec<StaleResumeFinding>, String>,
}

/// The registrations alone.
pub open spec fn plain(registrations: Seq<ResolvedRegistration>) -> Seq<McpRegistrationEntry> {
    Seq::new(registrations.len(), |i: int| registrations[i].reg)
}

/// The program that a registration finally runs.
pub open spec fn final_program(resolved: ResolvedRegistration) -> Seq<char> {
    registration::target_of(
        resolved.reg.entry.command@,
        match resolved.command {
            Some(command) => Some(command.path@),
            None => None,
        },
        match resolved.command {
            Some(command) => text::text_opt(command.script_target),
            None => None,
        },
        match resolved.program {
            Some(program) => Some(program.path@),
            None => None,
        },
    )
}

/// The programs that registrations finally run.
pub open spec fn final_programs(registrations: Seq<ResolvedRegistration>) -> Seq<Seq<char>> {
    Seq::new(registrations.len(), |i: int| final_program(registrations[i]))
}

/// The programs whose versions are asked for: each once, in the order of the registrations.
pub open spec fn targets_of(registrations: Seq<ResolvedRegistration>) -> Seq<Seq<char>> {
    doctor::firsts(final_programs(registrations), registrations.len() as int)
}

/// The programs whose versions are asked for: each once, in the order of the registrations.
pub fn version_targets(registrations: &Vec<ResolvedRegistration>) -> (r: Vec<String>)
    ensures
        text::texts(r@) == targets_of(registrations@),
{
    let ghost all = final_programs(registrations@);
    let mut programs: Vec<String> = Vec::new();
    let mut i: usize = 0;
    while i < registrations.len()
        invariant
            all == final_programs(registrations@),
            i <= registrations@.len(),
            programs@.len() == i,
            forall|j: int| 0 <= j < i ==> (#[trigger] programs@[j])@ == all[j],
        decreases registrations@.len() - i,
    {
        let resolved = &registrations[i];
        let (path, script): (Option<&str>, Option<&str>) = match &resolved.command {
            Some(command) => (
                Some(command.path.as_str()),
                match &command.script_target {
                    Some(target) => Some(target.as_str()),
                    None => None,
                },
            ),
            None => (None, None),
        };
        let program: Option<&str> = match &resolved.program {
            Some(program) => Some(program.path.as_str()),
            None => None,
        };
        programs.push(
            registration::final_target(resolved.reg.entry.command.as_str(), path, script, program),
        );
        i = i + 1;
    }
    assert(text::texts(programs@) =~= all);
    doctor::distinct_targets(&programs)
}

/// The registrations whose servers are started: each way of starting a server once.
pub open spec fn launches_of(registrations: Seq<ResolvedRegistration>) -> Seq<int> {
    doctor::launches(plain(registrations), registrations.len() as int)
}

fn copy_registrations(registrations: &Vec<ResolvedRegistration>) -> (r: Vec<McpRegistrationEntry>)
    ensures
        sorting::views(r@) == sorting::views(plain(registrations@)),
{
    let ghost all = plain(registrations@);
    let mut out: Vec<McpRegistrationEntry> = Vec::new();
    let mut i: usize = 0;
    while i < registrations.len()
        invariant
            all == plain(registrations@),
            i <= registrations@.len(),
            out@.len() == i,
            forall|j: int| 0 <= j < i ==> (#[trigger] out@[j])@ == all[j]@,
        decreases registrations@.len() - i,
    {
        let reg = &registrations[i].reg;
        out.push(
            McpRegistrationEntry {
                source_label: reg.source_label.clone(),
                server_name: reg.server_name.clone(),
                entry: reg.entry.copy(),
            },
        );
        i = i + 1;
    }
    assert(sorting::views(out@) =~= sorting::views(all));
    out
}

/// What is known is enough for the checks: one cost for each process, one probe for each version
/// target and one handshake for each launch.
pub open spec fn is_complete(facts: DoctorFacts) -> bool {
    &&& facts.processes is Ok ==> facts.processes->Ok_0@.len() == facts.costs@.len()
    &&& facts.probes@.len() == targets_of(facts.registrations@).len()
    &&& facts.handshakes@.len() == launches_of(facts.registrations@).len()
}

/// The findings on the paths of the first `n` registrations.
pub open spec fn path_findings(registrations: Seq<ResolvedRegistration>, n: int) -> Seq<ItemView>
    decreases n,
{
    if n <= 0 {
        Seq::empty()
    } else {
        let resolved = registrations[n - 1];
        path_findings(registrations, n - 1) + doctor::path_health(
            resolved.reg.source_label@,
            resolved.reg.server_name@,
            resolved.reg.entry.command@,
            resolved.command,
            resolved.program,
        )
    }
}

/// The findings on the versions of the first `n` targets.
pub open spec fn version_findings(
    targets: Seq<Seq<char>>,
    probes: Seq<Option<VersionProbe>>,
    n: int,
) -> Seq<ItemView>
    decreases n,
{
    if n <= 0 {
        Seq::empty()
    } else {
        version_findings(targets, probes, n - 1).push(
            doctor::version_finding(targets[n - 1], ARTESIAN_VERSION@, probes[n - 1]),
        )
    }
}

/// The findings on the handshakes of the first `n` launches.
pub open spec fn handshake_findings(
    registrations: Seq<ResolvedRegistration>,
    launches: Seq<int>,
    handshakes: Seq<Result<HandshakeOk, String>>,
    n: int,
) -> Seq<ItemView>
    decreases n,
{
    if n <= 0 {
        Seq::empty()
    } else {
        let entry = registrations[launches[n - 1]].reg.entry;
        handshake_findings(registrations, launches, handshakes, n - 1).push(
            doctor::handshake_finding(
                entry.command@,
                text::texts(entry.args@),
                handshakes[n - 1],
            ),
        )
    }
}

/// All findings, check by check: registrations, paths, processes, versions, handshakes, sessions.
pub open spec fn all_findings(assistant: Assistant, facts: DoctorFacts) -> Seq<ItemView> {
    let registrations = facts.registrations@;
    let targets = targets_of(registrations);
    let launches = launches_of(registrations);
    doctor::inventory(plain(registrations)) + path_findings(
        registrations,
        registrations.len() as int,
    ) + doctor::running(
        facts.processes,
        facts.costs@,
        text::text_opt(facts.combined),
        facts.heavy,
    ) + version_findings(targets, facts.probes@, targets.len() as int) + handshake_findings(
        registrations,
        launches,
        facts.handshakes@,
        launches.len() as int,
    ) + doctor::stale_resume(assistant, facts.sessions)
}

fn extend(out: &mut Vec<ReportItem>, mut items: Vec<ReportItem>)
    ensures
        sorting::views(final(out)@) == sorting::views(old(out)@) + sorting::views(items@),
{
    let ghost before = out@;
    let ghost more = items@;
    out.append(&mut items);
    assert(sorting::views(out@) =~= sorting::views(before) + sorting::views(more));
}

fn push_paths(out: &mut Vec<ReportItem>, registrations: &Vec<ResolvedRegistration>)
    ensures
        sorting::views(final(out)@) == sorting::views(old(out)@) + path_findings(
            registrations@,
            registrations@.len() as int,
        ),
{
    let ghost start = sorting::views(out@);
    let mut i: usize = 0;
    assert(start + path_findings(registrations@, 0) =~= start);
    while i < registrations.len()
        invariant
            i <= registrations@.len(),
            sorting::views(out@) == start + path_findings(registrations@, i as int),
        decreases registrations@.len() - i,
    {
        let resolved = &registrations[i];
        let command: Option<&ResolvedCommand> = match &resolved.command {
            Some(command) => Some(command),
            None => None,
        };
        let program: Option<&ResolvedCommand> = match &resolved.program {
            Some(program) => Some(program),
            None => None,
        };
        let items = doctor::check_path_health(&resolved.reg, command, program);
        extend(out, items);
        i = i + 1;
        assert(sorting::views(out@) =~= start + path_findings(registrations@, i as int));
    }
}

fn push_versions(
    out: &mut Vec<ReportItem>,
    targets: &Vec<String>,
    probes: &Vec<Option<VersionProbe>>,
)
    requires
        probes@.len() == targets@.len(),
    ensures
        sorting::views(final(out)@) == sorting::views(old(out)@) + version_findings(
            text::texts(targets@),
            probes@,
            targets@.len() as int,
        ),
{
    let ghost start = sorting::views(out@);
    let ghost names = text::texts(targets@);
    let mut i: usize = 0;
    assert(start + version_findings(names, probes@, 0) =~= start);
    while i < targets.len()
        invariant
            probes@.len() == targets@.len(),
            names == text::texts(targets@),
            i <= targets@.len(),
            sorting::views(out@) == start + version_findings(names, probes@, i as int),
        decreases targets@.len() - i,
    {
        assert(names[i as int] == targets@[i as int]@);
        let probe: Option<&VersionProbe> = match &probes[i] {
            Some(probe) => Some(probe),
            None => None,
        };
        let item = doctor::check_version_drift(targets[i].as_str(), ARTESIAN_VERSION, probe);
        proof {
            sorting::lemma_views_push(out@, item);
        }
        out.push(item);
        i = i + 1;
        assert(sorting::views(out@) =~= start + version_findings(names, probes@, i as int));
    }
}

fn push_handshakes(
    out: &mut Vec<ReportItem>,
    registrations: &Vec<ResolvedRegistration>,
    launches: &Vec<usize>,
    handshakes: &Vec<Result<HandshakeOk, String>>,
)
    requires
        handshakes@.len() == launches@.len(),
        forall|k: int| 0 <= k < launches@.len() ==> #[trigger] launches@[k] < registrations@.len(),
    ensures
        sorting::views(final(out)@) == sorting::views(old(out)@) + handshake_findings(
            registrations@,
            launches@.map_values(|i: usize| i as int),
            handshakes@,
            launches@.len() as int,
        ),
{
    let ghost start = sorting::views(out@);
    let ghost order = launches@.map_values(|i: usize| i as int);
    let mut i: usize = 0;
    assert(start + handshake_findings(registrations@, order, handshakes@, 0) =~= start);
    while i < launches.len()
        invariant
            handshakes@.len() == launches@.len(),
            forall|k: int|
                0 <= k < launches@.len() ==> #[trigger] launches@[k] < registrations@.len(),
            order == launches@.map_values(|i: usize| i as int),
            i <= launches@.len(),
            sorting::views(out@) == start + handshake_findings(
                registrations@,
                order,
                handshakes@,
                i as int,
            ),
        decreases launches@.len() - i,
    {
        assert(launches@[i as int] < registrations@.len());
        let k: usize = launches[i];
        assert(order[i as int] == k);
        let item = doctor::check_handshake(&registrations[k].reg.entry, &handshakes[i]);
        proof {
            sorting::lemma_views_push(out@, item);
        }
        out.push(item);
        i = i + 1;
        assert(sorting::views(out@) =~= start + handshake_findings(
            registrations@,
            order,
            handshakes@,
            i as int,
        ));
    }
}

/// All findings, check by check.
pub fn run(assistant: &Assistant, facts: &DoctorFacts) -> (r: Vec<ReportItem>)
    requires
        is_complete(*facts),
    ensures
        sorting::views(r@) == all_findings(*assistant, *facts),
{
    let regs = copy_registrations(&facts.registrations);
    proof {
        doctor::lemma_inventory_views(regs@, plain(facts.registrations@));
        doctor::lemma_launches_views(
            regs@,
            plain(facts.registrations@),
            regs@.len() as int,
        );
        assert(sorting::views(regs@).len() == regs@.len());
    }
    let mut out = doctor::report_registrations(&regs);
    push_paths(&mut out, &facts.registrations);
    let combined: Option<&str> = match &facts.combined {
        Some(combined) => Some(combined.as_str()),
        None => None,
    };
    let running = doctor::check_running_processes(
        &facts.processes,
        &facts.costs,
        combined,
        facts.heavy,
    );
    extend(&mut out, running);
    let targets = version_targets(&facts.registrations);
    assert(text::texts(targets@).len() == targets@.len());
    push_versions(&mut out, &targets, &facts.probes);
    let launches = doctor::distinct_launches(&regs);
    assert(launches@.map_values(|i: usize| i as int).len() == launches@.len());
    push_handshakes(&mut out, &facts.registrations, &launches, &facts.handshakes);
    let sessions = doctor::check_stale_resume(assistant, &facts.sessions);
    extend(&mut out, sessions);
    out
}

/// The launches whose handshakes are made.
pub fn launch_order(registrations: &Vec<ResolvedRegistration>) -> (r: Vec<usize>)
    ensures
        r@.map_values(|i: usize| i as int) == launches_of(registrations@),
        forall|k: int| 0 <= k < r@.len() ==> #[trigger] r@[k] < registrations@.len(),
{
    let regs = copy_registrations(registrations);
    proof {
        doctor::lemma_launches_views(regs@, plain(registrations@), regs@.len() as int);
        assert(sorting::views(regs@).len() == regs@.len());
    }
    doctor::distinct_launches(&regs)
}

/// The whole report as text, and how the checks ended.
pub fn report(items: &Vec<ReportItem>) -> (r: (String, Result<String, String>))
    ensures
        r.0@ == doctor::report_text(sorting::views(items@), items@.len() as int),
        (r.1 is Ok) == (doctor::failures(sorting::views(items@), items@.len() as int) == 0),
        r.1 is Ok ==> r.1->Ok_0@ == "\u{2713} all --mcp checks passed"@,
        r.1 is Err ==> r.1->Err_0@ == text::decimal(
            doctor::failures(sorting::views(items@), items@.len() as int) as nat,
        ) + " problem(s) found \u{2014} see the fixes above"@,
{
    let ghost all = sorting::views(items@);
    let mut out = doctor::heading();
    let mut i: usize = 0;
    while i < items.len()
        invariant
            all == sorting::views(items@),
            i <= items@.len(),
            out@ == doctor::report_text(all, i as int),
        decreases items@.len() - i,
    {
        assert(all[i as int] == items@[i as int]@);
        let line = doctor::render_item(&items[i]);
        out.append(line.as_str());
        i = i + 1;
    }
    let problems = doctor::count_failures(items);
    (out, doctor::verdict(problems))
}

proof fn lemma_failures(items: Seq<ItemView>, n: int)
    requires
        0 <= n <= items.len(),
    ensures
        doctor::failures(items, n) >= 0,
        doctor::failures(items, n) == 0 <==> forall|i: int|
            0 <= i < n ==> !doctor::is_failure(#[trigger] items[i]),
    decreases n,
{
    if n > 0 {
        lemma_failures(items, n - 1);
    }
}

/// The checks pass exactly when nothing that was found is a failure; warnings do not count.
pub proof fn law_passes_without_failures(items: Seq<ItemView>)
    ensures
        doctor::failures(items, items.len() as int) == 0 <==> forall|i: int|
            0 <= i < items.len() ==> !doctor::is_failure(#[trigger] items[i]),
{
    lemma_failures(items, items.len() as int);
}

/// Nothing in the list is a finding that fails.
pub open spec fn is_clean(items: Seq<ItemView>) -> bool {
    forall|i: int| 0 <= i < items.len() ==> doctor::level_of(#[trigger] items[i]) != Some(doctor::Level::Fail)
}

/// A registration can be started: its command was found and can be run, and where it is a script, so
/// was, and can, the program behind it.
pub open spec fn can_start(resolved: ResolvedRegistration) -> bool {
    &&& resolved.command is Some
    &&& resolved.command->0.executable
    &&& resolved.command->0.script_target is Some ==> resolved.program is Some
        && resolved.program->0.executable
}

proof fn lemma_clean_concat(a: Seq<ItemView>, b: Seq<ItemView>)
    ensures
        is_clean(a + b) <==> is_clean(a) && is_clean(b),
{
    let all = a + b;
    if is_clean(all) {
        assert forall|i: int| 0 <= i < a.len() implies doctor::level_of(#[trigger] a[i]) != Some(
            doctor::Level::Fail,
        ) by {
            assert(all[i] == a[i]);
        }
        assert forall|i: int| 0 <= i < b.len() implies doctor::level_of(#[trigger] b[i]) != Some(
            doctor::Level::Fail,
        ) by {
            assert(all[a.len() + i] == b[i]);
        }
    }
}

proof fn lemma_clean_paths(registrations: Seq<ResolvedRegistration>, n: int)
    requires
        0 <= n <= registrations.len(),
    ensures
        is_clean(path_findings(registrations, n)) <==> forall|i: int|
            0 <= i < n ==> can_start(#[trigger] registrations[i]),
    decreases n,
{
    if n > 0 {
        lemma_clean_paths(registrations, n - 1);
        let resolved = registrations[n - 1];
        let here = doctor::path_health(
            resolved.reg.source_label@,
            resolved.reg.server_name@,
            resolved.reg.entry.command@,
            resolved.command,
            resolved.program,
        );
        doctor::law_path_levels(
            resolved.reg.source_label@,
            resolved.reg.server_name@,
            resolved.reg.entry.command@,
            resolved.command,
            resolved.program,
        );
        lemma_clean_concat(path_findings(registrations, n - 1), here);
        if is_clean(here) {
            assert(doctor::level_of(here[0]) != Some(doctor::Level::Fail));
            if here.len() > 1 {
                assert(doctor::level_of(here[1]) != Some(doctor::Level::Fail));
            }
        }
        assert(is_clean(here) <==> can_start(resolved));
    }
}

proof fn lemma_clean_versions(targets: Seq<Seq<char>>, probes: Seq<Option<VersionProbe>>, n: int)
    ensures
        is_clean(version_findings(targets, probes, n)),
    decreases n,
{
    if n > 0 {
        lemma_clean_versions(targets, probes, n - 1);
        doctor::law_version_levels(targets[n - 1], ARTESIAN_VERSION@, probes[n - 1]);
    }
}

proof fn lemma_clean_handshakes(
    registrations: Seq<ResolvedRegistration>,
    launches: Seq<int>,
    handshakes: Seq<Result<HandshakeOk, String>>,
    n: int,
)
    requires
        0 <= n <= handshakes.len(),
    ensures
        is_clean(handshake_findings(registrations, launches, handshakes, n)) <==> forall|i: int|
            0 <= i < n ==> (#[trigger] handshakes[i]) is Ok,
    decreases n,
{
    if n > 0 {
        lemma_clean_handshakes(registrations, launches, handshakes, n - 1);
        let entry = registrations[launches[n - 1]].reg.entry;
        let last = doctor::handshake_finding(
            entry.command@,
            text::texts(entry.args@),
            handshakes[n - 1],
        );
        doctor::law_handshake_levels(entry.command@, text::texts(entry.args@), handshakes[n - 1]);
        let before = handshake_findings(registrations, launches, handshakes, n - 1);
        lemma_clean_concat(before, seq![last]);
        assert(before.push(last) =~= before + seq![last]);
        if is_clean(seq![last]) {
            assert(doctor::level_of(seq![last][0]) != Some(doctor::Level::Fail));
        }
    }
}

/// The checks pass exactly when every registration can be started and every server that was started
/// answered. Versions, running servers, sessions and a missing registration only warn.
pub proof fn law_checks_pass_iff_servers_start_and_answer(assistant: Assistant, facts: DoctorFacts)
    requires
        is_complete(facts),
    ensures
        ({
            let found = all_findings(assistant, facts);
            doctor::failures(found, found.len() as int) == 0 <==> (forall|i: int|
                0 <= i < facts.registrations@.len() ==> can_start(
                    #[trigger] facts.registrations@[i],
                )) && (forall|k: int|
                0 <= k < facts.handshakes@.len() ==> (#[trigger] facts.handshakes@[k]) is Ok)
        }),
{
    let registrations = facts.registrations@;
    let targets = targets_of(registrations);
    let launches = launches_of(registrations);
    let found = all_findings(assistant, facts);
    let a = doctor::inventory(plain(registrations));
    let b = path_findings(registrations, registrations.len() as int);
    let c = doctor::running(
        facts.processes,
        facts.costs@,
        text::text_opt(facts.combined),
        facts.heavy,
    );
    let d = version_findings(targets, facts.probes@, targets.len() as int);
    let e = handshake_findings(
        registrations,
        launches,
        facts.handshakes@,
        launches.len() as int,
    );
    let f = doctor::stale_resume(assistant, facts.sessions);
    lemma_clean_concat(a, b);
    lemma_clean_concat(a + b, c);
    lemma_clean_concat(a + b + c, d);
    lemma_clean_concat(a + b + c + d, e);
    lemma_clean_concat(a + b + c + d + e, f);
    doctor::law_inventory_lines(plain(registrations), 0);
    lemma_clean_paths(registrations, registrations.len() as int);
    doctor::law_running_levels(
        facts.processes,
        facts.costs@,
        text::text_opt(facts.combined),
        facts.heavy,
        0,
    );
    lemma_clean_versions(targets, facts.probes@, targets.len() as int);
    lemma_clean_handshakes(registrations, launches, facts.handshakes@, launches.len() as int);
    doctor::law_session_levels(assistant, facts.sessions, 0);
    assert(is_clean(f)) by {
        assert forall|i: int| 0 <= i < f.len() implies doctor::level_of(#[trigger] f[i]) != Some(
            doctor::Level::Fail,
        ) by {
            doctor::law_session_levels(assistant, facts.sessions, i);
        }
    }
    lemma_failures(found, found.len() as int);
    assert(doctor::failures(found, found.len() as int) == 0 <==> is_clean(found)) by {
        if is_clean(found) {
            assert forall|i: int| 0 <= i < found.len() implies !doctor::is_failure(
                #[trigger] found[i],
            ) by {
                assert(doctor::level_of(found[i]) != Some(doctor::Level::Fail));
            }
        }
        if doctor::failures(found, found.len() as int) == 0 {
            assert forall|i: int| 0 <= i < found.len() implies doctor::level_of(
                #[trigger] found[i],
            ) != Some(doctor::Level::Fail) by {
                assert(!doctor::is_failure(found[i]));
            }
        }
    }
}

/// The number of failures goes up by one with a finding that fails, and stays with anything else.
pub proof fn law_failures_are_counted(items: Seq<ItemView>, item: ItemView)
    ensures
        ({
            let more = items.push(item);
            doctor::failures(more, more.len() as int) == doctor::failures(
                items,
                items.len() as int,
            ) + (if doctor::level_of(item) == Some(doctor::Level::Fail) {
                1int
            } else {
                0int
            })
        }),
        doctor::failures(Seq::empty(), 0) == 0,
{
    lemma_failures_prefix(items, items.push(item), items.len() as int);
}

proof fn lemma_failures_prefix(a: Seq<ItemView>, b: Seq<ItemView>, n: int)
    requires
        n <= a.len(),
        n <= b.len(),
        forall|i: int| 0 <= i < n ==> #[trigger] a[i] == b[i],
    ensures
        doctor::failures(a, n) == doctor::failures(b, n),
    decreases n,
{
    if n > 0 {
        lemma_failures_prefix(a, b, n - 1);
        assert(a[n - 1] == b[n - 1]);
    }
}

/// A footprint is read as it is written: a number with a letter for gigabytes, megabytes or kilobytes
/// right behind it, or a number alone in bytes.
pub proof fn law_footprint_units(number: Seq<char>)
    requires
        text::is_word(number),
        text::is_digit(number.last()),
    ensures
        footprint_field(number.push('G')) == Some(
            FootprintView { digits: number, unit: FootprintUnit::Gigabytes },
        ),
        footprint_field(number.push('M')) == Some(
            FootprintView { digits: number, unit: FootprintUnit::Megabytes },
        ),
        footprint_field(number.push('K')) == Some(
            FootprintView { digits: number, unit: FootprintUnit::Kilobytes },
        ),
        footprint_field(number) == Some(
            FootprintView { digits: number, unit: FootprintUnit::Bytes },
        ),
{
    text::lemma_trimmed_stays(number, text::CharClass::Space);
    assert(number.push('G').drop_last() =~= number);
    assert(number.push('M').drop_last() =~= number);
    assert(number.push('K').drop_last() =~= number);
}

/// The footprint is told by the first line that begins with `Physical footprint:`, by what follows up
/// to another colon; other lines play no part.
pub proof fn law_footprint_line_is_the_first(output: Seq<char>, k: int, rest: Seq<char>)
    requires
        0 <= k < text::lines_of(output).len(),
        forall|j: int|
            0 <= j < k ==> !text::begins_with(
                #[trigger] text::lines_of(output)[j],
                "Physical footprint:"@,
            ),
        text::lines_of(output)[k] == "Physical footprint:"@ + rest,
        !rest.contains(':'),
    ensures
        footprint_in(output) == footprint_field(text::bare(rest)),
{
    reveal_strlit("Physical footprint:");
    reveal_strlit("Physical footprint");
    let lines = text::lines_of(output);
    let line = lines[k];
    let front = "Physical footprint"@;
    assert("Physical footprint:"@ =~= front + seq![':']);
    assert(line =~= front + seq![':'] + rest);
    assert(line.subrange(0, "Physical footprint:"@.len() as int) =~= "Physical footprint:"@);
    lemma_footprint_line(lines, k, 0);
    crate::paths::lemma_pieces_concat(front, ':', rest);
    let class = text::CharClass::Only(':');
    text::lemma_span_bound(rest, class);
    let n = text::span_outside(rest, class);
    if n < rest.len() {
        assert(rest.contains(rest[n]));
    }
    text::lemma_span_bound(front, class);
    let m = text::span_outside(front, class);
    if m < front.len() {
        assert(front[m] == ':');
    }
    assert(text::pieces(rest, ':') =~= seq![rest]);
    assert(text::pieces(front, ':') =~= seq![front]);
    assert(text::pieces(line, ':') =~= seq![front, rest]);
}

proof fn lemma_footprint_line(lines: Seq<Seq<char>>, k: int, i: int)
    requires
        0 <= i <= k < lines.len(),
        forall|j: int|
            0 <= j < k ==> !text::begins_with(#[trigger] lines[j], "Physical footprint:"@),
        text::begins_with(lines[k], "Physical footprint:"@),
    ensures
        footprint_line(lines, i) == Some(lines[k]),
    decreases k - i,
{
    if i < k {
        lemma_footprint_line(lines, k, i + 1);
    }
}

} // verus!

//! Lane contracts for parallel specialist lanes in a team.
//!
//! A [`Lane`] is a named specialist with a written contract: what it owns, what it must not do,
//! what it may consume, and who receives its work. The [`LaneCoordinator`] keeps a task from being
//! active twice, holds each lane to its budget, and tells where finished work goes.

use vstd::prelude::*;
use crate::text;
use crate::text_map;
use crate::text_map::{TextMap, TextSet};

verus! {

// ---------------------------------------------------------------------------------------------
// Contracts
// ---------------------------------------------------------------------------------------------

/// What a lane may consume. `None` is no limit.
#[derive(Debug, Clone, Copy, PartialEq, Eq, Structural)]
pub struct LaneBudget {
    /// The number of tasks that may be active in the lane at once.
    pub max_concurrent_tasks: Option<usize>,
    /// The number of turns that the lane may take over all its tasks.
    pub max_turns: Option<u32>,
    /// An advisory cap on tokens, which is recorded and not enforced.
    pub token_cap: Option<u64>,
}

impl LaneBudget {
    /// No limits.
    pub fn unlimited() -> (r: Self)
        ensures
            r == (LaneBudget { max_concurrent_tasks: None, max_turns: None, token_cap: None }),
    {
        LaneBudget { max_concurrent_tasks: None, max_turns: None, token_cap: None }
    }
}

impl Default for LaneBudget {
    fn default() -> (r: Self)
        ensures
            r == (LaneBudget { max_concurrent_tasks: None, max_turns: None, token_cap: None }),
    {
        LaneBudget::unlimited()
    }
}

/// The written contract of a lane.
#[derive(Debug, Clone, PartialEq, Eq)]
pub struct LaneContract {
    /// What the lane owns.
    pub owned_scope: String,
    /// What the lane must not do.
    pub non_goals: Vec<String>,
    /// What the lane may consume.
    pub budget: LaneBudget,
    /// Who receives the summary of a finished task; `None` is the lead.
    pub handoff_to: Option<String>,
    /// The tools that the lane may call; none listed is no restriction.
    pub allowed_tools: Vec<String>,
    /// The agent that the lane uses.
    pub agent_constraint: Option<String>,
}

/// What a contract says.
#[verifier::ext_equal]
pub struct ContractView {
    pub owned_scope: Seq<char>,
    pub non_goals: Seq<Seq<char>>,
    pub budget: LaneBudget,
    pub handoff_to: Option<Seq<char>>,
    pub allowed_tools: Seq<Seq<char>>,
    pub agent_constraint: Option<Seq<char>>,
}

impl View for LaneContract {
    type V = ContractView;

    open spec fn view(&self) -> ContractView {
        ContractView {
            owned_scope: self.owned_scope@,
            non_goals: text::texts(self.non_goals@),
            budget: self.budget,
            handoff_to: text::text_opt(self.handoff_to),
            allowed_tools: text::texts(self.allowed_tools@),
            agent_constraint: text::text_opt(self.agent_constraint),
        }
    }
}

impl LaneContract {
    /// A contract with nothing but a scope.
    pub fn minimal(owned_scope: &str) -> (r: Self)
        ensures
            r@ == (ContractView {
                owned_scope: owned_scope@,
                non_goals: Seq::empty(),
                budget: LaneBudget {
                    max_concurrent_tasks: None,
                    max_turns: None,
                    token_cap: None,
                },
                handoff_to: None,
                allowed_tools: Seq::empty(),
                agent_constraint: None,
            }),
    {
        let r = LaneContract {
            owned_scope: owned_scope.to_owned(),
            non_goals: Vec::new(),
            budget: LaneBudget::unlimited(),
            handoff_to: None,
            allowed_tools: Vec::new(),
            agent_constraint: None,
        };
        assert(r@.non_goals =~= Seq::empty());
        assert(r@.allowed_tools =~= Seq::empty());
        r
    }

    /// A copy of the contract.
    pub fn copy(&self) -> (r: Self)
        ensures
            r@ == self@,
    {
        LaneContract {
            owned_scope: self.owned_scope.clone(),
            non_goals: text::copy_strings(&self.non_goals),
            budget: self.budget,
            handoff_to: text::copy_opt(&self.handoff_to),
            allowed_tools: text::copy_strings(&self.allowed_tools),
            agent_constraint: text::copy_opt(&self.agent_constraint),
        }
    }
}

/// A named specialist lane.
#[derive(Debug, Clone, PartialEq, Eq)]
pub struct Lane {
    /// The name of the lane, unique within its team.
    pub name: String,
    /// The role that the lane plays.
    pub definition: String,
    /// The written contract.
    pub contract: LaneContract,
}

/// What a lane is.
#[verifier::ext_equal]
pub struct LaneView {
    pub name: Seq<char>,
    pub definition: Seq<char>,
    pub contract: ContractView,
}

impl View for Lane {
    type V = LaneView;

    open spec fn view(&self) -> LaneView {
        LaneView { name: self.name@, definition: self.definition@, contract: self.contract@ }
    }
}

impl Lane {
    /// A lane with a name, a role and a contract.
    pub fn new(name: &str, definition: &str, contract: LaneContract) -> (r: Self)
        ensures
            r@ == (LaneView { name: name@, definition: definition@, contract: contract@ }),
    {
        Lane { name: name.to_owned(), definition: definition.to_owned(), contract }
    }
}

// ---------------------------------------------------------------------------------------------
// Errors
// ---------------------------------------------------------------------------------------------

/// Why the coordinator refused a request.
#[derive(Debug, Clone, PartialEq, Eq)]
pub enum LaneError {
    LaneNotFound(String),
    DuplicateTask { task: String, owner: String },
    BudgetExceeded(String),
}

/// Why the coordinator refused a request.
pub enum LaneErrorView {
    LaneNotFound(Seq<char>),
    DuplicateTask { task: Seq<char>, owner: Seq<char> },
    BudgetExceeded(Seq<char>),
}

impl View for LaneError {
    type V = LaneErrorView;

    open spec fn view(&self) -> LaneErrorView {
        match *self {
            LaneError::LaneNotFound(name) => LaneErrorView::LaneNotFound(name@),
            LaneError::DuplicateTask { task, owner } => LaneErrorView::DuplicateTask {
                task: task@,
                owner: owner@,
            },
            LaneError::BudgetExceeded(message) => LaneErrorView::BudgetExceeded(message@),
        }
    }
}

impl LaneError {
    /// The error as text.
    pub fn message(&self) -> (r: String)
        ensures
            r@ == (match self@ {
                LaneErrorView::LaneNotFound(name) => "lane '"@ + name + "' not found"@,
                LaneErrorView::DuplicateTask { task, owner } => "duplicate task: task '"@ + task
                    + "' is already active in lane '"@ + owner + "'"@,
                LaneErrorView::BudgetExceeded(message) => "lane budget exceeded: "@ + message,
            }),
    {
        match self {
            LaneError::LaneNotFound(name) => {
                let mut out = "lane '".to_owned();
                out.append(name.as_str());
                out.append("' not found");
                out
            },
            LaneError::DuplicateTask { task, owner } => {
                let mut out = "duplicate task: task '".to_owned();
                out.append(task.as_str());
                out.append("' is already active in lane '");
                out.append(owner.as_str());
                out.append("'");
                out
            },
            LaneError::BudgetExceeded(message) => {
                let mut out = "lane budget exceeded: ".to_owned();
                out.append(message.as_str());
                out
            },
        }
    }
}

/// What a request gave: nothing, or why it was refused.
pub open spec fn outcome(r: Result<(), LaneError>) -> Result<(), LaneErrorView> {
    match r {
        Ok(()) => Ok(()),
        Err(error) => Err(error@),
    }
}

// ---------------------------------------------------------------------------------------------
// The model of a team
// ---------------------------------------------------------------------------------------------

/// An active task: its id, its title as titles are compared, and the lane that owns it.
#[verifier::ext_equal]
pub struct TaskView {
    pub task_id: Seq<char>,
    pub canonical_title: Seq<char>,
    pub lane_name: Seq<char>,
}

/// What is known of a lane.
#[verifier::ext_equal]
pub struct LaneStateView {
    pub lane: LaneView,
    pub turns_used: int,
    pub tokens_used: int,
    pub active: Set<Seq<char>>,
}

impl LaneStateView {
    /// The lane may take one more task.
    pub open spec fn has_room(self) -> bool {
        match self.lane.contract.budget.max_concurrent_tasks {
            Some(cap) => self.active.len() < cap,
            None => true,
        }
    }

    /// The lane may take one more turn.
    pub open spec fn has_turn(self) -> bool {
        match self.lane.contract.budget.max_turns {
            Some(cap) => self.turns_used < cap,
            None => true,
        }
    }

    /// The lane keeps to its limit of turns.
    pub open spec fn within_turns(self) -> bool {
        match self.lane.contract.budget.max_turns {
            Some(cap) => self.turns_used <= cap,
            None => true,
        }
    }

    /// The turns used once a task is completed: one more while the lane has one left.
    pub open spec fn turns_after_task(self) -> int {
        if self.has_turn() {
            self.turns_used + 1
        } else {
            self.turns_used
        }
    }

    /// The lane keeps to its limit of active tasks.
    pub open spec fn within_cap(self) -> bool {
        match self.lane.contract.budget.max_concurrent_tasks {
            Some(cap) => self.active.len() <= cap,
            None => true,
        }
    }
}

/// The lanes of a team and its active tasks, the earliest first.
#[verifier::ext_equal]
pub struct TeamView {
    pub lanes: Map<Seq<char>, LaneStateView>,
    pub tasks: Seq<TaskView>,
}

/// A title as titles are compared: trimmed and in lower case.
pub open spec fn canonical_title(title: Seq<char>) -> Seq<char> {
    text::lowered(text::bare(title))
}

/// A task with the id, or with the title, is active at `i`.
pub open spec fn clashes(task: TaskView, id: Seq<char>, title: Seq<char>) -> bool {
    task.task_id == id || task.canonical_title == title
}

/// The first task at or after `i` with the id or the title.
pub open spec fn first_clash(
    tasks: Seq<TaskView>,
    id: Seq<char>,
    title: Seq<char>,
    i: int,
) -> Option<int>
    decreases tasks.len() - i,
{
    if i >= tasks.len() {
        None
    } else if clashes(tasks[i], id, title) {
        Some(i)
    } else {
        first_clash(tasks, id, title, i + 1)
    }
}

/// The first task at or after `i` with the id.
pub open spec fn first_with_id(tasks: Seq<TaskView>, id: Seq<char>, i: int) -> Option<int>
    decreases tasks.len() - i,
{
    if i >= tasks.len() {
        None
    } else if tasks[i].task_id == id {
        Some(i)
    } else {
        first_with_id(tasks, id, i + 1)
    }
}

/// The text for a lane that takes no more tasks.
pub open spec fn cap_message(lane_name: Seq<char>, cap: Option<usize>) -> Seq<char> {
    "lane '"@ + lane_name + "' concurrent-task cap ("@ + text::decimal(
        match cap {
            Some(cap) => cap as nat,
            None => 0,
        },
    ) + ") reached"@
}

/// The text for a lane that takes no more turns.
pub open spec fn turn_message(lane_name: Seq<char>, cap: Option<u32>) -> Seq<char> {
    "lane '"@ + lane_name + "' turn budget ("@ + text::decimal(
        match cap {
            Some(cap) => cap as nat,
            None => 0,
        },
    ) + ") exhausted"@
}

impl TeamView {
    /// A team without lanes.
    pub open spec fn empty() -> TeamView {
        TeamView { lanes: Map::empty(), tasks: Seq::empty() }
    }

    /// The team with a lane registered anew.
    pub open spec fn registered(self, lane: LaneView) -> TeamView {
        TeamView {
            lanes: self.lanes.insert(
                lane.name,
                LaneStateView { lane, turns_used: 0, tokens_used: 0, active: Set::empty() },
            ),
            ..self
        }
    }

    /// What assigning a task gives. The task must not be active in any lane, by id or by title;
    /// the lane must be known and have room.
    pub open spec fn assignment(self, lane_name: Seq<char>, id: Seq<char>, title: Seq<char>) -> Result<
        (),
        LaneErrorView,
    > {
        match first_clash(self.tasks, id, canonical_title(title), 0) {
            Some(i) => Err(
                LaneErrorView::DuplicateTask { task: id, owner: self.tasks[i].lane_name },
            ),
            None => if !self.lanes.dom().contains(lane_name) {
                Err(LaneErrorView::LaneNotFound(lane_name))
            } else if !self.lanes[lane_name].has_room() {
                Err(
                    LaneErrorView::BudgetExceeded(
                        cap_message(
                            lane_name,
                            self.lanes[lane_name].lane.contract.budget.max_concurrent_tasks,
                        ),
                    ),
                )
            } else {
                Ok(())
            },
        }
    }

    /// The team after a task was asked to be assigned. A refusal changes nothing.
    pub open spec fn assigned(self, lane_name: Seq<char>, id: Seq<char>, title: Seq<char>) -> TeamView {
        if self.assignment(lane_name, id, title) is Ok {
            let state = self.lanes[lane_name];
            TeamView {
                lanes: self.lanes.insert(
                    lane_name,
                    LaneStateView { active: state.active.insert(id), ..state },
                ),
                tasks: self.tasks.push(
                    TaskView { task_id: id, canonical_title: canonical_title(title), lane_name },
                ),
            }
        } else {
            self
        }
    }

    /// What completing a task gives: the lane that owned it and who receives the work.
    pub open spec fn completion(self, id: Seq<char>) -> Option<(Seq<char>, Option<Seq<char>>)> {
        match first_with_id(self.tasks, id, 0) {
            Some(i) => {
                let owner = self.tasks[i].lane_name;
                if self.lanes.dom().contains(owner) {
                    Some((owner, self.lanes[owner].lane.contract.handoff_to))
                } else {
                    None
                }
            },
            None => None,
        }
    }

    /// The team after a task was completed: its slot is free, one turn is counted where the lane has
    /// one left, and the tokens are added.
    pub open spec fn completed(self, id: Seq<char>, tokens: int) -> TeamView {
        match first_with_id(self.tasks, id, 0) {
            Some(i) => {
                let owner = self.tasks[i].lane_name;
                let tasks = self.tasks.remove(i);
                if self.lanes.dom().contains(owner) {
                    let state = self.lanes[owner];
                    TeamView {
                        lanes: self.lanes.insert(
                            owner,
                            LaneStateView {
                                active: state.active.remove(id),
                                turns_used: state.turns_after_task(),
                                tokens_used: state.tokens_used + tokens,
                                ..state
                            },
                        ),
                        tasks,
                    }
                } else {
                    TeamView { tasks, ..self }
                }
            },
            None => self,
        }
    }

    /// What taking a turn gives.
    pub open spec fn turn(self, lane_name: Seq<char>) -> Result<(), LaneErrorView> {
        if !self.lanes.dom().contains(lane_name) {
            Err(LaneErrorView::LaneNotFound(lane_name))
        } else if !self.lanes[lane_name].has_turn() {
            Err(
                LaneErrorView::BudgetExceeded(
                    turn_message(lane_name, self.lanes[lane_name].lane.contract.budget.max_turns),
                ),
            )
        } else {
            Ok(())
        }
    }

    /// The team after a turn was asked for.
    pub open spec fn turned(self, lane_name: Seq<char>) -> TeamView {
        if self.turn(lane_name) is Ok {
            let state = self.lanes[lane_name];
            TeamView {
                lanes: self.lanes.insert(
                    lane_name,
                    LaneStateView { turns_used: state.turns_used + 1, ..state },
                ),
                ..self
            }
        } else {
            self
        }
    }

    /// The lane that owns an active task.
    pub open spec fn owner(self, id: Seq<char>) -> Option<Seq<char>> {
        match first_with_id(self.tasks, id, 0) {
            Some(i) => Some(self.tasks[i].lane_name),
            None => None,
        }
    }

    /// No task is active twice, by id or by title; every active task has a known owner; a lane
    /// counts only tasks that it owns, no more than its cap, has used no more turns than it may, and
    /// is known by its own name.
    pub open spec fn sound(self) -> bool {
        &&& forall|i: int, j: int|
            0 <= i < j < self.tasks.len() ==> (#[trigger] self.tasks[i]).task_id != (
            #[trigger] self.tasks[j]).task_id && self.tasks[i].canonical_title
                != self.tasks[j].canonical_title
        &&& forall|i: int|
            0 <= i < self.tasks.len() ==> self.lanes.dom().contains(
                (#[trigger] self.tasks[i]).lane_name,
            )
        &&& forall|name: Seq<char>| #[trigger]
            self.lanes.dom().contains(name) ==> {
                &&& self.lanes[name].lane.name == name
                &&& self.lanes[name].active.finite()
                &&& self.lanes[name].within_cap()
                &&& self.lanes[name].within_turns()
            }
        &&& forall|name: Seq<char>, id: Seq<char>|
            self.lanes.dom().contains(name) && #[trigger] self.lanes[name].active.contains(id)
                ==> self.owned(id, name)
    }

    /// A task with the id is active and owned by the lane.
    pub open spec fn owned(self, id: Seq<char>, lane_name: Seq<char>) -> bool {
        exists|i: int|
            0 <= i < self.tasks.len() && (#[trigger] self.tasks[i]).task_id == id
                && self.tasks[i].lane_name == lane_name
    }
}

// ---------------------------------------------------------------------------------------------
// The coordinator
// ---------------------------------------------------------------------------------------------

/// An active task.
#[derive(Debug, Clone, PartialEq, Eq)]
struct LaneTaskEntry {
    task_id: String,
    canonical_title: String,
    lane_name: String,
}

impl View for LaneTaskEntry {
    type V = TaskView;

    closed spec fn view(&self) -> TaskView {
        TaskView {
            task_id: self.task_id@,
            canonical_title: self.canonical_title@,
            lane_name: self.lane_name@,
        }
    }
}

/// What the coordinator knows of a lane.
pub struct LaneState {
    lane: Lane,
    turns_used: u32,
    tokens_used: u64,
    active_task_ids: TextSet,
}

impl View for LaneState {
    type V = LaneStateView;

    closed spec fn view(&self) -> LaneStateView {
        LaneStateView {
            lane: self.lane@,
            turns_used: self.turns_used as int,
            tokens_used: self.tokens_used as int,
            active: self.active_task_ids@,
        }
    }
}

impl LaneState {
    /// A lane before its first task.
    pub fn new(lane: Lane) -> (r: Self)
        ensures
            r@ == (LaneStateView {
                lane: lane@,
                turns_used: 0,
                tokens_used: 0,
                active: Set::empty(),
            }),
    {
        LaneState { lane, turns_used: 0, tokens_used: 0, active_task_ids: TextSet::new() }
    }

    /// Whether the lane may take one more task.
    pub fn has_task_capacity(&self) -> (r: bool)
        ensures
            r == self@.has_room(),
            r <==> (self@.lane.contract.budget.max_concurrent_tasks matches Some(cap)
                ==> self@.active.len() < cap),
    {
        match self.lane.contract.budget.max_concurrent_tasks {
            Some(cap) => self.active_task_ids.len() < cap,
            None => true,
        }
    }

    /// Whether the lane may take one more turn.
    pub fn can_use_turn(&self) -> (r: bool)
        ensures
            r == self@.has_turn(),
            r <==> (self@.lane.contract.budget.max_turns matches Some(cap)
                ==> self@.turns_used < cap),
    {
        match self.lane.contract.budget.max_turns {
            Some(cap) => self.turns_used < cap,
            None => true,
        }
    }
}

/// Keeps tasks from being active twice, holds lanes to their budgets, and routes finished work.
pub struct LaneCoordinator {
    lanes: TextMap<LaneState>,
    task_owners: Vec<LaneTaskEntry>,
}

impl View for LaneCoordinator {
    type V = TeamView;

    closed spec fn view(&self) -> TeamView {
        TeamView {
            lanes: text_map::views(self.lanes@),
            tasks: crate::sorting::views(self.task_owners@),
        }
    }
}

/// A snapshot of a lane.
#[derive(Debug, Clone, PartialEq, Eq)]
pub struct LaneSummary {
    pub name: String,
    pub definition: String,
    pub contract: LaneContract,
    pub active_task_ids: Vec<String>,
    pub turns_used: u32,
    pub tokens_used: u64,
}

impl LaneSummary {
    /// The summary tells what is known of the lane, the active tasks in dictionary order.
    pub open spec fn tells(self, state: LaneStateView) -> bool {
        &&& self.name@ == state.lane.name
        &&& self.definition@ == state.lane.definition
        &&& self.contract@ == state.lane.contract
        &&& text_map::lists(text::texts(self.active_task_ids@), state.active)
        &&& self.turns_used == state.turns_used
        &&& self.tokens_used == state.tokens_used
    }

    fn from_state(state: &LaneState) -> (r: Self)
        ensures
            r.tells(state@),
    {
        LaneSummary {
            name: state.lane.name.clone(),
            definition: state.lane.definition.clone(),
            contract: state.lane.contract.copy(),
            active_task_ids: state.active_task_ids.to_vec(),
            turns_used: state.turns_used,
            tokens_used: state.tokens_used,
        }
    }
}

/// A title as titles are compared.
pub fn canonical(title: &str) -> (r: String)
    ensures
        r@ == canonical_title(title@),
{
    let trimmed = text::trim(title);
    text::to_ascii_lowercase(trimmed.as_str())
}

fn capped_text(lane_name: &str, middle: &str, cap: u64, end: &str) -> (r: String)
    ensures
        r@ == "lane '"@ + lane_name@ + middle@ + text::decimal(cap as nat) + end@,
{
    let mut out = "lane '".to_owned();
    out.append(lane_name);
    out.append(middle);
    let digits = text::decimal_u64(cap);
    out.append(digits.as_str());
    out.append(end);
    out
}

impl LaneCoordinator {
    /// A coordinator without lanes.
    pub fn new() -> (r: Self)
        ensures
            r@ == TeamView::empty(),
            r@.sound(),
    {
        proof {
            text_map::lemma_views_empty::<LaneState>();
        }
        let r = LaneCoordinator { lanes: TextMap::new(), task_owners: Vec::new() };
        assert(r@.tasks =~= Seq::<TaskView>::empty());
        r
    }

    /// Registers a lane. A lane that was registered under the name before is forgotten, with its
    /// counts.
    pub fn register_lane(&mut self, lane: Lane)
        ensures
            final(self)@ == old(self)@.registered(lane@),
            old(self)@.sound() ==> final(self)@.sound(),
    {
        let name = lane.name.clone();
        let state = LaneState::new(lane);
        proof {
            text_map::lemma_views_insert(self.lanes@, name@, state);
            if old(self)@.sound() {
                law_register_keeps_sound(old(self)@, lane@);
            }
        }
        self.lanes.insert(name, state);
    }

    fn find_clash(&self, task_id: &str, title: &str) -> (r: Option<usize>)
        ensures
            match r {
                Some(i) => first_clash(self@.tasks, task_id@, title@, 0) == Some(i as int) && i
                    < self.task_owners@.len(),
                None => first_clash(self@.tasks, task_id@, title@, 0) is None,
            },
    {
        let mut i: usize = 0;
        while i < self.task_owners.len()
            invariant
                i <= self.task_owners@.len(),
                self@.tasks == crate::sorting::views(self.task_owners@),
                first_clash(self@.tasks, task_id@, title@, 0) == first_clash(
                    self@.tasks,
                    task_id@,
                    title@,
                    i as int,
                ),
            decreases self.task_owners@.len() - i,
        {
            let entry = &self.task_owners[i];
            if text::same_text(entry.task_id.as_str(), task_id) || text::same_text(
                entry.canonical_title.as_str(),
                title,
            ) {
                return Some(i);
            }
            i = i + 1;
        }
        None
    }

    fn find_task(&self, task_id: &str) -> (r: Option<usize>)
        ensures
            match r {
                Some(i) => first_with_id(self@.tasks, task_id@, 0) == Some(i as int) && i
                    < self.task_owners@.len(),
                None => first_with_id(self@.tasks, task_id@, 0) is None,
            },
    {
        let mut i: usize = 0;
        while i < self.task_owners.len()
            invariant
                i <= self.task_owners@.len(),
                self@.tasks == crate::sorting::views(self.task_owners@),
                first_with_id(self@.tasks, task_id@, 0) == first_with_id(
                    self@.tasks,
                    task_id@,
                    i as int,
                ),
            decreases self.task_owners@.len() - i,
        {
            if text::same_text(self.task_owners[i].task_id.as_str(), task_id) {
                return Some(i);
            }
            i = i + 1;
        }
        None
    }

    /// Assigns a task to a lane, unless a task with its id or its title is active in any lane, the
    /// lane is not known, or the lane is full.
    pub fn assign_task(&mut self, lane_name: &str, task_id: &str, task_title: &str) -> (r: Result<
        (),
        LaneError,
    >)
        ensures
            outcome(r) == old(self)@.assignment(lane_name@, task_id@, task_title@),
            final(self)@ == old(self)@.assigned(lane_name@, task_id@, task_title@),
            old(self)@.sound() ==> final(self)@.sound(),
    {
        proof {
            if self@.sound() {
                law_assign_keeps_sound(self@, lane_name@, task_id@, task_title@);
            }
        }
        let title = canonical(task_title);
        match self.find_clash(task_id, title.as_str()) {
            Some(i) => {
                return Err(
                    LaneError::DuplicateTask {
                        task: task_id.to_owned(),
                        owner: self.task_owners[i].lane_name.clone(),
                    },
                );
            },
            None => {},
        }
        let full = match self.lanes.get(lane_name) {
            None => {
                return Err(LaneError::LaneNotFound(lane_name.to_owned()));
            },
            Some(state) => if state.has_task_capacity() {
                None
            } else {
                Some(
                    match state.lane.contract.budget.max_concurrent_tasks {
                        Some(cap) => cap as u64,
                        None => 0,
                    },
                )
            },
        };
        match full {
            Some(cap) => {
                return Err(
                    LaneError::BudgetExceeded(
                        capped_text(lane_name, "' concurrent-task cap (", cap, ") reached"),
                    ),
                );
            },
            None => {},
        }
        let ghost before = self.lanes@;
        match self.lanes.remove(lane_name) {
            Some(state) => {
                let mut state = state;
                state.active_task_ids.insert(task_id.to_owned());
                proof {
                    assert(before.remove(lane_name@).insert(lane_name@, state) =~= before.insert(
                        lane_name@,
                        state,
                    ));
                    text_map::lemma_views_insert(before, lane_name@, state);
                }
                self.lanes.insert(lane_name.to_owned(), state);
            },
            None => {},
        }
        let entry = LaneTaskEntry {
            task_id: task_id.to_owned(),
            canonical_title: title,
            lane_name: lane_name.to_owned(),
        };
        proof {
            crate::sorting::lemma_views_push(self.task_owners@, entry);
        }
        self.task_owners.push(entry);
        Ok(())
    }

    /// Completes an active task: frees its slot, counts a turn where the lane has one left, and the
    /// tokens, and tells which lane owned it and who receives the work.
    pub fn complete_task(&mut self, task_id: &str, tokens_used: u64) -> (r: Option<
        (String, Option<String>),
    >)
        requires
            old(self)@.owner(task_id@) matches Some(owner) ==> old(self)@.lanes.dom().contains(
                owner,
            ) ==> (old(self)@.lanes[owner].has_turn() ==> old(self)@.lanes[owner].turns_used
                < u32::MAX) && old(self)@.lanes[owner].tokens_used + tokens_used <= u64::MAX,
        ensures
            match r {
                Some((owner, handoff)) => old(self)@.completion(task_id@) == Some(
                    (owner@, text::text_opt(handoff)),
                ),
                None => old(self)@.completion(task_id@) is None,
            },
            final(self)@ == old(self)@.completed(task_id@, tokens_used as int),
            old(self)@.sound() ==> final(self)@.sound(),
    {
        proof {
            if self@.sound() {
                law_complete_keeps_sound(self@, task_id@, tokens_used as int);
            }
        }
        let i = match self.find_task(task_id) {
            Some(i) => i,
            None => {
                return None;
            },
        };
        let ghost tasks = self.task_owners@;
        let entry = self.task_owners.remove(i);
        assert(crate::sorting::views(self.task_owners@) =~= crate::sorting::views(tasks).remove(
            i as int,
        ));
        assert(entry@ == crate::sorting::views(tasks)[i as int]);
        let ghost before = self.lanes@;
        match self.lanes.remove(entry.lane_name.as_str()) {
            Some(state) => {
                let mut state = state;
                let has_turn = state.can_use_turn();
                state.active_task_ids.remove(task_id);
                if has_turn {
                    state.turns_used = state.turns_used + 1;
                }
                state.tokens_used = state.tokens_used + tokens_used;
                let handoff_to = text::copy_opt(&state.lane.contract.handoff_to);
                proof {
                    let owner = entry.lane_name@;
                    assert(before.remove(owner).insert(owner, state) =~= before.insert(
                        owner,
                        state,
                    ));
                    text_map::lemma_views_insert(before, owner, state);
                }
                self.lanes.insert(entry.lane_name.clone(), state);
                Some((entry.lane_name, handoff_to))
            },
            None => {
                assert(before.remove(entry.lane_name@) =~= before);
                None
            },
        }
    }

    /// Counts a turn for a lane, unless it is not known or has used up its turns.
    pub fn record_turn(&mut self, lane_name: &str) -> (r: Result<(), LaneError>)
        requires
            old(self)@.lanes.dom().contains(lane_name@) && old(self)@.lanes[lane_name@].has_turn()
                ==> old(self)@.lanes[lane_name@].turns_used < u32::MAX,
        ensures
            outcome(r) == old(self)@.turn(lane_name@),
            final(self)@ == old(self)@.turned(lane_name@),
            old(self)@.sound() ==> final(self)@.sound(),
    {
        proof {
            if self@.sound() {
                law_turn_keeps_sound(self@, lane_name@);
            }
        }
        let spent = match self.lanes.get(lane_name) {
            None => {
                return Err(LaneError::LaneNotFound(lane_name.to_owned()));
            },
            Some(state) => if state.can_use_turn() {
                None
            } else {
                Some(
                    match state.lane.contract.budget.max_turns {
                        Some(cap) => cap as u64,
                        None => 0,
                    },
                )
            },
        };
        match spent {
            Some(cap) => {
                return Err(
                    LaneError::BudgetExceeded(
                        capped_text(lane_name, "' turn budget (", cap, ") exhausted"),
                    ),
                );
            },
            None => {},
        }
        let ghost before = self.lanes@;
        match self.lanes.remove(lane_name) {
            Some(state) => {
                let mut state = state;
                state.turns_used = state.turns_used + 1;
                proof {
                    assert(before.remove(lane_name@).insert(lane_name@, state) =~= before.insert(
                        lane_name@,
                        state,
                    ));
                    text_map::lemma_views_insert(before, lane_name@, state);
                }
                self.lanes.insert(lane_name.to_owned(), state);
            },
            None => {},
        }
        Ok(())
    }

    /// Snapshots of the lanes, in the dictionary order of the names under which they are
    /// registered.
    pub fn lane_summaries(&self) -> (r: Vec<LaneSummary>)
        ensures
            exists|names: Seq<Seq<char>>| #[trigger]
                text_map::lists(names, self@.lanes.dom()) && names.len() == r@.len() && forall|i: int|
                    0 <= i < r@.len() ==> (#[trigger] r@[i]).tells(self@.lanes[names[i]]),
    {
        let keys = self.lanes.keys();
        let ghost names = text::texts(keys@);
        let mut out: Vec<LaneSummary> = Vec::new();
        let mut i: usize = 0;
        assert(self@.lanes.dom() =~= self.lanes@.dom());
        while i < keys.len()
            invariant
                names == text::texts(keys@),
                text_map::lists(names, self@.lanes.dom()),
                self@.lanes.dom() == self.lanes@.dom(),
                i <= keys@.len(),
                out@.len() == i,
                forall|j: int| 0 <= j < i ==> (#[trigger] out@[j]).tells(self@.lanes[names[j]]),
            decreases keys@.len() - i,
        {
            proof {
                text_map::lemma_listed(names, self@.lanes.dom());
                assert(names[i as int] == keys@[i as int]@);
            }
            match self.lanes.get(keys[i].as_str()) {
                Some(state) => {
                    out.push(LaneSummary::from_state(state));
                },
                None => {
                    assert(false);
                },
            }
            i = i + 1;
        }
        out
    }

    /// The lane that owns an active task.
    pub fn owner_of(&self, task_id: &str) -> (r: Option<&str>)
        ensures
            text::str_opt(r) == self@.owner(task_id@),
    {
        match self.find_task(task_id) {
            Some(i) => Some(self.task_owners[i].lane_name.as_str()),
            None => None,
        }
    }
}

// ---------------------------------------------------------------------------------------------
// Presence
// ---------------------------------------------------------------------------------------------

/// What one member of a team is doing.
#[derive(Debug, Clone, PartialEq, Eq)]
pub struct TeammatePresence {
    pub name: String,
    pub lane: Option<String>,
    pub status: String,
    pub active_task_ids: Vec<String>,
}

/// What a team is doing.
#[derive(Debug, Clone, PartialEq, Eq)]
pub struct PresenceSnapshot {
    pub team_id: String,
    pub lanes: Vec<LaneSummary>,
    pub teammates: Vec<TeammatePresence>,
    pub total_active_tasks: usize,
    pub spawns_active: usize,
    pub spawns_cap: usize,
}

// ---------------------------------------------------------------------------------------------
// Laws
// ---------------------------------------------------------------------------------------------

proof fn lemma_first_clash(tasks: Seq<TaskView>, id: Seq<char>, title: Seq<char>, i: int)
    requires
        0 <= i,
    ensures
        match first_clash(tasks, id, title, i) {
            Some(k) => i <= k < tasks.len() && clashes(tasks[k], id, title),
            None => forall|j: int|
                i <= j < tasks.len() ==> !clashes(#[trigger] tasks[j], id, title),
        },
    decreases tasks.len() - i,
{
    if i < tasks.len() && !clashes(tasks[i], id, title) {
        lemma_first_clash(tasks, id, title, i + 1);
    }
}

proof fn lemma_first_with_id(tasks: Seq<TaskView>, id: Seq<char>, i: int)
    requires
        0 <= i,
    ensures
        match first_with_id(tasks, id, i) {
            Some(k) => i <= k < tasks.len() && tasks[k].task_id == id && forall|j: int|
                i <= j < k ==> (#[trigger] tasks[j]).task_id != id,
            None => forall|j: int| i <= j < tasks.len() ==> (#[trigger] tasks[j]).task_id != id,
        },
    decreases tasks.len() - i,
{
    if i < tasks.len() && tasks[i].task_id != id {
        lemma_first_with_id(tasks, id, i + 1);
    }
}

/// Registering a lane keeps a team sound.
pub proof fn law_register_keeps_sound(team: TeamView, lane: LaneView)
    requires
        team.sound(),
    ensures
        team.registered(lane).sound(),
{
    let after = team.registered(lane);
    assert forall|name: Seq<char>, id: Seq<char>|
        after.lanes.dom().contains(name) && #[trigger] after.lanes[name].active.contains(
            id,
        ) implies after.owned(id, name) by {
        assert(team.lanes[name].active.contains(id));
        assert(team.owned(id, name));
        let k = choose|k: int|
            0 <= k < team.tasks.len() && (#[trigger] team.tasks[k]).task_id == id
                && team.tasks[k].lane_name == name;
        assert(after.tasks[k] == team.tasks[k]);
    }
}

/// Assigning a task keeps a team sound: the task is active in no other lane, and the lane stays
/// within its cap.
pub proof fn law_assign_keeps_sound(
    team: TeamView,
    lane_name: Seq<char>,
    id: Seq<char>,
    title: Seq<char>,
)
    requires
        team.sound(),
    ensures
        team.assigned(lane_name, id, title).sound(),
{
    let after = team.assigned(lane_name, id, title);
    if team.assignment(lane_name, id, title) is Ok {
        lemma_first_clash(team.tasks, id, canonical_title(title), 0);
        assert forall|i: int, j: int| 0 <= i < j < after.tasks.len() implies (
        #[trigger] after.tasks[i]).task_id != (#[trigger] after.tasks[j]).task_id
            && after.tasks[i].canonical_title != after.tasks[j].canonical_title by {
            if j == team.tasks.len() {
                assert(!clashes(team.tasks[i], id, canonical_title(title)));
            } else {
                assert(after.tasks[i] == team.tasks[i] && after.tasks[j] == team.tasks[j]);
            }
        }
        assert forall|i: int| 0 <= i < after.tasks.len() implies after.lanes.dom().contains(
            (#[trigger] after.tasks[i]).lane_name,
        ) by {
            if i < team.tasks.len() {
                assert(after.tasks[i] == team.tasks[i]);
            }
        }
        assert forall|name: Seq<char>, x: Seq<char>|
            after.lanes.dom().contains(name) && #[trigger] after.lanes[name].active.contains(
                x,
            ) implies after.owned(x, name) by {
            if name == lane_name && x == id {
                let k = team.tasks.len() as int;
                assert(after.tasks[k].task_id == id && after.tasks[k].lane_name == name);
            } else {
                assert(team.lanes[name].active.contains(x));
                assert(team.owned(x, name));
                let k = choose|k: int|
                    0 <= k < team.tasks.len() && (#[trigger] team.tasks[k]).task_id == x
                        && team.tasks[k].lane_name == name;
                assert(after.tasks[k] == team.tasks[k]);
            }
        }
    }
}

/// Completing a task keeps a team sound.
pub proof fn law_complete_keeps_sound(team: TeamView, id: Seq<char>, tokens: int)
    requires
        team.sound(),
    ensures
        team.completed(id, tokens).sound(),
{
    let after = team.completed(id, tokens);
    lemma_first_with_id(team.tasks, id, 0);
    if first_with_id(team.tasks, id, 0) is Some {
        let k = first_with_id(team.tasks, id, 0)->0;
        let owner = team.tasks[k].lane_name;
        assert forall|i: int, j: int| 0 <= i < j < after.tasks.len() implies (
        #[trigger] after.tasks[i]).task_id != (#[trigger] after.tasks[j]).task_id
            && after.tasks[i].canonical_title != after.tasks[j].canonical_title by {
            let i2 = if i < k { i } else { i + 1 };
            let j2 = if j < k { j } else { j + 1 };
            assert(after.tasks[i] == team.tasks[i2] && after.tasks[j] == team.tasks[j2]);
        }
        assert forall|i: int| 0 <= i < after.tasks.len() implies after.lanes.dom().contains(
            (#[trigger] after.tasks[i]).lane_name,
        ) by {
            let i2 = if i < k { i } else { i + 1 };
            assert(after.tasks[i] == team.tasks[i2]);
        }
        assert forall|name: Seq<char>| #[trigger] after.lanes.dom().contains(name) implies {
            &&& after.lanes[name].lane.name == name
            &&& after.lanes[name].active.finite()
            &&& after.lanes[name].within_cap()
            &&& after.lanes[name].within_turns()
        } by {
            assert(team.lanes.dom().contains(name));
            if name == owner {
                vstd::set_lib::lemma_len_subset(
                    team.lanes[name].active.remove(id),
                    team.lanes[name].active,
                );
            }
        }
        assert forall|name: Seq<char>, x: Seq<char>|
            after.lanes.dom().contains(name) && #[trigger] after.lanes[name].active.contains(
                x,
            ) implies after.owned(x, name) by {
            assert(team.lanes[name].active.contains(x));
            assert(team.owned(x, name));
            let m = choose|m: int|
                0 <= m < team.tasks.len() && (#[trigger] team.tasks[m]).task_id == x
                    && team.tasks[m].lane_name == name;
            if m == k {
                assert(name == owner);
                assert(x == id);
                assert(false);
            }
            let m2 = if m < k { m } else { m - 1 };
            assert(after.tasks[m2] == team.tasks[m]);
        }
    }
}

/// Taking a turn keeps a team sound.
pub proof fn law_turn_keeps_sound(team: TeamView, lane_name: Seq<char>)
    requires
        team.sound(),
    ensures
        team.turned(lane_name).sound(),
{
    let after = team.turned(lane_name);
    assert forall|name: Seq<char>, id: Seq<char>|
        after.lanes.dom().contains(name) && #[trigger] after.lanes[name].active.contains(
            id,
        ) implies after.owned(id, name) by {
        assert(team.lanes[name].active.contains(id));
        assert(team.owned(id, name));
        let k = choose|k: int|
            0 <= k < team.tasks.len() && (#[trigger] team.tasks[k]).task_id == id
                && team.tasks[k].lane_name == name;
        assert(after.tasks[k] == team.tasks[k]);
    }
}

/// A turn that is granted keeps a lane within its turn budget, and a lane whose budget is spent is
/// refused with nothing changed.
pub proof fn law_turns_stay_in_budget(team: TeamView, lane_name: Seq<char>)
    requires
        team.lanes.dom().contains(lane_name),
        team.lanes[lane_name].lane.contract.budget.max_turns is Some,
    ensures
        ({
            let cap = team.lanes[lane_name].lane.contract.budget.max_turns->0;
            let after = team.turned(lane_name);
            &&& team.turn(lane_name) is Ok ==> after.lanes[lane_name].turns_used
                == team.lanes[lane_name].turns_used + 1 && after.lanes[lane_name].turns_used <= cap
            &&& team.lanes[lane_name].turns_used >= cap ==> after == team && team.turn(lane_name)
                == Err::<(), _>(
                LaneErrorView::BudgetExceeded(turn_message(lane_name, Some(cap))),
            )
        }),
{
}

/// One call on a coordinator.
pub enum Step {
    Register { lane: LaneView },
    Assign { lane_name: Seq<char>, id: Seq<char>, title: Seq<char> },
    Complete { id: Seq<char>, tokens: int },
    Turn { lane_name: Seq<char> },
}

/// The team after the first `n` of the calls, from the beginning.
pub open spec fn after_steps(steps: Seq<Step>, n: int) -> TeamView
    decreases n,
{
    if n <= 0 {
        TeamView::empty()
    } else {
        let before = after_steps(steps, n - 1);
        match steps[n - 1] {
            Step::Register { lane } => before.registered(lane),
            Step::Assign { lane_name, id, title } => before.assigned(lane_name, id, title),
            Step::Complete { id, tokens } => before.completed(id, tokens),
            Step::Turn { lane_name } => before.turned(lane_name),
        }
    }
}

/// Whatever is asked of a coordinator, from the beginning and in whatever order, the team stays
/// sound, and no lane ever uses more turns than its contract gives it.
pub proof fn law_budgets_hold_throughout(steps: Seq<Step>, n: int, lane_name: Seq<char>)
    requires
        0 <= n <= steps.len(),
    ensures
        after_steps(steps, n).sound(),
        after_steps(steps, n).lanes.dom().contains(lane_name) ==> (match after_steps(
            steps,
            n,
        ).lanes[lane_name].lane.contract.budget.max_turns {
            Some(cap) => after_steps(steps, n).lanes[lane_name].turns_used <= cap,
            None => true,
        }),
    decreases n,
{
    if n > 0 {
        law_budgets_hold_throughout(steps, n - 1, lane_name);
        let before = after_steps(steps, n - 1);
        match steps[n - 1] {
            Step::Register { lane } => law_register_keeps_sound(before, lane),
            Step::Assign { lane_name, id, title } => law_assign_keeps_sound(
                before,
                lane_name,
                id,
                title,
            ),
            Step::Complete { id, tokens } => law_complete_keeps_sound(before, id, tokens),
            Step::Turn { lane_name } => law_turn_keeps_sound(before, lane_name),
        }
    }
    assert(after_steps(steps, n).sound());
}

/// A task that is active in some lane is refused by every lane, by its id and by its title, and
/// the refusal names the lane that owns a task with that id or title.
pub proof fn law_active_task_refused(
    team: TeamView,
    k: int,
    lane_name: Seq<char>,
    id: Seq<char>,
    title: Seq<char>,
)
    requires
        0 <= k < team.tasks.len(),
        team.tasks[k].task_id == id || team.tasks[k].canonical_title == canonical_title(title),
    ensures
        team.assignment(lane_name, id, title) matches Err(
            LaneErrorView::DuplicateTask { task, owner },
        ) && task == id && exists|i: int|
            0 <= i < team.tasks.len() && clashes(
                #[trigger] team.tasks[i],
                id,
                canonical_title(title),
            ) && owner == team.tasks[i].lane_name,
        team.assigned(lane_name, id, title) == team,
{
    lemma_first_clash(team.tasks, id, canonical_title(title), 0);
    assert(clashes(team.tasks[k], id, canonical_title(title)));
}

/// Completing a task that was just assigned gives its lane and the lane's handoff target, and
/// leaves the team as it was but for one more turn, where the lane had one left, and the tokens. The
/// task can be assigned again.
pub proof fn law_complete_undoes_assign(
    team: TeamView,
    lane_name: Seq<char>,
    id: Seq<char>,
    title: Seq<char>,
    tokens: int,
)
    requires
        team.sound(),
        team.assignment(lane_name, id, title) is Ok,
    ensures
        ({
            let during = team.assigned(lane_name, id, title);
            let after = during.completed(id, tokens);
            let state = team.lanes[lane_name];
            &&& during.owner(id) == Some(lane_name)
            &&& during.completion(id) == Some((lane_name, state.lane.contract.handoff_to))
            &&& after.tasks == team.tasks
            &&& after.lanes == team.lanes.insert(
                lane_name,
                LaneStateView {
                    turns_used: state.turns_after_task(),
                    tokens_used: state.tokens_used + tokens,
                    ..state
                },
            )
            &&& after.assignment(lane_name, id, title) is Ok
        }),
{
    let during = team.assigned(lane_name, id, title);
    let after = during.completed(id, tokens);
    let n = team.tasks.len() as int;
    lemma_first_clash(team.tasks, id, canonical_title(title), 0);
    lemma_first_with_id(during.tasks, id, 0);
    assert(during.tasks[n].task_id == id);
    assert forall|j: int| 0 <= j < n implies (#[trigger] during.tasks[j]).task_id != id by {
        assert(!clashes(team.tasks[j], id, canonical_title(title)));
        assert(during.tasks[j] == team.tasks[j]);
    }
    assert(first_with_id(during.tasks, id, 0) == Some(n));
    assert(after.tasks =~= team.tasks);
    let state = team.lanes[lane_name];
    assert(!state.active.contains(id)) by {
        if state.active.contains(id) {
            assert(team.owned(id, lane_name));
            let k = choose|k: int|
                0 <= k < team.tasks.len() && (#[trigger] team.tasks[k]).task_id == id
                    && team.tasks[k].lane_name == lane_name;
            assert(!clashes(team.tasks[k], id, canonical_title(title)));
        }
    }
    assert(state.active.insert(id).remove(id) =~= state.active);
    assert(after.lanes =~= team.lanes.insert(
        lane_name,
        LaneStateView {
            turns_used: state.turns_after_task(),
            tokens_used: state.tokens_used + tokens,
            ..state
        },
    ));
}

/// A known lane takes a task that is active nowhere, by id or by title, exactly while the number of
/// its active tasks is less than its cap; a lane without a cap always does. Whatever the lane has
/// used of its turns and tokens plays no part.
pub proof fn law_room_means_accepted(
    team: TeamView,
    lane_name: Seq<char>,
    id: Seq<char>,
    title: Seq<char>,
)
    requires
        team.lanes.dom().contains(lane_name),
        forall|i: int|
            0 <= i < team.tasks.len() ==> (#[trigger] team.tasks[i]).task_id != id
                && team.tasks[i].canonical_title != canonical_title(title),
    ensures
        ({
            let state = team.lanes[lane_name];
            let cap = state.lane.contract.budget.max_concurrent_tasks;
            &&& team.assignment(lane_name, id, title) is Ok <==> (cap is Some ==> state.active.len()
                < cap->0)
            &&& team.assignment(lane_name, id, title) is Err ==> {
                &&& cap is Some
                &&& state.active.len() >= cap->0
                &&& team.assignment(lane_name, id, title)->Err_0 == LaneErrorView::BudgetExceeded(
                    "lane '"@ + lane_name + "' concurrent-task cap ("@ + text::decimal(
                        cap->0 as nat,
                    ) + ") reached"@,
                )
            }
        }),
{
    lemma_first_clash(team.tasks, id, canonical_title(title), 0);
}

/// A lane that is not known takes no task: where the task is active nowhere, the request says so by
/// the lane's name.
pub proof fn law_unknown_lane_takes_nothing(
    team: TeamView,
    lane_name: Seq<char>,
    id: Seq<char>,
    title: Seq<char>,
)
    requires
        !team.lanes.dom().contains(lane_name),
    ensures
        team.assignment(lane_name, id, title) is Err,
        team.assigned(lane_name, id, title) == team,
        (forall|i: int|
            0 <= i < team.tasks.len() ==> (#[trigger] team.tasks[i]).task_id != id
                && team.tasks[i].canonical_title != canonical_title(title)) ==> team.assignment(
            lane_name,
            id,
            title,
        ) == Err::<(), LaneErrorView>(LaneErrorView::LaneNotFound(lane_name)),
        team.turn(lane_name) == Err::<(), LaneErrorView>(LaneErrorView::LaneNotFound(lane_name)),
        team.turned(lane_name) == team,
{
    lemma_first_clash(team.tasks, id, canonical_title(title), 0);
}

/// An accepted task becomes active, in the lane that it was given to and in no other, as the latest
/// of the tasks; nothing else changes.
pub proof fn law_accepted_task_is_active(
    team: TeamView,
    lane_name: Seq<char>,
    id: Seq<char>,
    title: Seq<char>,
    other: Seq<char>,
)
    requires
        team.assignment(lane_name, id, title) is Ok,
    ensures
        ({
            let after = team.assigned(lane_name, id, title);
            let n = team.tasks.len() as int;
            &&& team.lanes.dom().contains(lane_name)
            &&& after.lanes.dom() == team.lanes.dom()
            &&& after.lanes[lane_name].active == team.lanes[lane_name].active.insert(id)
            &&& after.lanes[lane_name].lane == team.lanes[lane_name].lane
            &&& after.lanes[lane_name].turns_used == team.lanes[lane_name].turns_used
            &&& after.lanes[lane_name].tokens_used == team.lanes[lane_name].tokens_used
            &&& other != lane_name && team.lanes.dom().contains(other) ==> after.lanes[other]
                == team.lanes[other]
            &&& after.tasks.len() == n + 1
            &&& after.tasks.take(n) == team.tasks
            &&& after.tasks[n].task_id == id
            &&& after.tasks[n].canonical_title == canonical_title(title)
            &&& after.tasks[n].lane_name == lane_name
            &&& after.owner(id) == Some(lane_name)
        }),
{
    let after = team.assigned(lane_name, id, title);
    let n = team.tasks.len() as int;
    lemma_first_clash(team.tasks, id, canonical_title(title), 0);
    lemma_first_with_id(after.tasks, id, 0);
    assert(after.tasks.take(n) =~= team.tasks);
    assert(after.lanes.dom() =~= team.lanes.dom());
    assert(after.tasks[n].task_id == id);
    let k = first_with_id(after.tasks, id, 0)->0;
    if k < n {
        assert(after.tasks[k] == team.tasks[k]);
        assert(clashes(team.tasks[k], id, canonical_title(title)));
    }
}

/// A known lane may take a turn exactly while it has used fewer turns than its cap; a lane without a
/// cap always may. The turn is counted on that lane and nothing else changes.
pub proof fn law_turn_left_means_taken(team: TeamView, lane_name: Seq<char>, other: Seq<char>)
    requires
        team.lanes.dom().contains(lane_name),
    ensures
        ({
            let state = team.lanes[lane_name];
            let cap = state.lane.contract.budget.max_turns;
            let after = team.turned(lane_name);
            &&& team.turn(lane_name) is Ok <==> (cap is Some ==> state.turns_used < cap->0)
            &&& team.turn(lane_name) is Err ==> {
                &&& state.turns_used >= cap->0
                &&& after == team
                &&& team.turn(lane_name)->Err_0 == LaneErrorView::BudgetExceeded(
                    "lane '"@ + lane_name + "' turn budget ("@ + text::decimal(cap->0 as nat)
                        + ") exhausted"@,
                )
            }
            &&& team.turn(lane_name) is Ok ==> {
                &&& after.lanes[lane_name].turns_used == state.turns_used + 1
                &&& after.lanes[lane_name].tokens_used == state.tokens_used
                &&& after.lanes[lane_name].active == state.active
                &&& after.lanes[lane_name].lane == state.lane
            }
            &&& after.tasks == team.tasks
            &&& after.lanes.dom() == team.lanes.dom()
            &&& other != lane_name ==> after.lanes.dom().contains(other) ==> after.lanes[other]
                == team.lanes[other]
        }),
{
    assert(team.turned(lane_name).lanes.dom() =~= team.lanes.dom());
}

/// A task that is completed leaves its lane, which hands its work on as its contract says: the lane's
/// other active tasks stay, the tokens are added to what it has used, and a turn is counted while it
/// has used fewer than its cap. Other lanes and other tasks stay as they were.
pub proof fn law_completion_frees_and_hands_on(
    team: TeamView,
    k: int,
    tokens: int,
    other: Seq<char>,
)
    requires
        team.sound(),
        0 <= k < team.tasks.len(),
    ensures
        ({
            let id = team.tasks[k].task_id;
            let owner = team.tasks[k].lane_name;
            let before = team.lanes[owner];
            let cap = before.lane.contract.budget.max_turns;
            let after = team.completed(id, tokens);
            &&& team.completion(id) == Some((owner, before.lane.contract.handoff_to))
            &&& after.tasks == team.tasks.remove(k)
            &&& after.owner(id) is None
            &&& after.lanes.dom() == team.lanes.dom()
            &&& after.lanes[owner].active == before.active.remove(id)
            &&& after.lanes[owner].lane == before.lane
            &&& after.lanes[owner].tokens_used == before.tokens_used + tokens
            &&& (cap is None || before.turns_used < cap->0) ==> after.lanes[owner].turns_used
                == before.turns_used + 1
            &&& cap is Some && before.turns_used >= cap->0 ==> after.lanes[owner].turns_used
                == before.turns_used
            &&& other != owner && team.lanes.dom().contains(other) ==> after.lanes[other]
                == team.lanes[other]
        }),
{
    let id = team.tasks[k].task_id;
    let owner = team.tasks[k].lane_name;
    let after = team.completed(id, tokens);
    lemma_first_with_id(team.tasks, id, 0);
    let i = first_with_id(team.tasks, id, 0)->0;
    if i < k {
        assert(team.tasks[i].task_id != team.tasks[k].task_id);
    }
    if k < i {
        assert(team.tasks[k].task_id != team.tasks[i].task_id);
    }
    assert(after.lanes.dom() =~= team.lanes.dom());
    lemma_first_with_id(after.tasks, id, 0);
    if after.owner(id) is Some {
        let j = first_with_id(after.tasks, id, 0)->0;
        let was = if j < k {
            j
        } else {
            j + 1
        };
        assert(after.tasks[j] == team.tasks[was]);
        assert(team.tasks[was].task_id == team.tasks[k].task_id);
        if was < k {
            assert(team.tasks[was].task_id != team.tasks[k].task_id);
        } else {
            assert(team.tasks[k].task_id != team.tasks[was].task_id);
        }
    }
}

/// Completing a task that is not active tells of no lane and changes nothing.
pub proof fn law_unknown_task_completes_nothing(team: TeamView, id: Seq<char>, tokens: int)
    requires
        forall|i: int| 0 <= i < team.tasks.len() ==> (#[trigger] team.tasks[i]).task_id != id,
    ensures
        team.owner(id) is None,
        team.completion(id) is None,
        team.completed(id, tokens) == team,
{
    lemma_first_with_id(team.tasks, id, 0);
}

/// A lane that is registered starts with nothing used and nothing active, under its own name; the
/// other lanes and the active tasks stay as they were.
pub proof fn law_registered_lane_starts_fresh(team: TeamView, lane: LaneView, other: Seq<char>)
    ensures
        ({
            let after = team.registered(lane);
            &&& after.lanes.dom() == team.lanes.dom().insert(lane.name)
            &&& after.lanes[lane.name].lane == lane
            &&& after.lanes[lane.name].turns_used == 0
            &&& after.lanes[lane.name].tokens_used == 0
            &&& after.lanes[lane.name].active.len() == 0
            &&& other != lane.name && team.lanes.dom().contains(other) ==> after.lanes[other]
                == team.lanes[other]
            &&& after.tasks == team.tasks
        }),
{
    assert(team.registered(lane).lanes.dom() =~= team.lanes.dom().insert(lane.name));
}

/// Titles are compared without white space around them and without regard to the case of ASCII
/// letters, and by nothing else: two titles clash exactly when they are the same in this sense.
pub proof fn law_titles_are_compared_bare(
    before: Seq<char>,
    title: Seq<char>,
    after: Seq<char>,
    other: Seq<char>,
)
    requires
        forall|i: int| 0 <= i < before.len() ==> text::is_space(#[trigger] before[i]),
        forall|i: int| 0 <= i < after.len() ==> text::is_space(#[trigger] after[i]),
        title.len() > 0 ==> !text::is_space(title[0]) && !text::is_space(title.last()),
        other.len() > 0 ==> !text::is_space(other[0]) && !text::is_space(other.last()),
    ensures
        canonical_title(before + title + after) == canonical_title(title),
        canonical_title(title) == canonical_title(other) <==> text::lowered(title)
            == text::lowered(other),
{
    let class = text::CharClass::Space;
    assert forall|i: int| 0 <= i < before.len() implies class.has(#[trigger] before[i]) by {}
    assert forall|i: int| 0 <= i < after.len() implies class.has(#[trigger] after[i]) by {}
    crate::text_laws::law_trimming_keeps_the_middle(before, title, after, class);
    text::lemma_trimmed_stays(title, class);
    text::lemma_trimmed_stays(other, class);
}

/// A task that clashes is refused in the name of the lane whose task clashes first.
pub proof fn law_refusal_names_the_first_owner(
    team: TeamView,
    k: int,
    lane_name: Seq<char>,
    id: Seq<char>,
    title: Seq<char>,
)
    requires
        0 <= k < team.tasks.len(),
        team.tasks[k].task_id == id || team.tasks[k].canonical_title == canonical_title(title),
        forall|j: int|
            0 <= j < k ==> (#[trigger] team.tasks[j]).task_id != id && team.tasks[j].canonical_title
                != canonical_title(title),
    ensures
        team.assignment(lane_name, id, title) == Err::<(), LaneErrorView>(
            LaneErrorView::DuplicateTask { task: id, owner: team.tasks[k].lane_name },
        ),
{
    lemma_clash_at(team.tasks, id, canonical_title(title), k, 0);
}

proof fn lemma_clash_at(tasks: Seq<TaskView>, id: Seq<char>, title: Seq<char>, k: int, i: int)
    requires
        0 <= i <= k < tasks.len(),
        tasks[k].task_id == id || tasks[k].canonical_title == title,
        forall|j: int|
            0 <= j < k ==> (#[trigger] tasks[j]).task_id != id && tasks[j].canonical_title != title,
    ensures
        first_clash(tasks, id, title, i) == Some(k),
    decreases k - i,
{
    if i < k {
        lemma_clash_at(tasks, id, title, k, i + 1);
    }
}

} // verus!

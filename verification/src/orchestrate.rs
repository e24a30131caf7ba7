//! The rebase run as a machine: it says what to do next, is told how that
//! went, and keeps the ledger of the branches rebased so far. Whoever
//! drives it performs the actions with the version-control tool.
use crate::descriptor::{has_head, heads, lemma_heads_step, views, PrInfo, PrView};
use crate::plan::{locate, location_for, onto_for, resolve_onto, Ledger, Location, OntoTarget,
    OntoView};
use crate::sort::is_execution_order;
use crate::worktree::WorktreeMap;
use vstd::prelude::*;
use vstd::string::*;

verus! {

/// Why a run stopped at a pull request.
#[derive(Clone, Copy, Debug, PartialEq, Eq, Structural)]
pub enum FailureKind {
    /// The branch has no working copy and none could be made.
    NotFoundLocally,
    /// The working copy holds changes that are not committed.
    DirtyWorkingCopy,
    /// The rebase stopped halfway.
    RebaseConflict,
    /// The remote branch moved since it was last fetched.
    PushRejected,
}

/// Whether a temporary working copy is left in place after a failure of
/// this kind: after a rebase that stopped, so that it can be continued
/// there; after any other failure it is removed.
pub open spec fn keeps_working_copy(kind: FailureKind) -> bool {
    kind == FailureKind::RebaseConflict
}

/// Whether a temporary working copy stays after a failure of `kind`.
pub fn keep_working_copy(kind: FailureKind) -> (keep: bool)
    ensures
        keep == keeps_working_copy(kind),
{
    kind == FailureKind::RebaseConflict
}

/// What the operator is told to do after a failure of `kind` at `branch`,
/// worked on in `dir`; nothing after a failure that leaves nothing to do
/// there.
pub open spec fn remediation_text(kind: FailureKind, branch: Seq<char>, dir: Seq<char>) -> Option<
    Seq<char>,
> {
    match kind {
        FailureKind::RebaseConflict => Some(
            "resolve conflicts in "@ + dir
                + " then run: git rebase --continue && git push --force-with-lease"@,
        ),
        FailureKind::NotFoundLocally => Some(
            "failed to create temporary worktree for branch '"@ + branch + "'"@,
        ),
        _ => None,
    }
}

/// What the operator is told to do after a failure of `kind` at `branch`,
/// worked on in `dir`.
pub fn remediation(kind: FailureKind, branch: &str, dir: &str) -> (r: Option<String>)
    ensures
        match r {
            Some(text) => remediation_text(kind, branch@, dir@) == Some(text@),
            None => remediation_text(kind, branch@, dir@) is None,
        },
{
    match kind {
        FailureKind::RebaseConflict => {
            let mut text = String::from_str("resolve conflicts in ");
            text.append(dir);
            text.append(" then run: git rebase --continue && git push --force-with-lease");
            Some(text)
        },
        FailureKind::NotFoundLocally => {
            let mut text = String::from_str("failed to create temporary worktree for branch '");
            text.append(branch);
            text.append("'");
            Some(text)
        },
        _ => None,
    }
}

/// What the machine waits for.
#[derive(Clone, Copy, Debug, PartialEq, Eq, Structural)]
pub enum Phase {
    /// The planned step is being shown; nothing is executed.
    Reporting,
    /// A temporary working copy is being made.
    Adding,
    /// The rebase runs.
    Rebasing,
    /// The push runs.
    Pushing,
    /// The temporary working copy is being removed after a step that went well.
    Removing,
    /// The temporary working copy is being removed after a failure of this kind.
    RemovingAfterFailure(FailureKind),
    /// Every pull request was dealt with.
    Finished,
    /// The run stopped at a pull request.
    Halted(FailureKind),
}

/// What the driver is to do next, for the pull request at hand.
#[derive(Clone, Copy, Debug, PartialEq, Eq, Structural)]
pub enum Action {
    /// Show the planned step.
    Report,
    /// Make the temporary working copy.
    AddWorktree,
    /// Rebase onto the target, in the step's place.
    Rebase,
    /// Push the branch, overwriting only what was last fetched.
    Push,
    /// Remove the temporary working copy; whether that works does not matter.
    RemoveWorktree,
    /// Nothing is left to do.
    Finish,
    /// Stop, and tell the operator what failed.
    Halt(FailureKind),
}

/// A run in contracts.
pub ghost struct RunView {
    pub order: Seq<PrView>,
    pub index: Map<Seq<char>, Seq<char>>,
    pub no_push: bool,
    pub dry_run: bool,
    pub next: nat,
    pub ledger: Set<Seq<char>>,
    pub phase: Phase,
}

/// Whether the step at hand works in a temporary working copy.
pub open spec fn in_temporary(st: RunView) -> bool {
    !st.index.contains_key(st.order[st.next as int].head)
}

/// The run in `phase`.
pub open spec fn in_phase(st: RunView, phase: Phase) -> RunView {
    RunView { phase, ..st }
}

/// The run at the beginning of the step `st.next`, and its first action.
pub open spec fn enter(st: RunView) -> (RunView, Action) {
    if st.next >= st.order.len() {
        (in_phase(st, Phase::Finished), Action::Finish)
    } else if st.dry_run {
        (in_phase(st, Phase::Reporting), Action::Report)
    } else if in_temporary(st) {
        (in_phase(st, Phase::Adding), Action::AddWorktree)
    } else {
        (in_phase(st, Phase::Rebasing), Action::Rebase)
    }
}

/// The run with the branch of the step at hand in the ledger.
pub open spec fn recorded(st: RunView) -> RunView {
    RunView { ledger: st.ledger.insert(st.order[st.next as int].head), ..st }
}

/// The run at the beginning of the step after the one at hand.
pub open spec fn proceed(st: RunView) -> (RunView, Action) {
    enter(RunView { next: st.next + 1, ..st })
}

/// The run after a step went well but for the removal of its working copy.
pub open spec fn finish_step(st: RunView) -> (RunView, Action) {
    if in_temporary(st) {
        (in_phase(st, Phase::Removing), Action::RemoveWorktree)
    } else {
        proceed(st)
    }
}

/// The run stopped for `kind`.
pub open spec fn halt(st: RunView, kind: FailureKind) -> (RunView, Action) {
    (in_phase(st, Phase::Halted(kind)), Action::Halt(kind))
}

/// The run after the rebase or the push of the step at hand failed: it
/// stops, but a temporary working copy that is not to be kept is removed
/// first.
pub open spec fn fail_step(st: RunView, kind: FailureKind) -> (RunView, Action) {
    if in_temporary(st) && !keeps_working_copy(kind) {
        (in_phase(st, Phase::RemovingAfterFailure(kind)), Action::RemoveWorktree)
    } else {
        halt(st, kind)
    }
}

/// The run after the action it waited for went well (`ok`) or failed, and
/// what to do next.
///
/// A step that is only shown counts as done. A working copy that cannot be
/// made, a rebase that fails and a push that fails each stop the run. A
/// rebase that went well puts the branch into the ledger, whether or not a
/// push follows. A temporary working copy is removed after a step that
/// went well and after a push that failed; after a rebase that failed it
/// stays. Once finished or stopped, the run stays as it is.
pub open spec fn transition(st: RunView, ok: bool) -> (RunView, Action) {
    match st.phase {
        Phase::Reporting => proceed(recorded(st)),
        Phase::Adding => if ok {
            (in_phase(st, Phase::Rebasing), Action::Rebase)
        } else {
            halt(st, FailureKind::NotFoundLocally)
        },
        Phase::Rebasing => if !ok {
            fail_step(st, FailureKind::RebaseConflict)
        } else if !st.no_push {
            (in_phase(recorded(st), Phase::Pushing), Action::Push)
        } else {
            finish_step(recorded(st))
        },
        Phase::Pushing => if ok {
            finish_step(st)
        } else {
            fail_step(st, FailureKind::PushRejected)
        },
        Phase::Removing => proceed(st),
        Phase::RemovingAfterFailure(kind) => halt(st, kind),
        Phase::Finished => (st, Action::Finish),
        Phase::Halted(kind) => (st, Action::Halt(kind)),
    }
}

/// Whether a pull request is at hand in `phase`.
pub open spec fn at_step(phase: Phase) -> bool {
    !(phase is Finished)
}

/// Whether the rebase of the step at hand has gone well in `phase`.
pub open spec fn rebased(phase: Phase) -> bool {
    phase is Pushing || phase is Removing || phase == Phase::RemovingAfterFailure(
        FailureKind::PushRejected,
    ) || phase == Phase::Halted(FailureKind::PushRejected)
}

/// How many pull requests of the order have been rebased.
pub open spec fn done(st: RunView) -> int {
    if rebased(st.phase) {
        (st.next + 1) as int
    } else {
        st.next as int
    }
}

/// What holds of every run: a pull request is at hand unless the run is
/// finished; a dry run only reports; a working copy is made or removed
/// only for a branch that is checked out nowhere; and the ledger holds the
/// result branches of the pull requests rebased so far, and no other.
pub open spec fn run_wf(st: RunView) -> bool {
    &&& st.next <= st.order.len()
    &&& at_step(st.phase) ==> st.next < st.order.len()
    &&& st.phase is Finished ==> st.next == st.order.len()
    &&& st.dry_run ==> st.phase is Reporting || st.phase is Finished
    &&& st.phase is Reporting ==> st.dry_run
    &&& (st.phase is Adding || st.phase is Removing || st.phase is RemovingAfterFailure)
        ==> in_temporary(st)
    &&& st.ledger == heads(st.order.take(done(st)))
}

/// Every run that is as it should be stays so, whatever happens.
pub proof fn lemma_transition_keeps_wf(st: RunView, ok: bool)
    requires
        run_wf(st),
    ensures
        run_wf(transition(st, ok).0),
{
    if st.next < st.order.len() {
        lemma_heads_step(st.order, st.next as int);
    }
}

/// The ledger never loses a branch, and the order, the index and the
/// settings of a run never change.
pub proof fn lemma_ledger_grows(st: RunView, ok: bool)
    ensures
        st.ledger.subset_of(transition(st, ok).0.ledger),
        transition(st, ok).0.order == st.order,
        transition(st, ok).0.index == st.index,
        transition(st, ok).0.no_push == st.no_push,
        transition(st, ok).0.dry_run == st.dry_run,
        transition(st, ok).0.next >= st.next,
{
}

/// A dry run asks for nothing but reports.
pub proof fn lemma_dry_run_only_reports(st: RunView, ok: bool)
    requires
        run_wf(st),
        st.dry_run,
    ensures
        transition(st, ok).1 == Action::Report || transition(st, ok).1 == Action::Finish,
{
}

/// A temporary working copy is left in place after a rebase that failed,
/// and removed after a push that failed, before the run stops.
pub proof fn lemma_cleanup_after_failure(st: RunView)
    requires
        in_temporary(st),
    ensures
        st.phase is Rebasing ==> transition(st, false) == halt(st, FailureKind::RebaseConflict),
        st.phase is Pushing ==> transition(st, false).1 == Action::RemoveWorktree && transition(
            transition(st, false).0,
            true,
        ).1 == Action::Halt(FailureKind::PushRejected) && transition(
            transition(st, false).0,
            false,
        ).1 == Action::Halt(FailureKind::PushRejected),
{
}

/// A run that stopped asks for nothing more, and after a failure no later
/// pull request is taken up.
pub proof fn lemma_failure_stops(st: RunView, ok: bool)
    ensures
        st.phase is Halted ==> transition(st, ok).0 == st,
        transition(st, ok).0.phase is Halted ==> transition(st, ok).0.next == st.next,
        transition(st, ok).1 is Halt <==> transition(st, ok).0.phase is Halted,
        st.phase is Rebasing && !ok ==> transition(st, ok).1 == Action::Halt(
            FailureKind::RebaseConflict,
        ) && transition(st, ok).0.ledger == st.ledger,
        !ok && !(st.phase is Reporting) && !(st.phase is Removing) && !(st.phase is Finished)
            ==> transition(st, ok).0.next == st.next && (transition(st, ok).1 is Halt
            || transition(st, ok).1 is RemoveWorktree),
        st.no_push ==> transition(st, ok).1 != Action::Push,
{
}

/// In an execution order a step rebases onto the local branch exactly
/// where its base is the result branch of a pull request of the order, and
/// onto the remote-tracking branch of its base otherwise.
pub proof fn lemma_target_in_order(order: Seq<PrView>, i: int)
    requires
        is_execution_order(order),
        0 <= i < order.len(),
    ensures
        onto_for(heads(order.take(i)), order[i].base) == (if has_head(order, order[i].base) {
            OntoView::Local(order[i].base)
        } else {
            OntoView::Remote(order[i].base)
        }),
{
    let early = order.take(i);
    if has_head(order, order[i].base) {
        let j = choose|j: int| 0 <= j < order.len() && (#[trigger] order[j]).head == order[i].base;
        assert(j < i);
        assert(early[j].head == order[i].base);
    }
    if has_head(early, order[i].base) {
        let j = choose|j: int| 0 <= j < early.len() && (#[trigger] early[j]).head == order[i].base;
        assert(order[j].head == order[i].base);
    }
}

/// A rebase run.
pub struct Orchestrator {
    pub order: Vec<PrInfo>,
    pub index: WorktreeMap,
    pub no_push: bool,
    pub dry_run: bool,
    pub next: usize,
    pub ledger: Ledger,
    pub phase: Phase,
}

impl View for Orchestrator {
    type V = RunView;

    open spec fn view(&self) -> RunView {
        RunView {
            order: views(self.order@),
            index: self.index@,
            no_push: self.no_push,
            dry_run: self.dry_run,
            next: self.next as nat,
            ledger: self.ledger@,
            phase: self.phase,
        }
    }
}

impl Orchestrator {
    /// The run is as it should be, and so is its index.
    pub open spec fn wf(&self) -> bool {
        self.index.wf() && run_wf(self@)
    }

    /// Puts the machine at the beginning of the step `self.next`.
    fn enter_step(&mut self) -> (action: Action)
        requires
            old(self).index.wf(),
            old(self).next <= old(self).order.len(),
        ensures
            (final(self)@, action) == enter(old(self)@),
            final(self).index == old(self).index,
            final(self).order == old(self).order,
    {
        if self.next >= self.order.len() {
            self.phase = Phase::Finished;
            Action::Finish
        } else if self.dry_run {
            self.phase = Phase::Reporting;
            Action::Report
        } else if !self.index.contains(self.order[self.next].head_ref.as_str()) {
            self.phase = Phase::Adding;
            Action::AddWorktree
        } else {
            self.phase = Phase::Rebasing;
            Action::Rebase
        }
    }

    /// Goes on to the step after the one at hand.
    fn proceed_step(&mut self) -> (action: Action)
        requires
            old(self).index.wf(),
            old(self).next < old(self).order.len(),
        ensures
            (final(self)@, action) == proceed(old(self)@),
            final(self).index == old(self).index,
            final(self).order == old(self).order,
    {
        self.next = self.next + 1;
        self.enter_step()
    }

    /// Ends a step that went well.
    fn finish_step(&mut self) -> (action: Action)
        requires
            old(self).index.wf(),
            old(self).next < old(self).order.len(),
        ensures
            (final(self)@, action) == finish_step(old(self)@),
            final(self).index == old(self).index,
            final(self).order == old(self).order,
    {
        if !self.index.contains(self.order[self.next].head_ref.as_str()) {
            self.phase = Phase::Removing;
            Action::RemoveWorktree
        } else {
            self.proceed_step()
        }
    }

    /// Puts the branch of the step at hand into the ledger.
    fn record_step(&mut self)
        requires
            old(self).next < old(self).order.len(),
        ensures
            final(self)@ == recorded(old(self)@),
            final(self).index == old(self).index,
            final(self).order == old(self).order,
    {
        let head = self.order[self.next].head_ref.clone();
        self.ledger.record(head);
    }

    /// Stops the run after the rebase or the push failed.
    fn fail_step(&mut self, kind: FailureKind) -> (action: Action)
        requires
            old(self).index.wf(),
            old(self).next < old(self).order.len(),
        ensures
            (final(self)@, action) == fail_step(old(self)@, kind),
            final(self).index == old(self).index,
            final(self).order == old(self).order,
    {
        if !keep_working_copy(kind) && !self.index.contains(
            self.order[self.next].head_ref.as_str(),
        ) {
            self.phase = Phase::RemovingAfterFailure(kind);
            Action::RemoveWorktree
        } else {
            self.halt_step(kind)
        }
    }

    /// Stops the run.
    fn halt_step(&mut self, kind: FailureKind) -> (action: Action)
        ensures
            (final(self)@, action) == halt(old(self)@, kind),
            final(self).index == old(self).index,
            final(self).order == old(self).order,
    {
        self.phase = Phase::Halted(kind);
        Action::Halt(kind)
    }

    /// A run over `order`, with the worktrees of `index`, and its first
    /// action. With `dry_run` the steps are only reported; with `no_push`
    /// no branch is pushed.
    pub fn new(order: Vec<PrInfo>, index: WorktreeMap, no_push: bool, dry_run: bool) -> (r: (
        Orchestrator,
        Action,
    ))
        requires
            index.wf(),
        ensures
            r.0.wf(),
            (r.0@, r.1) == enter(
                RunView {
                    order: views(order@),
                    index: index@,
                    no_push,
                    dry_run,
                    next: 0,
                    ledger: Set::empty(),
                    phase: Phase::Finished,
                },
            ),
    {
        let mut run = Orchestrator {
            order,
            index,
            no_push,
            dry_run,
            next: 0,
            ledger: Ledger::new(),
            phase: Phase::Finished,
        };
        let action = run.enter_step();
        proof {
            assert(heads(run@.order.take(0)) =~= Set::<Seq<char>>::empty());
        }
        (run, action)
    }

    /// Tells the machine that the action it asked for went well (`ok`) or
    /// failed, and asks what to do next.
    pub fn advance(&mut self, ok: bool) -> (action: Action)
        requires
            old(self).wf(),
        ensures
            final(self).wf(),
            (final(self)@, action) == transition(old(self)@, ok),
    {
        proof {
            lemma_transition_keeps_wf(self@, ok);
        }
        match self.phase {
            Phase::Reporting => {
                self.record_step();
                self.proceed_step()
            },
            Phase::Adding => {
                if ok {
                    self.phase = Phase::Rebasing;
                    Action::Rebase
                } else {
                    self.halt_step(FailureKind::NotFoundLocally)
                }
            },
            Phase::Rebasing => {
                if !ok {
                    self.fail_step(FailureKind::RebaseConflict)
                } else if !self.no_push {
                    self.record_step();
                    self.phase = Phase::Pushing;
                    Action::Push
                } else {
                    self.record_step();
                    self.finish_step()
                }
            },
            Phase::Pushing => {
                if ok {
                    self.finish_step()
                } else {
                    self.fail_step(FailureKind::PushRejected)
                }
            },
            Phase::Removing => self.proceed_step(),
            Phase::RemovingAfterFailure(kind) => self.halt_step(kind),
            Phase::Finished => Action::Finish,
            Phase::Halted(kind) => Action::Halt(kind),
        }
    }

    /// The pull request at hand, unless the run is finished.
    pub fn current(&self) -> (pr: Option<&PrInfo>)
        ensures
            pr is Some <==> self.next < self.order.len(),
            pr is Some ==> pr->0@ == self@.order[self.next as int],
    {
        if self.next < self.order.len() {
            Some(&self.order[self.next])
        } else {
            None
        }
    }

    /// The ref that the step at hand rebases onto: the local branch where
    /// this run has rebased the base of the pull request, else the
    /// remote-tracking branch. Before the rebase of the step has gone well,
    /// the ledger holds the result branches of the pull requests before it.
    pub fn onto(&self) -> (target: OntoTarget)
        requires
            self.next < self.order.len(),
        ensures
            target@ == onto_for(self@.ledger, self@.order[self.next as int].base),
            self.wf() && !rebased(self.phase) ==> target@ == onto_for(
                heads(self@.order.take(self.next as int)),
                self@.order[self.next as int].base,
            ),
    {
        resolve_onto(&self.ledger, &self.order[self.next].base_ref)
    }

    /// The place in which the step at hand works.
    pub fn location(&self) -> (place: Location)
        requires
            self.index.wf(),
            self.next < self.order.len(),
        ensures
            place@ == location_for(self@.index, self@.order[self.next as int].head),
            place@ is Temporary <==> in_temporary(self@),
    {
        locate(&self.index, &self.order[self.next].head_ref)
    }
}

} // verus!

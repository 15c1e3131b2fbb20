//! Controller scheduling: the one current command of each lane (folding the
//! cleanup that earlier commands still owe into it), and the schedule that
//! runs at most one pass per lane, coalesces updates into the next pass,
//! retries, and holds a report until it is acknowledged.

use vstd::prelude::*;

use crate::controller::{
    cleanup_of, command_graph, CommandView, ControllerCommand, ControllerPass, ControllerReport, PassView, ReportView,
};
use crate::resource::{resources_view, Resource, ResourceView};
use crate::workmap::{key_lt, keys_ascending, keys_of, ControllerWorkKey, WorkMap};

verus! {

// === Folding cleanup obligations ===

/// The resources of `rs` by id, a later one replacing an earlier one with
/// the same id.
pub open spec fn by_id(rs: Seq<ResourceView>) -> Map<u128, ResourceView>
    decreases rs.len(),
{
    if rs.len() == 0 {
        Map::empty()
    } else {
        by_id(rs.drop_last()).insert(rs.last().id, rs.last())
    }
}

/// `rs` lists the resources of `m`, each once, in ascending id order.
pub open spec fn lists(rs: Seq<ResourceView>, m: Map<u128, ResourceView>) -> bool {
    &&& forall|i: int, j: int| 0 <= i < j < rs.len() ==> rs[i].id < rs[j].id
    &&& forall|i: int| #![trigger rs[i]] 0 <= i < rs.len() ==> m.contains_key(rs[i].id) && m[rs[i].id] == rs[i]
    &&& forall|id: u128| #![trigger m.contains_key(id)] m.contains_key(id) ==> exists|i: int| #![trigger rs[i]] 0 <= i < rs.len() && rs[i].id == id
}

/// The cleanup a previous command still owes, if there was one.
pub open spec fn owed_cleanup(previous: Option<CommandView>) -> Seq<ResourceView> {
    match previous {
        Some(p) => cleanup_of(p),
        None => Seq::empty(),
    }
}

/// The ids of `rs`.
pub open spec fn ids_of(rs: Seq<ResourceView>) -> Set<u128> {
    Set::new(|id: u128| exists|i: int| 0 <= i < rs.len() && #[trigger] rs[i].id == id)
}

/// The cleanup the current command carries after folding in what the
/// previous one owed: every resource either names for cleanup, the current
/// command's copy winning, except resources that a reconcile desires again.
pub open spec fn merged_cleanup(previous: Option<CommandView>, current: CommandView) -> Map<u128, ResourceView> {
    let all = by_id(owed_cleanup(previous) + cleanup_of(current));
    match current {
        CommandView::Reconcile(s) => all.remove_keys(ids_of(s.resources)),
        _ => all,
    }
}

/// `merged` is `current` with its cleanup replaced by `merged_cleanup`, in
/// ascending id order.
pub open spec fn merged_command(previous: Option<CommandView>, current: CommandView, merged: CommandView) -> bool {
    &&& lists(cleanup_of(merged), merged_cleanup(previous, current))
    &&& match (current, merged) {
        (CommandView::Reconcile(s), CommandView::Reconcile(t)) => t.graph_id == s.graph_id && t.generation == s.generation
            && t.plan_digest == s.plan_digest && t.controller == s.controller && t.bundles == s.bundles && t.resources
            == s.resources,
        (CommandView::Supersede(g, n, c, _), CommandView::Supersede(h, m, d, _)) => g == h && n == m && c == d,
        (CommandView::Retire(g, n, c, _), CommandView::Retire(h, m, d, _)) => g == h && n == m && c == d,
        _ => false,
    }
}

fn upsert(list: &mut Vec<Resource>, r: Resource, Ghost(m): Ghost<Map<u128, ResourceView>>)
    requires
        lists(resources_view(old(list)@), m),
    ensures
        lists(resources_view(final(list)@), m.insert(r.id, r@)),
{
    let ghost before = resources_view(list@);
    let n = list.len();
    let mut p: usize = 0;
    while p < n && list[p].id < r.id
        invariant
            n == list@.len(),
            before == resources_view(list@),
            p <= n,
            forall|j: int| 0 <= j < p ==> (#[trigger] before[j]).id < r.id,
        decreases n - p,
    {
        p = p + 1;
    }
    let ghost m2 = m.insert(r.id, r@);
    if p < n && list[p].id == r.id {
        let ghost rv = r@;
        list.set(p, r);
        proof {
            let after = resources_view(list@);
            assert(after =~= before.update(p as int, rv));
            assert forall|id: u128| #![trigger m2.contains_key(id)] m2.contains_key(id) implies exists|i: int|
                #![trigger after[i]] 0 <= i < after.len() && after[i].id == id by {
                if id == rv.id {
                    assert(after[p as int].id == id);
                } else {
                    let i = choose|i: int| #![trigger before[i]] 0 <= i < before.len() && before[i].id == id;
                    assert(after[i].id == id);
                }
            }
            assert forall|i: int| #![trigger after[i]] 0 <= i < after.len() implies m2.contains_key(after[i].id)
                && m2[after[i].id] == after[i] by {
                if i != p {
                    assert(after[i] == before[i]);
                    assert(before[i].id != before[p as int].id);
                } else {
                    assert(after[i] == rv);
                }
            }
        }
    } else {
        let ghost rv = r@;
        list.insert(p, r);
        proof {
            let after = resources_view(list@);
            assert(after =~= before.insert(p as int, rv));
            assert forall|i: int, j: int| 0 <= i < j < after.len() implies after[i].id < after[j].id by {
                if j < p {
                } else if j == p {
                } else if i < p {
                    assert(after[j] == before[j - 1]);
                } else if i == p {
                    assert(after[j] == before[j - 1]);
                    if p < n {
                        assert(before[p as int].id > rv.id);
                        if j - 1 > p {
                            assert(before[p as int].id < before[j - 1].id);
                        }
                    }
                } else {
                    assert(after[i] == before[i - 1]);
                    assert(after[j] == before[j - 1]);
                }
            }
            assert forall|id: u128| #![trigger m2.contains_key(id)] m2.contains_key(id) implies exists|i: int|
                #![trigger after[i]] 0 <= i < after.len() && after[i].id == id by {
                if id == rv.id {
                    assert(after[p as int].id == id);
                } else {
                    let i = choose|i: int| #![trigger before[i]] 0 <= i < before.len() && before[i].id == id;
                    if i < p {
                        assert(after[i].id == id);
                    } else {
                        assert(after[i + 1].id == id);
                    }
                }
            }
            assert forall|i: int| #![trigger after[i]] 0 <= i < after.len() implies m2.contains_key(after[i].id)
                && m2[after[i].id] == after[i] by {
                if i < p {
                    assert(after[i] == before[i]);
                } else if i > p {
                    assert(after[i] == before[i - 1]);
                    if p < n {
                        assert(before[p as int].id > rv.id);
                        if i - 1 > p {
                            assert(before[p as int].id < before[i - 1].id);
                        }
                    }
                }
            }
        }
    }
}

fn absorb(list: &mut Vec<Resource>, src: &Vec<Resource>, Ghost(prefix): Ghost<Seq<ResourceView>>)
    requires
        lists(resources_view(old(list)@), by_id(prefix)),
    ensures
        lists(resources_view(final(list)@), by_id(prefix + resources_view(src@))),
{
    let n = src.len();
    let mut i: usize = 0;
    assert(prefix + resources_view(src@).take(0) =~= prefix);
    while i < n
        invariant
            n == src@.len(),
            i <= n,
            lists(resources_view(list@), by_id(prefix + resources_view(src@).take(i as int))),
        decreases n - i,
    {
        let ghost seen = prefix + resources_view(src@).take(i as int);
        let ghost next = prefix + resources_view(src@).take(i + 1);
        assert(next.drop_last() =~= seen);
        assert(next.last() == src@[i as int]@);
        upsert(list, src[i].copied(), Ghost(by_id(seen)));
        i = i + 1;
    }
    assert(resources_view(src@).take(n as int) =~= resources_view(src@));
}

fn remove_id(list: &mut Vec<Resource>, id: u128, Ghost(m): Ghost<Map<u128, ResourceView>>)
    requires
        lists(resources_view(old(list)@), m),
    ensures
        lists(resources_view(final(list)@), m.remove(id)),
{
    let ghost before = resources_view(list@);
    let ghost m2 = m.remove(id);
    let n = list.len();
    let mut p: usize = 0;
    while p < n && list[p].id != id
        invariant
            n == list@.len(),
            before == resources_view(list@),
            p <= n,
            forall|j: int| 0 <= j < p ==> (#[trigger] before[j]).id != id,
        decreases n - p,
    {
        p = p + 1;
    }
    if p == n {
        proof {
            assert(!m.contains_key(id));
            assert(m2 =~= m);
        }
        return;
    }
    list.remove(p);
    proof {
        let after = resources_view(list@);
        assert(after =~= before.remove(p as int));
        assert forall|i: int, j: int| 0 <= i < j < after.len() implies after[i].id < after[j].id by {
            if j < p {
            } else if i < p {
                assert(after[j] == before[j + 1]);
            } else {
                assert(after[i] == before[i + 1]);
                assert(after[j] == before[j + 1]);
            }
        }
        assert forall|i: int| #![trigger after[i]] 0 <= i < after.len() implies m2.contains_key(after[i].id)
            && m2[after[i].id] == after[i] by {
            if i < p {
                assert(after[i] == before[i]);
                assert(before[i].id < before[p as int].id);
            } else {
                assert(after[i] == before[i + 1]);
                assert(before[p as int].id < before[i + 1].id);
            }
        }
        assert forall|k: u128| #![trigger m2.contains_key(k)] m2.contains_key(k) implies exists|i: int|
            #![trigger after[i]] 0 <= i < after.len() && after[i].id == k by {
            let i = choose|i: int| #![trigger before[i]] 0 <= i < before.len() && before[i].id == k;
            if i < p {
                assert(after[i].id == k);
            } else {
                assert(i != p);
                assert(after[i - 1].id == k);
            }
        }
    }
}

fn without_ids(list: &mut Vec<Resource>, owned: &Vec<Resource>, Ghost(m): Ghost<Map<u128, ResourceView>>)
    requires
        lists(resources_view(old(list)@), m),
    ensures
        lists(resources_view(final(list)@), m.remove_keys(ids_of(resources_view(owned@)))),
{
    let ghost ov = resources_view(owned@);
    let n = owned.len();
    let mut i: usize = 0;
    assert(m.remove_keys(ids_of(ov.take(0))) =~= m);
    while i < n
        invariant
            n == owned@.len(),
            ov == resources_view(owned@),
            i <= n,
            lists(resources_view(list@), m.remove_keys(ids_of(ov.take(i as int)))),
        decreases n - i,
    {
        let ghost cur = m.remove_keys(ids_of(ov.take(i as int)));
        remove_id(list, owned[i].id, Ghost(cur));
        proof {
            assert(ids_of(ov.take(i + 1)) =~= ids_of(ov.take(i as int)).insert(ov[i as int].id)) by {
                assert forall|x: u128| ids_of(ov.take(i + 1)).contains(x) <==> ids_of(ov.take(i as int)).insert(
                    ov[i as int].id,
                ).contains(x) by {
                    if ids_of(ov.take(i + 1)).contains(x) {
                        let t = choose|t: int| 0 <= t < ov.take(i + 1).len() && #[trigger] ov.take(i + 1)[t].id == x;
                        if t < i {
                            assert(ov.take(i as int)[t].id == x);
                        }
                    }
                    if ids_of(ov.take(i as int)).contains(x) {
                        let t = choose|t: int| 0 <= t < ov.take(i as int).len() && #[trigger] ov.take(i as int)[t].id == x;
                        assert(ov.take(i + 1)[t].id == x);
                    }
                    if x == ov[i as int].id {
                        assert(ov.take(i + 1)[i as int].id == x);
                    }
                }
            }
            assert(cur.remove(owned@[i as int].id) =~= m.remove_keys(ids_of(ov.take(i + 1))));
        }
        i = i + 1;
    }
    assert(ov.take(n as int) =~= ov);
}

/// The optional previous command as plain values.
pub open spec fn previous_view(previous: Option<&ControllerCommand>) -> Option<CommandView> {
    match previous {
        Some(c) => Some(c@),
        None => None,
    }
}

/// Folds the cleanup that `previous` still owes into `current`, as
/// `merged_command` states.
pub fn merge_current_command(previous: Option<&ControllerCommand>, current: ControllerCommand) -> (merged: ControllerCommand)
    ensures
        merged_command(previous_view(previous), current@, merged@),
{
    let mut cleanup: Vec<Resource> = Vec::new();
    assert(resources_view(cleanup@) =~= Seq::<ResourceView>::empty());
    assert(by_id(Seq::<ResourceView>::empty()) =~= Map::<u128, ResourceView>::empty());
    let ghost owed = owed_cleanup(previous_view(previous));
    match previous {
        Some(p) => {
            let src = match p {
                ControllerCommand::Reconcile(s) => &s.superseded,
                ControllerCommand::Supersede(s) => &s.resources,
                ControllerCommand::Retire(r) => &r.resources,
            };
            assert(Seq::<ResourceView>::empty() + resources_view(src@) =~= owed);
            absorb(&mut cleanup, src, Ghost(Seq::empty()));
        },
        None => {
            assert(owed =~= Seq::<ResourceView>::empty());
        },
    }
    let ghost all = owed + cleanup_of(current@);
    match current {
        ControllerCommand::Reconcile(mut slice) => {
            absorb(&mut cleanup, &slice.superseded, Ghost(owed));
            without_ids(&mut cleanup, &slice.resources, Ghost(by_id(all)));
            slice.superseded = cleanup;
            ControllerCommand::Reconcile(slice)
        },
        ControllerCommand::Supersede(mut command) => {
            absorb(&mut cleanup, &command.resources, Ghost(owed));
            command.resources = cleanup;
            ControllerCommand::Supersede(command)
        },
        ControllerCommand::Retire(mut command) => {
            absorb(&mut cleanup, &command.resources, Ghost(owed));
            command.resources = cleanup;
            ControllerCommand::Retire(command)
        },
    }
}


// === The current command of each lane ===

/// The one current command of each lane.
#[derive(Debug)]
pub struct ControllerDesiredState {
    commands: WorkMap<ControllerCommand>,
}

impl View for ControllerDesiredState {
    type V = Map<(u128, Seq<char>), CommandView>;

    closed spec fn view(&self) -> Map<(u128, Seq<char>), CommandView> {
        self.commands@.map_values(|c: ControllerCommand| c@)
    }
}

/// The command stored at `key`, if any.
pub open spec fn stored(d: Map<(u128, Seq<char>), CommandView>, key: (u128, Seq<char>)) -> Option<CommandView> {
    if d.contains_key(key) {
        Some(d[key])
    } else {
        None
    }
}

impl Default for ControllerDesiredState {
    fn default() -> (state: Self)
        ensures
            state@ == Map::<(u128, Seq<char>), CommandView>::empty(),
    {
        ControllerDesiredState::new()
    }
}

impl ControllerDesiredState {
    /// No lane has a command.
    pub fn new() -> (state: Self)
        ensures
            state@ == Map::<(u128, Seq<char>), CommandView>::empty(),
    {
        let state = ControllerDesiredState { commands: WorkMap::new() };
        assert(state@ =~= Map::<(u128, Seq<char>), CommandView>::empty());
        state
    }

    /// Makes `command` the current command of `controller`'s lane for the
    /// command's graph, folding in the cleanup the previous command still
    /// owed, and returns the lane.
    pub fn update(&mut self, controller: String, command: ControllerCommand) -> (key: ControllerWorkKey)
        ensures
            key@ == (command_graph(command@), controller@),
            final(self)@.dom() == old(self)@.dom().insert(key@),
            forall|k: (u128, Seq<char>)| k != key@ && old(self)@.contains_key(k) ==> final(self)@[k] == old(self)@[k],
            merged_command(stored(old(self)@, key@), command@, final(self)@[key@]),
    {
        let key = ControllerWorkKey::new(command.graph_id(), controller);
        let previous = self.commands.get(&key);
        proof {
            if self.commands@.contains_key(key@) {
                assert(self@.contains_key(key@));
            }
            assert(previous_view(previous) == stored(self@, key@));
        }
        let merged = merge_current_command(previous, command);
        self.commands.insert(key.copied(), merged);
        proof {
            assert(self@.dom() =~= old(self)@.dom().insert(key@));
        }
        key
    }

    /// The current command of `key`'s lane, if it has one.
    pub fn current(&self, key: &ControllerWorkKey) -> (command: Option<&ControllerCommand>)
        ensures
            command matches Some(c) ==> self@.contains_key(key@) && c@ == self@[key@],
            command is None ==> !self@.contains_key(key@),
    {
        self.commands.get(key)
    }
}

// === The schedule ===

/// A pass handed to a controller: its lane and the command to run.
#[derive(Debug)]
pub struct ScheduledControllerPass {
    key: ControllerWorkKey,
    command: ControllerCommand,
}

impl ScheduledControllerPass {
    /// The lane of this pass.
    pub closed spec fn key_view(&self) -> (u128, Seq<char>) {
        self.key@
    }

    /// The command of this pass.
    pub closed spec fn command_view(&self) -> CommandView {
        self.command@
    }

    /// The lane of this pass.
    pub fn key(&self) -> (key: &ControllerWorkKey)
        ensures
            key@ == self.key_view(),
    {
        &self.key
    }

    /// The command of this pass.
    pub fn command(&self) -> (command: &ControllerCommand)
        ensures
            command@ == self.command_view(),
    {
        &self.command
    }
}

/// A report to deliver for a lane.
#[derive(Clone, Debug, PartialEq, Eq)]
pub struct ScheduledControllerReport {
    key: ControllerWorkKey,
    report: ControllerReport,
}

impl ScheduledControllerReport {
    /// The lane of this report.
    pub closed spec fn key_view(&self) -> (u128, Seq<char>) {
        self.key@
    }

    /// The report.
    pub closed spec fn report_view(&self) -> ReportView {
        self.report@
    }

    /// The lane of this report.
    pub fn key(&self) -> (key: &ControllerWorkKey)
        ensures
            key@ == self.key_view(),
    {
        &self.key
    }

    /// The report.
    pub fn report(&self) -> (report: &ControllerReport)
        ensures
            report@ == self.report_view(),
    {
        &self.report
    }
}

/// What the driver of a lane does after a pass or a delivered report.
#[derive(Clone, Debug, PartialEq, Eq)]
pub enum ControllerScheduleCompletion {
    Continue,
    Report(ScheduledControllerReport),
    Retry { attempt: u32, message: String },
    Complete,
}

/// A completion as plain values.
pub enum CompletionView {
    Continue,
    Report((u128, Seq<char>), ReportView),
    Retry(u32, Seq<char>),
    Complete,
}

impl View for ControllerScheduleCompletion {
    type V = CompletionView;

    open spec fn view(&self) -> CompletionView {
        match self {
            ControllerScheduleCompletion::Continue => CompletionView::Continue,
            ControllerScheduleCompletion::Report(r) => CompletionView::Report(r.key_view(), r.report_view()),
            ControllerScheduleCompletion::Retry { attempt, message } => CompletionView::Retry(*attempt, message@),
            ControllerScheduleCompletion::Complete => CompletionView::Complete,
        }
    }
}

/// The state of one lane.
#[derive(Debug)]
struct ScheduledControllerWork {
    dirty: bool,
    in_flight: bool,
    pending_report: Option<ControllerReport>,
    retry_attempt: u32,
}

/// A lane's state as plain values: a newer command waits, a pass is
/// running, a report awaits acknowledgement, and the retries so far.
pub struct WorkView {
    pub dirty: bool,
    pub in_flight: bool,
    pub pending: Option<ReportView>,
    pub retry_attempt: u32,
}

spec fn work_view(w: ScheduledControllerWork) -> WorkView {
    WorkView {
        dirty: w.dirty,
        in_flight: w.in_flight,
        pending: match w.pending_report {
            Some(r) => Some(r@),
            None => None,
        },
        retry_attempt: w.retry_attempt,
    }
}

/// The lanes of a schedule.
pub type Lanes = Map<(u128, Seq<char>), WorkView>;

/// A lane just submitted.
pub open spec fn fresh_lane() -> WorkView {
    WorkView { dirty: true, in_flight: false, pending: None, retry_attempt: 0 }
}

/// `w` with the given flags and retry count.
pub open spec fn lane_with(w: WorkView, dirty: bool, in_flight: bool, retry_attempt: u32) -> WorkView {
    WorkView { dirty, in_flight, pending: w.pending, retry_attempt }
}

/// The lanes after `k` is submitted: marked as having a newer command,
/// its retries reset.
pub open spec fn after_submit(m: Lanes, k: (u128, Seq<char>)) -> Lanes {
    if m.contains_key(k) {
        m.insert(k, lane_with(m[k], true, m[k].in_flight, 0))
    } else {
        m.insert(k, fresh_lane())
    }
}

/// A submit of `k` needs a driver started: no pass of the lane is running.
pub open spec fn submit_starts(m: Lanes, k: (u128, Seq<char>)) -> bool {
    !m.contains_key(k) || !m[k].in_flight
}

/// A pass of `k` can start: it has a command, a newer command waits, and
/// no pass is running.
pub open spec fn can_pass(m: Lanes, k: (u128, Seq<char>), d: Map<(u128, Seq<char>), CommandView>) -> bool {
    d.contains_key(k) && m.contains_key(k) && !m[k].in_flight && m[k].dirty
}

/// The lanes after a pass of `k` starts.
pub open spec fn after_pass(m: Lanes, k: (u128, Seq<char>), d: Map<(u128, Seq<char>), CommandView>) -> Lanes {
    if can_pass(m, k, d) {
        m.insert(k, lane_with(m[k], false, true, m[k].retry_attempt))
    } else {
        m
    }
}

/// One more retry, saturating.
pub open spec fn next_attempt(a: u32) -> u32 {
    if a == u32::MAX {
        a
    } else {
        (a + 1) as u32
    }
}

/// The lanes and the completion after a pass of `k` ends with `outcome`:
/// a newer command continues the lane whatever the outcome; otherwise an
/// action continues it, a report is held for delivery, a quiet
/// convergence ends it (dropping the lane unless a report is held), and a
/// retryable failure counts an attempt and continues it after a delay.
pub open spec fn after_complete(m: Lanes, k: (u128, Seq<char>), outcome: PassView) -> (Lanes, CompletionView) {
    if !m.contains_key(k) {
        (m, CompletionView::Complete)
    } else {
        let w = lane_with(m[k], m[k].dirty, false, m[k].retry_attempt);
        if w.dirty {
            (m.insert(k, w), CompletionView::Continue)
        } else {
            match outcome {
                PassView::Acted => (m.insert(k, lane_with(w, true, false, 0)), CompletionView::Continue),
                PassView::Converged(Some(r)) => (
                    m.insert(k, WorkView { dirty: false, in_flight: false, pending: Some(r), retry_attempt: 0 }),
                    CompletionView::Report(k, r),
                ),
                PassView::Failed(r) => (
                    m.insert(k, WorkView { dirty: false, in_flight: false, pending: Some(r), retry_attempt: 0 }),
                    CompletionView::Report(k, r),
                ),
                PassView::Converged(None) => if w.pending is Some {
                    (m.insert(k, w), CompletionView::Complete)
                } else {
                    (m.remove(k), CompletionView::Complete)
                },
                PassView::Retryable(msg) => {
                    let a = next_attempt(w.retry_attempt);
                    (m.insert(k, lane_with(w, true, false, a)), CompletionView::Retry(a, msg))
                },
            }
        }
    }
}

/// The lanes and the completion after report `r` of `k` is delivered: a
/// report other than the held one changes nothing; otherwise it is
/// released, and the lane continues if a newer command waits and no pass
/// runs, stays while either holds, and is dropped when neither does.
pub open spec fn after_acknowledge(m: Lanes, k: (u128, Seq<char>), r: ReportView) -> (Lanes, CompletionView) {
    if !m.contains_key(k) || m[k].pending != Some(r) {
        (m, CompletionView::Complete)
    } else {
        let w = WorkView { dirty: m[k].dirty, in_flight: m[k].in_flight, pending: None, retry_attempt: m[k].retry_attempt };
        if w.dirty && !w.in_flight {
            (m.insert(k, w), CompletionView::Continue)
        } else if w.dirty || w.in_flight {
            (m.insert(k, w), CompletionView::Complete)
        } else {
            (m.remove(k), CompletionView::Complete)
        }
    }
}

/// The lanes of controller work and their state.
#[derive(Debug)]
pub struct ControllerSchedule {
    work: WorkMap<ScheduledControllerWork>,
}

impl View for ControllerSchedule {
    type V = Lanes;

    closed spec fn view(&self) -> Lanes {
        self.work@.map_values(|w: ScheduledControllerWork| work_view(w))
    }
}

impl Default for ControllerSchedule {
    fn default() -> (schedule: Self)
        ensures
            schedule@ == Map::<(u128, Seq<char>), WorkView>::empty(),
    {
        ControllerSchedule::new()
    }
}

impl ControllerSchedule {
    /// No lanes.
    pub fn new() -> (schedule: Self)
        ensures
            schedule@ == Map::<(u128, Seq<char>), WorkView>::empty(),
    {
        let schedule = ControllerSchedule { work: WorkMap::new() };
        assert(schedule@ =~= Map::<(u128, Seq<char>), WorkView>::empty());
        schedule
    }

    fn put(&mut self, key: ControllerWorkKey, work: ScheduledControllerWork)
        ensures
            final(self)@ == old(self)@.insert(key@, work_view(work)),
    {
        self.work.insert(key, work);
        assert(self@ =~= old(self)@.insert(key@, work_view(work)));
    }

    fn take(&mut self, key: &ControllerWorkKey) -> (work: Option<ScheduledControllerWork>)
        ensures
            work matches Some(w) ==> old(self)@.contains_key(key@) && work_view(w) == old(self)@[key@],
            work is None ==> !old(self)@.contains_key(key@),
            final(self)@ == old(self)@.remove(key@),
    {
        let work = self.work.take(key);
        assert(self@ =~= old(self)@.remove(key@));
        work
    }

    /// Marks `key`'s lane as having a newer command; hands the lane back
    /// when no pass of it runs, so that the caller starts a driver.
    pub fn submit(&mut self, key: ControllerWorkKey) -> (start: Option<ControllerWorkKey>)
        ensures
            final(self)@ == after_submit(old(self)@, key@),
            start matches Some(k) ==> k@ == key@,
            start is Some <==> submit_starts(old(self)@, key@),
    {
        match self.take(&key) {
            Some(mut work) => {
                work.dirty = true;
                work.retry_attempt = 0;
                let running = work.in_flight;
                let k = key.copied();
                self.put(key, work);
                if running {
                    None
                } else {
                    Some(k)
                }
            },
            None => {
                let k = key.copied();
                self.put(key, ScheduledControllerWork { dirty: true, in_flight: false, pending_report: None, retry_attempt: 0 });
                Some(k)
            },
        }
    }

    /// Starts a pass of `key`'s lane with its current command, when one can
    /// start.
    pub fn pass(&mut self, key: &ControllerWorkKey, desired: &ControllerDesiredState) -> (pass: Option<ScheduledControllerPass>)
        ensures
            final(self)@ == after_pass(old(self)@, key@, desired@),
            pass is Some <==> can_pass(old(self)@, key@, desired@),
            pass matches Some(p) ==> p.key_view() == key@ && p.command_view() == desired@[key@],
    {
        let command = match desired.current(key) {
            Some(c) => c.copied(),
            None => return None,
        };
        let mut work = match self.take(key) {
            Some(w) => w,
            None => return None,
        };
        if work.in_flight || !work.dirty {
            self.put(key.copied(), work);
            assert(self@ =~= old(self)@);
            return None;
        }
        work.dirty = false;
        work.in_flight = true;
        self.put(key.copied(), work);
        assert(self@ =~= old(self)@.insert(key@, lane_with(old(self)@[key@], false, true, old(self)@[key@].retry_attempt)));
        Some(ScheduledControllerPass { key: key.copied(), command })
    }

    /// Records how a pass ended and says what the lane's driver does next,
    /// as `after_complete` states.
    pub fn complete(&mut self, pass: &ScheduledControllerPass, outcome: ControllerPass) -> (completion: ControllerScheduleCompletion)
        ensures
            (final(self)@, completion@) == after_complete(old(self)@, pass.key_view(), outcome@),
    {
        let ghost m = self@;
        let ghost k = pass.key_view();
        let ghost o = outcome@;
        let mut work = match self.take(&pass.key) {
            Some(w) => w,
            None => {
                assert(self@ =~= m);
                return ControllerScheduleCompletion::Complete;
            },
        };
        work.in_flight = false;
        if work.dirty {
            self.put(pass.key.copied(), work);
            return ControllerScheduleCompletion::Continue;
        }
        match outcome {
            ControllerPass::Acted => {
                work.retry_attempt = 0;
                work.dirty = true;
                self.put(pass.key.copied(), work);
                ControllerScheduleCompletion::Continue
            },
            ControllerPass::Converged(Some(report)) => {
                work.retry_attempt = 0;
                work.pending_report = Some(report.copied());
                self.put(pass.key.copied(), work);
                ControllerScheduleCompletion::Report(ScheduledControllerReport { key: pass.key.copied(), report })
            },
            ControllerPass::Failed(report) => {
                work.retry_attempt = 0;
                work.pending_report = Some(report.copied());
                self.put(pass.key.copied(), work);
                ControllerScheduleCompletion::Report(ScheduledControllerReport { key: pass.key.copied(), report })
            },
            ControllerPass::Converged(None) => {
                if work.pending_report.is_some() {
                    self.put(pass.key.copied(), work);
                }
                ControllerScheduleCompletion::Complete
            },
            ControllerPass::Retryable(message) => {
                work.retry_attempt = if work.retry_attempt == u32::MAX {
                    work.retry_attempt
                } else {
                    work.retry_attempt + 1
                };
                work.dirty = true;
                let attempt = work.retry_attempt;
                self.put(pass.key.copied(), work);
                ControllerScheduleCompletion::Retry { attempt, message }
            },
        }
    }

    /// Releases the held report of a lane once it is delivered, and says
    /// what the lane's driver does next, as `after_acknowledge` states.
    pub fn acknowledge_report(&mut self, delivered: &ScheduledControllerReport) -> (completion: ControllerScheduleCompletion)
        ensures
            (final(self)@, completion@) == after_acknowledge(old(self)@, delivered.key_view(), delivered.report_view()),
    {
        let ghost m = self@;
        let mut work = match self.take(&delivered.key) {
            Some(w) => w,
            None => {
                assert(self@ =~= m);
                return ControllerScheduleCompletion::Complete;
            },
        };
        let held = match &work.pending_report {
            Some(r) => r.same(&delivered.report),
            None => false,
        };
        if !held {
            self.put(delivered.key.copied(), work);
            assert(self@ =~= m);
            return ControllerScheduleCompletion::Complete;
        }
        work.pending_report = None;
        if work.dirty && !work.in_flight {
            self.put(delivered.key.copied(), work);
            ControllerScheduleCompletion::Continue
        } else if work.dirty || work.in_flight {
            self.put(delivered.key.copied(), work);
            ControllerScheduleCompletion::Complete
        } else {
            ControllerScheduleCompletion::Complete
        }
    }

    /// The passes that can start now, in lane order, each with its lane's
    /// current command.
    pub fn passes(&self, desired: &ControllerDesiredState) -> (passes: Vec<ScheduledControllerPass>)
        requires
            forall|k: (u128, Seq<char>)| #[trigger] self@.contains_key(k) && !self@[k].in_flight && self@[k].dirty
                ==> desired@.contains_key(k),
        ensures
            forall|i: int, j: int| 0 <= i < j < passes@.len() ==> key_lt(passes@[i].key_view(), passes@[j].key_view()),
            forall|i: int| 0 <= i < passes@.len() ==> can_pass(self@, #[trigger] passes@[i].key_view(), desired@)
                && passes@[i].command_view() == desired@[passes@[i].key_view()],
            forall|k: (u128, Seq<char>)| can_pass(self@, k, desired@) ==> exists|i: int|
                0 <= i < passes@.len() && #[trigger] passes@[i].key_view() == k,
    {
        let entries = self.work.entries();
        let ghost keys = keys_of(entries@);
        let mut out: Vec<ScheduledControllerPass> = Vec::new();
        let n = entries.len();
        let mut i: usize = 0;
        while i < n
            invariant
                n == entries@.len(),
                keys == keys_of(entries@),
                keys == self.work.ordered_keys(),
                keys_ascending(keys),
                forall|k: (u128, Seq<char>)| self.work@.contains_key(k) <==> keys.contains(k),
                forall|t: int| 0 <= t < entries@.len() ==> self.work@[#[trigger] entries@[t].0@] == entries@[t].1,
                forall|k: (u128, Seq<char>)| #[trigger] self@.contains_key(k) && !self@[k].in_flight && self@[k].dirty
                    ==> desired@.contains_key(k),
                i <= n,
                forall|a: int, b: int| 0 <= a < b < out@.len() ==> key_lt(out@[a].key_view(), out@[b].key_view()),
                forall|a: int| 0 <= a < out@.len() ==> exists|t: int| 0 <= t < i && #[trigger] out@[a].key_view() == keys[t],
                forall|a: int| 0 <= a < out@.len() ==> can_pass(self@, #[trigger] out@[a].key_view(), desired@)
                    && out@[a].command_view() == desired@[out@[a].key_view()],
                forall|t: int| 0 <= t < i && can_pass(self@, #[trigger] keys[t], desired@) ==> exists|a: int|
                    0 <= a < out@.len() && out@[a].key_view() == keys[t],
            decreases n - i,
        {
            let entry = &entries[i];
            let ghost k = keys[i as int];
            assert(entry.0@ == k);
            assert(self@.contains_key(k)) by {
                assert(keys.contains(k));
            }
            assert(self@[k] == work_view(entry.1));
            if !entry.1.in_flight && entry.1.dirty {
                match desired.current(&entry.0) {
                    Some(c) => {
                        let ghost before = out@;
                        out.push(ScheduledControllerPass { key: entry.0.copied(), command: c.copied() });
                        proof {
                            assert forall|a: int, b: int| 0 <= a < b < out@.len() implies key_lt(
                                out@[a].key_view(),
                                out@[b].key_view(),
                            ) by {
                                if b == out@.len() - 1 {
                                    assert(out@[a] == before[a]);
                                    let t = choose|t: int| 0 <= t < i && #[trigger] before[a].key_view() == keys[t];
                                    assert(key_lt(keys[t], keys[i as int]));
                                } else {
                                    assert(out@[a] == before[a]);
                                    assert(out@[b] == before[b]);
                                }
                            }
                            assert forall|a: int| 0 <= a < out@.len() implies exists|t: int|
                                0 <= t < i + 1 && #[trigger] out@[a].key_view() == keys[t] by {
                                if a < before.len() {
                                    assert(out@[a] == before[a]);
                                } else {
                                    assert(out@[a].key_view() == keys[i as int]);
                                }
                            }
                            assert forall|a: int| 0 <= a < out@.len() implies can_pass(self@, #[trigger] out@[a].key_view(), desired@)
                                && out@[a].command_view() == desired@[out@[a].key_view()] by {
                                if a < before.len() {
                                    assert(out@[a] == before[a]);
                                }
                            }
                            assert forall|t: int| 0 <= t < i + 1 && can_pass(self@, #[trigger] keys[t], desired@) implies exists|a: int|
                                0 <= a < out@.len() && out@[a].key_view() == keys[t] by {
                                if t < i {
                                    let a = choose|a: int| 0 <= a < before.len() && before[a].key_view() == keys[t];
                                    assert(out@[a] == before[a]);
                                } else {
                                    assert(out@[out@.len() - 1].key_view() == keys[t]);
                                }
                            }
                        }
                    },
                    None => {
                        assert(false);
                    },
                }
            } else {
                proof {
                    assert(!can_pass(self@, k, desired@));
                    assert forall|t: int| 0 <= t < i + 1 && can_pass(self@, #[trigger] keys[t], desired@) implies exists|a: int|
                        0 <= a < out@.len() && out@[a].key_view() == keys[t] by {
                    }
                }
            }
            i = i + 1;
        }
        proof {
            assert forall|k: (u128, Seq<char>)| can_pass(self@, k, desired@) implies exists|i: int|
                0 <= i < out@.len() && #[trigger] out@[i].key_view() == k by {
                assert(keys.contains(k));
                let t = choose|t: int| 0 <= t < keys.len() && keys[t] == k;
                assert(can_pass(self@, keys[t], desired@));
            }
        }
        out
    }
}


// === Laws of the schedule ===

/// A lane never runs two passes at once: once a pass of it starts, no
/// other pass of it can start until that one completes.
pub proof fn law_single_flight(m: Lanes, k: (u128, Seq<char>), d: Map<(u128, Seq<char>), CommandView>)
    requires
        can_pass(m, k, d),
    ensures
        after_pass(m, k, d)[k].in_flight,
        !can_pass(after_pass(m, k, d), k, d),
{
}

/// Updates coalesce: submitting a lane again before its next pass changes
/// nothing more, and starts a driver exactly when the first submit did.
pub proof fn law_submits_coalesce(m: Lanes, k: (u128, Seq<char>))
    ensures
        after_submit(after_submit(m, k), k) == after_submit(m, k),
        submit_starts(after_submit(m, k), k) == submit_starts(m, k),
{
    assert(after_submit(after_submit(m, k), k) =~= after_submit(m, k));
}

/// A newer command supersedes the running pass: a submit while a pass
/// runs starts no driver, and whatever that pass reports, the lane
/// continues with a pass of the newer command.
pub proof fn law_submit_during_pass_continues(
    m: Lanes,
    k: (u128, Seq<char>),
    d: Map<(u128, Seq<char>), CommandView>,
    outcome: PassView,
)
    requires
        m.contains_key(k),
        m[k].in_flight,
        d.contains_key(k),
    ensures
        !submit_starts(m, k),
        after_complete(after_submit(m, k), k, outcome).1 == CompletionView::Continue,
        can_pass(after_complete(after_submit(m, k), k, outcome).0, k, d),
{
}

/// A report is held until it is delivered: after a pass settles with a
/// report no pass starts without a newer command, delivering any other
/// report changes nothing, and delivering it releases the lane.
pub proof fn law_report_held_until_acknowledged(
    m: Lanes,
    k: (u128, Seq<char>),
    d: Map<(u128, Seq<char>), CommandView>,
    r: ReportView,
    other: ReportView,
)
    requires
        m.contains_key(k),
        !m[k].dirty,
        other != r,
    ensures
        after_complete(m, k, PassView::Converged(Some(r))).1 == CompletionView::Report(k, r),
        after_complete(m, k, PassView::Converged(Some(r))).0[k].pending == Some(r),
        !can_pass(after_complete(m, k, PassView::Converged(Some(r))).0, k, d),
        after_acknowledge(after_complete(m, k, PassView::Converged(Some(r))).0, k, other).0 == after_complete(
            m,
            k,
            PassView::Converged(Some(r)),
        ).0,
        !after_acknowledge(after_complete(m, k, PassView::Converged(Some(r))).0, k, r).0.contains_key(k),
{
}

/// A report delivered after a newer command arrived continues the lane.
pub proof fn law_acknowledged_report_resumes_newer_command(
    m: Lanes,
    k: (u128, Seq<char>),
    d: Map<(u128, Seq<char>), CommandView>,
    r: ReportView,
)
    requires
        m.contains_key(k),
        !m[k].in_flight,
        m[k].pending == Some(r),
        d.contains_key(k),
    ensures
        after_acknowledge(after_submit(m, k), k, r).1 == CompletionView::Continue,
        can_pass(after_acknowledge(after_submit(m, k), k, r).0, k, d),
{
}

/// Retryable and terminal failures differ: a retryable one counts an
/// attempt and makes the lane runnable again, a terminal one is held as a
/// report; a submit resets the count.
pub proof fn law_retry_and_failure(m: Lanes, k: (u128, Seq<char>), message: Seq<char>, r: ReportView)
    requires
        m.contains_key(k),
        !m[k].dirty,
    ensures
        after_complete(m, k, PassView::Retryable(message)).1 == CompletionView::Retry(next_attempt(m[k].retry_attempt), message),
        after_complete(m, k, PassView::Retryable(message)).0[k].dirty,
        after_submit(after_complete(m, k, PassView::Retryable(message)).0, k)[k].retry_attempt == 0,
        after_complete(m, k, PassView::Failed(r)).1 == CompletionView::Report(k, r),
        !after_complete(m, k, PassView::Failed(r)).0[k].dirty,
{
}

/// A lane that settles quietly with nothing held is dropped.
pub proof fn law_quiet_lane_is_dropped(m: Lanes, k: (u128, Seq<char>))
    requires
        m.contains_key(k),
        !m[k].dirty,
        m[k].pending is None,
    ensures
        after_complete(m, k, PassView::Converged(None)) == (m.remove(k), CompletionView::Complete),
{
}

} // verus!

verus! {

/// Folding cleanup into the current command keeps every resource that the
/// previous command still owed or that the current one names for cleanup,
/// except those a reconcile desires again; where both name a resource, the
/// current command's copy wins; and each resource stays under its own id.
pub proof fn law_cleanup_folding(previous: Option<CommandView>, current: CommandView, id: u128)
    ensures
        merged_cleanup(previous, current).contains_key(id) <==> ((ids_of(owed_cleanup(previous)).contains(id) || ids_of(
            cleanup_of(current),
        ).contains(id)) && !(current matches CommandView::Reconcile(s) && ids_of(s.resources).contains(id))),
        merged_cleanup(previous, current).contains_key(id) && ids_of(cleanup_of(current)).contains(id) ==> merged_cleanup(
            previous,
            current,
        )[id] == by_id(cleanup_of(current))[id],
        merged_cleanup(previous, current).contains_key(id) ==> merged_cleanup(previous, current)[id].id == id,
{
    let a = owed_cleanup(previous);
    let b = cleanup_of(current);
    lemma_by_id_keys(a + b, id);
    lemma_by_id_keys(b, id);
    lemma_ids_of_concat(a, b, id);
    lemma_by_id_later_wins(a, b, id);
}

proof fn lemma_by_id_keys(rs: Seq<ResourceView>, id: u128)
    ensures
        by_id(rs).contains_key(id) <==> ids_of(rs).contains(id),
        by_id(rs).contains_key(id) ==> by_id(rs)[id].id == id,
    decreases rs.len(),
{
    if rs.len() > 0 {
        let front = rs.drop_last();
        lemma_by_id_keys(front, id);
        if ids_of(rs).contains(id) {
            let i = choose|i: int| 0 <= i < rs.len() && #[trigger] rs[i].id == id;
            if i < front.len() {
                assert(front[i].id == id);
                assert(ids_of(front).contains(id));
            }
        }
        if ids_of(front).contains(id) {
            let i = choose|i: int| 0 <= i < front.len() && #[trigger] front[i].id == id;
            assert(rs[i].id == id);
        }
        assert(rs[rs.len() - 1].id == rs.last().id);
    }
}

proof fn lemma_ids_of_concat(a: Seq<ResourceView>, b: Seq<ResourceView>, id: u128)
    ensures
        ids_of(a + b).contains(id) <==> ids_of(a).contains(id) || ids_of(b).contains(id),
{
    if ids_of(a + b).contains(id) {
        let i = choose|i: int| 0 <= i < (a + b).len() && #[trigger] (a + b)[i].id == id;
        if i < a.len() {
            assert(a[i].id == id);
        } else {
            assert(b[i - a.len()].id == id);
        }
    }
    if ids_of(a).contains(id) {
        let i = choose|i: int| 0 <= i < a.len() && #[trigger] a[i].id == id;
        assert((a + b)[i].id == id);
    }
    if ids_of(b).contains(id) {
        let i = choose|i: int| 0 <= i < b.len() && #[trigger] b[i].id == id;
        assert((a + b)[a.len() + i].id == id);
    }
}

proof fn lemma_by_id_later_wins(a: Seq<ResourceView>, b: Seq<ResourceView>, id: u128)
    ensures
        ids_of(b).contains(id) ==> by_id(a + b).contains_key(id) && by_id(a + b)[id] == by_id(b)[id],
    decreases b.len(),
{
    if b.len() > 0 {
        let front = b.drop_last();
        lemma_by_id_later_wins(a, front, id);
        assert((a + b).drop_last() =~= a + front);
        assert((a + b).last() == b.last());
        lemma_by_id_keys(front, id);
        if ids_of(b).contains(id) && b.last().id != id {
            let i = choose|i: int| 0 <= i < b.len() && #[trigger] b[i].id == id;
            assert(i < front.len());
            assert(front[i].id == id);
            assert(ids_of(front).contains(id));
        }
    }
}

} // verus!

//! Policy engine: manages renderer lifecycle states (Active, Suspended)
//! driven by Hyprland visibility, occlusion, display power, and hysteresis.
//!
//! A wallpaper nobody can see should burn zero CPU. Occlusion is common and brief
//! (e.g. quick workspace switching, alt-tabbing), so transitions to `Suspended`
//! are delayed by a hysteretic threshold (1.5s) to avoid renderer thrashing.
//! Returning to a visible desktop resumes immediately.
//!
//! Points in time and spans are nanoseconds of a monotonic clock. A suspension is kept
//! by when it was asked for, so that a delay can follow any point in time.
use vstd::prelude::*;
use crate::hyprland::{
    ClientReport, EventModel, HyprEvent, MonitorReport, OcclusionTracker, TrackerModel,
};

verus! {

/// Lifecycle state of wallpaper renderers.
#[derive(Debug, Clone, Copy, PartialEq, Eq, Structural)]
pub enum PolicyState {
    /// Renderers active and advancing frames.
    Active,
    /// Renderers suspended (paused, 0% CPU, surface mapped).
    Suspended,
}

/// Action to apply to the renderers.
#[derive(Debug, Clone, Copy, PartialEq, Eq, Structural)]
pub enum PolicyAction {
    Nothing,
    Pause,
    Resume,
}

/// The policy engine tracking visibility and driving hysteretic state changes.
pub struct PolicyEngine {
    state: PolicyState,
    tracker: OcclusionTracker,
    manual_paused: bool,
    /// Since when a suspension is pending.
    pending_since: Option<u64>,
    suspend_delay: u64,
}

/// What a policy engine stands for.
#[verifier::ext_equal]
pub ghost struct PolicyModel {
    pub state: PolicyState,
    pub tracker: TrackerModel,
    pub manual_paused: bool,
    /// When a pending suspension is due.
    pub deadline: Option<int>,
    pub delay: u64,
}

impl View for PolicyEngine {
    type V = PolicyModel;

    closed spec fn view(&self) -> PolicyModel {
        PolicyModel {
            state: self.state,
            tracker: self.tracker@,
            manual_paused: self.manual_paused,
            deadline: match self.pending_since {
                Some(since) => Some(since + self.suspend_delay),
                None => None,
            },
            delay: self.suspend_delay,
        }
    }
}

/// An engine that knows of nothing yet.
pub open spec fn fresh(delay: u64) -> PolicyModel {
    PolicyModel {
        state: PolicyState::Active,
        tracker: crate::hyprland::nothing_known(),
        manual_paused: false,
        deadline: None,
        delay,
    }
}

impl PolicyModel {
    /// Whether reconciling starts the delay before suspending: nothing is paused by
    /// hand, everything is covered, by windows alone, and no delay is running.
    pub open spec fn starts_delay(self) -> bool {
        !self.manual_paused && self.tracker.all_occluded() && self.state == PolicyState::Active && !self.tracker.locked
            && self.tracker.dpms_on && self.deadline is None
    }

    /// What reconciling at `now` makes of the engine, and what it asks for: nothing
    /// while it is paused by hand.
    pub open spec fn reconciled(self, now: u64) -> (PolicyModel, PolicyAction) {
        if self.manual_paused {
            (self, PolicyAction::Nothing)
        } else if self.tracker.all_occluded() {
            if self.state == PolicyState::Suspended {
                (PolicyModel { deadline: None, ..self }, PolicyAction::Nothing)
            } else if self.tracker.locked || !self.tracker.dpms_on {
                (
                    PolicyModel { deadline: None, state: PolicyState::Suspended, ..self },
                    PolicyAction::Pause,
                )
            } else if self.deadline is None {
                (
                    PolicyModel { deadline: Some(now + self.delay), ..self },
                    PolicyAction::Nothing,
                )
            } else {
                (self, PolicyAction::Nothing)
            }
        } else {
            (
                PolicyModel { deadline: None, state: PolicyState::Active, ..self },
                if self.state == PolicyState::Suspended {
                    PolicyAction::Resume
                } else {
                    PolicyAction::Nothing
                },
            )
        }
    }

    /// The engine with another view of the outputs.
    pub open spec fn seeing(self, tracker: TrackerModel) -> PolicyModel {
        PolicyModel { tracker, ..self }
    }

    /// What an event at `now` makes of the engine, and what it asks for.
    pub open spec fn after_event(self, event: EventModel, now: u64) -> (PolicyModel, PolicyAction) {
        self.seeing(self.tracker.after(event)).reconciled(now)
    }

    /// Whether the delay is over at `now`.
    pub open spec fn is_due(self, now: u64) -> bool {
        self.deadline matches Some(d) && now >= d
    }

    /// What the clock at `now` makes of the engine, and what it asks for.
    pub open spec fn ticked(self, now: u64) -> (PolicyModel, PolicyAction) {
        if self.manual_paused || !self.is_due(now) {
            (self, PolicyAction::Nothing)
        } else if self.tracker.all_occluded() && self.state == PolicyState::Active {
            (
                PolicyModel { deadline: None, state: PolicyState::Suspended, ..self },
                PolicyAction::Pause,
            )
        } else {
            (PolicyModel { deadline: None, ..self }, PolicyAction::Nothing)
        }
    }

    /// What pausing or resuming by hand makes of the engine, and what it asks for.
    pub open spec fn by_hand(self, paused: bool) -> (PolicyModel, PolicyAction) {
        let m = PolicyModel { manual_paused: paused, deadline: None, ..self };
        if paused {
            (
                PolicyModel { state: PolicyState::Suspended, ..m },
                if self.state == PolicyState::Suspended {
                    PolicyAction::Nothing
                } else {
                    PolicyAction::Pause
                },
            )
        } else if self.tracker.all_occluded() {
            (m, PolicyAction::Nothing)
        } else {
            (PolicyModel { state: PolicyState::Active, ..m }, PolicyAction::Resume)
        }
    }
}

impl PolicyEngine {
    /// Create a new policy engine with the default 1.5s hysteresis delay.
    pub fn new() -> (r: Self)
        ensures
            r@ == fresh(1_500_000_000),
    {
        Self::with_delay(1_500_000_000)
    }

    /// Create a policy engine with a custom hysteresis delay.
    pub fn with_delay(suspend_delay: u64) -> (r: Self)
        ensures
            r@ == fresh(suspend_delay),
    {
        PolicyEngine {
            state: PolicyState::Active,
            tracker: OcclusionTracker::new(),
            manual_paused: false,
            pending_since: None,
            suspend_delay,
        }
    }

    /// Set manual pause mode (from CLI `hyprwpe pause` / `resume`).
    ///
    /// When manual pause is active, renderers stay suspended regardless of
    /// compositor events until manually resumed.
    pub fn set_manual_pause(&mut self, paused: bool) -> (action: PolicyAction)
        ensures
            (final(self)@, action) == old(self)@.by_hand(paused),
    {
        self.manual_paused = paused;
        self.pending_since = None;
        if paused {
            if self.state != PolicyState::Suspended {
                self.state = PolicyState::Suspended;
                PolicyAction::Pause
            } else {
                PolicyAction::Nothing
            }
        } else if self.tracker.is_all_occluded() {
            // Unpausing while still occluded: remain suspended automatically.
            PolicyAction::Nothing
        } else {
            self.state = PolicyState::Active;
            PolicyAction::Resume
        }
    }

    /// Synchronize initial monitor and window state with what Hyprland reports.
    pub fn sync_from_hyprland(
        &mut self,
        monitors: &Option<Vec<MonitorReport>>,
        clients: &Option<Vec<ClientReport>>,
        now: u64,
    )
        ensures
            final(self)@ == old(self)@.seeing(
                crate::hyprland::after_sync(old(self)@.tracker, *monitors, *clients),
            ).reconciled(now).0,
    {
        self.tracker.sync_from_hyprland(monitors, clients);
        let _action = self.reconcile(now);
    }

    /// Handle a Hyprland event at a point in time, and return any action to take
    /// immediately.
    pub fn handle_event_at(&mut self, event: &HyprEvent, now: u64) -> (action: PolicyAction)
        ensures
            (final(self)@, action) == old(self)@.after_event(event@, now),
    {
        self.tracker.handle_event(event);
        self.reconcile(now)
    }

    /// Reconcile current occlusion state against lifecycle state.
    pub fn reconcile(&mut self, now: u64) -> (action: PolicyAction)
        ensures
            (final(self)@, action) == old(self)@.reconciled(now),
    {
        // A manual pause holds until it is lifted by hand.
        if self.manual_paused {
            return PolicyAction::Nothing;
        }
        let occluded = self.tracker.is_all_occluded();
        if occluded {
            match self.state {
                PolicyState::Active => {
                    // Lockscreen or screens powered down: suspend immediately.
                    if self.tracker.is_locked() || self.tracker.is_dpms_off() {
                        self.pending_since = None;
                        self.state = PolicyState::Suspended;
                        PolicyAction::Pause
                    } else {
                        if self.pending_since.is_none() {
                            self.pending_since = Some(now);
                        }
                        PolicyAction::Nothing
                    }
                },
                PolicyState::Suspended => {
                    self.pending_since = None;
                    PolicyAction::Nothing
                },
            }
        } else {
            // At least one output is visible!
            self.pending_since = None;
            if self.state == PolicyState::Suspended {
                self.state = PolicyState::Active;
                PolicyAction::Resume
            } else {
                PolicyAction::Nothing
            }
        }
    }

    /// Advance the timer to a point in time and fire any expired hysteretic
    /// transitions.
    pub fn tick_at(&mut self, now: u64) -> (action: PolicyAction)
        ensures
            (final(self)@, action) == old(self)@.ticked(now),
    {
        if self.manual_paused {
            return PolicyAction::Nothing;
        }
        if let Some(since) = self.pending_since {
            if now >= since && now - since >= self.suspend_delay {
                self.pending_since = None;
                if self.tracker.is_all_occluded() && self.state == PolicyState::Active {
                    self.state = PolicyState::Suspended;
                    return PolicyAction::Pause;
                }
            }
        }
        PolicyAction::Nothing
    }

    /// How long until the next hysteretic transition, if one is pending; the longest
    /// span there is where it takes longer.
    pub fn pending_timeout_at(&self, now: u64) -> (r: Option<u64>)
        ensures
            match self@.deadline {
                Some(deadline) => r == Some(
                    if now >= deadline {
                        0u64
                    } else if deadline - now <= u64::MAX {
                        (deadline - now) as u64
                    } else {
                        u64::MAX
                    },
                ),
                None => r is None,
            },
    {
        match self.pending_since {
            Some(since) => Some(
                if now < since {
                    self.suspend_delay.saturating_add(since - now)
                } else if now - since >= self.suspend_delay {
                    0
                } else {
                    self.suspend_delay - (now - since)
                },
            ),
            None => None,
        }
    }

    /// Whether rendering is currently suspended.
    pub fn is_paused(&self) -> (r: bool)
        ensures
            r == (self@.state == PolicyState::Suspended),
    {
        self.state == PolicyState::Suspended
    }

    /// Whether manual pause mode is active.
    pub fn is_manual_paused(&self) -> (r: bool)
        ensures
            r == self@.manual_paused,
    {
        self.manual_paused
    }

    /// Current lifecycle state.
    pub fn state(&self) -> (r: PolicyState)
        ensures
            r == self@.state,
    {
        self.state
    }

    /// Occlusion tracker access.
    pub fn tracker(&self) -> (r: &OcclusionTracker)
        ensures
            r@ == self@.tracker,
    {
        &self.tracker
    }
}

impl Default for PolicyEngine {
    fn default() -> (r: Self)
        ensures
            r@ == fresh(1_500_000_000),
    {
        Self::new()
    }
}

/// While paused by hand the renderers stay suspended, whatever the compositor says
/// or reports and however much time passes.
pub proof fn law_manual_pause_overrides(
    m: PolicyModel,
    event: EventModel,
    report: TrackerModel,
    now: u64,
)
    requires
        m.manual_paused,
        m.state == PolicyState::Suspended,
    ensures
        m.reconciled(now) == (m, PolicyAction::Nothing),
        m.seeing(report).reconciled(now) == (m.seeing(report), PolicyAction::Nothing),
        m.after_event(event, now).1 == PolicyAction::Nothing,
        m.after_event(event, now).0.state == PolicyState::Suspended,
        m.after_event(event, now).0.manual_paused,
        m.ticked(now) == (m, PolicyAction::Nothing),
{
}

/// Pausing by hand suspends at once, and resuming by hand activates at once where
/// a wallpaper can be seen.
pub proof fn law_manual_pause_and_resume(m: PolicyModel)
    ensures
        m.by_hand(true).0.state == PolicyState::Suspended,
        m.by_hand(true).0.manual_paused,
        !m.tracker.all_occluded() ==> m.by_hand(true).0.by_hand(false) == (
            PolicyModel {
                state: PolicyState::Active,
                manual_paused: false,
                deadline: None,
                ..m
            },
            PolicyAction::Resume,
        ),
{
}

/// A desktop that can be seen again is active at once, and no suspension is
/// pending behind it.
pub proof fn law_visible_resumes_at_once(m: PolicyModel, event: EventModel, now: u64)
    requires
        !m.manual_paused,
        !m.tracker.after(event).all_occluded(),
    ensures
        m.after_event(event, now).0.state == PolicyState::Active,
        m.after_event(event, now).0.deadline is None,
        m.after_event(event, now).1 == (if m.state == PolicyState::Suspended {
            PolicyAction::Resume
        } else {
            PolicyAction::Nothing
        }),
{
}

/// A locked session and sleeping displays suspend at once.
pub proof fn law_lock_and_sleep_suspend_at_once(m: PolicyModel, now: u64)
    requires
        !m.manual_paused,
    ensures
        m.after_event(EventModel::Lock(true), now).0.state == PolicyState::Suspended,
        m.after_event(EventModel::Dpms(false), now).0.state == PolicyState::Suspended,
        m.state == PolicyState::Active ==> m.after_event(EventModel::Lock(true), now).1
            == PolicyAction::Pause && m.after_event(EventModel::Dpms(false), now).1
            == PolicyAction::Pause,
{
}

/// Covering windows suspend only once the delay has passed: not at the event, not
/// before the deadline, and at the deadline.
pub proof fn law_suspension_waits_for_the_delay(
    m: PolicyModel,
    event: EventModel,
    now: u64,
    later: u64,
)
    requires
        !m.manual_paused,
        m.state == PolicyState::Active,
        m.seeing(m.tracker.after(event)).starts_delay(),
    ensures
        m.after_event(event, now).1 == PolicyAction::Nothing,
        m.after_event(event, now).0.state == PolicyState::Active,
        later < now + m.delay ==> m.after_event(event, now).0.ticked(later) == (
            m.after_event(event, now).0,
            PolicyAction::Nothing,
        ),
        later >= now + m.delay ==> m.after_event(event, now).0.ticked(later).1
            == PolicyAction::Pause && m.after_event(event, now).0.ticked(later).0.state
            == PolicyState::Suspended,
{
}

/// A quick switch away from a covered desktop and its delay leave nothing behind:
/// no later tick suspends.
pub proof fn law_quick_switch_does_not_suspend(
    m: PolicyModel,
    away: EventModel,
    now: u64,
    later: u64,
)
    requires
        !m.manual_paused,
        m.state == PolicyState::Active,
        !m.tracker.after(away).all_occluded(),
    ensures
        m.after_event(away, now).0.ticked(later) == (
            m.after_event(away, now).0,
            PolicyAction::Nothing,
        ),
        m.after_event(away, now).0.state == PolicyState::Active,
{
}

/// Whether a suspension is pending only while the renderers are active and not
/// paused by hand.
pub open spec fn pending_only_while_active(m: PolicyModel) -> bool {
    m.deadline is Some ==> m.state == PolicyState::Active && !m.manual_paused
}

/// A suspension is pending only while the renderers are active and not paused by
/// hand: so it is at the start, and every operation keeps it.
pub proof fn law_pending_only_while_active(
    m: PolicyModel,
    delay: u64,
    event: EventModel,
    now: u64,
    paused: bool,
)
    requires
        pending_only_while_active(m),
    ensures
        pending_only_while_active(fresh(delay)),
        pending_only_while_active(m.after_event(event, now).0),
        pending_only_while_active(m.ticked(now).0),
        pending_only_while_active(m.by_hand(paused).0),
{
}

/// An action is asked for exactly where the state changes: a pause where it
/// becomes suspended, a resume where it becomes active. While paused by hand it never
/// changes, and an event suspends at once only where the session is then locked or the
/// displays are off.
pub proof fn law_actions_follow_the_state(m: PolicyModel, event: EventModel, now: u64)
    ensures
        (m.after_event(event, now).1 == PolicyAction::Pause) <==> (m.state == PolicyState::Active
            && m.after_event(event, now).0.state == PolicyState::Suspended),
        (m.after_event(event, now).1 == PolicyAction::Resume) <==> (m.state
            == PolicyState::Suspended && m.after_event(event, now).0.state == PolicyState::Active),
        (m.after_event(event, now).1 == PolicyAction::Nothing) <==> m.after_event(
            event,
            now,
        ).0.state == m.state,
        m.manual_paused ==> m.after_event(event, now).0.state == m.state,
        m.state == PolicyState::Active && m.after_event(event, now).0.state
            == PolicyState::Suspended ==> m.tracker.after(event).locked || !m.tracker.after(
            event,
        ).dpms_on,
        (m.ticked(now).1 == PolicyAction::Pause) <==> (m.state == PolicyState::Active
            && m.ticked(now).0.state == PolicyState::Suspended),
        m.ticked(now).1 != PolicyAction::Resume,
{
}

/// Something that the policy engine is told.
pub ghost enum Step {
    /// An event at a time.
    Event(EventModel, u64),
    /// The clock at a time.
    Tick(u64),
    /// A pause or a resume by hand.
    ByHand(bool),
}

/// Whether renderers stand still once an action is passed on to them.
pub open spec fn still_after(still: bool, action: PolicyAction) -> bool {
    match action {
        PolicyAction::Nothing => still,
        PolicyAction::Pause => true,
        PolicyAction::Resume => false,
    }
}

/// What a step makes of the engine, and what it asks for.
pub open spec fn stepped(m: PolicyModel, step: Step) -> (PolicyModel, PolicyAction) {
    match step {
        Step::Event(event, now) => m.after_event(event, now),
        Step::Tick(now) => m.ticked(now),
        Step::ByHand(paused) => m.by_hand(paused),
    }
}

/// What the first `n` steps make of the engine and of the renderers that its actions
/// are passed on to.
pub open spec fn session(m: PolicyModel, still: bool, steps: Seq<Step>, n: int) -> (
    PolicyModel,
    bool,
)
    decreases n,
{
    if n <= 0 {
        (m, still)
    } else {
        let (before, was) = session(m, still, steps, n - 1);
        let (after, action) = stepped(before, steps[n - 1]);
        (after, still_after(was, action))
    }
}

/// Renderers that every action is passed on to stand still exactly while the engine is
/// suspended, whatever happens.
pub proof fn law_renderers_follow_the_policy(
    m: PolicyModel,
    still: bool,
    steps: Seq<Step>,
    n: int,
)
    requires
        0 <= n <= steps.len(),
        still == (m.state == PolicyState::Suspended),
    ensures
        session(m, still, steps, n).1 == (session(m, still, steps, n).0.state
            == PolicyState::Suspended),
    decreases n,
{
    if n > 0 {
        law_renderers_follow_the_policy(m, still, steps, n - 1);
        let (before, was) = session(m, still, steps, n - 1);
        match steps[n - 1] {
            Step::Event(event, now) => {
                law_actions_follow_the_state(before, event, now);
            },
            _ => {},
        }
    }
}

/// What is left of the delay, and the time now, make the time at which it is over; nothing
/// is left once that has come, and where no suspension is pending there is no delay.
pub proof fn law_the_timeout_is_what_is_left(p: PolicyEngine, now: u64, r: Option<u64>)
    requires
        call_ensures(PolicyEngine::pending_timeout_at, (&p, now), r),
    ensures
        r is None == p@.deadline is None,
        r matches Some(left) ==> {
            &&& p@.is_due(now) == (left == 0)
            &&& 0 < left < u64::MAX ==> now + left == p@.deadline->Some_0
        },
{
}

/// An engine starts with nothing paused and nothing pending, and with a delay of a second
/// and a half where none is given: that of the default configuration.
pub proof fn law_an_engine_starts_active(
    delay: u64,
    p: PolicyEngine,
    q: PolicyEngine,
    g: crate::settings::General,
    d: u128,
)
    requires
        call_ensures(PolicyEngine::with_delay, (delay,), p),
        call_ensures(PolicyEngine::new, (), q),
        call_ensures(<crate::settings::General as Default>::default, (), g),
        call_ensures(crate::settings::General::suspend_delay, (&g,), d),
    ensures
        p@.state == PolicyState::Active && q@.state == PolicyState::Active,
        !p@.manual_paused && !q@.manual_paused,
        p@.deadline is None && q@.deadline is None,
        p@.delay == delay,
        q@.delay == d,
        !p@.tracker.all_occluded(),
{
}

/// A suspension that becomes pending is due when its delay is over, and it is not put off
/// by what happens in between.
pub proof fn law_a_pending_suspension_keeps_its_time(
    m: PolicyModel,
    report: TrackerModel,
    now: u64,
    later: u64,
)
    requires
        m.starts_delay(),
        report.all_occluded(),
        !report.locked,
        report.dpms_on,
    ensures
        m.reconciled(now).0.deadline == Some(now + m.delay),
        m.reconciled(now).0.seeing(report).reconciled(later).0.deadline == Some(now + m.delay),
        now + m.delay <= later ==> m.reconciled(now).0.ticked(later).1 == PolicyAction::Pause,
        later < now + m.delay ==> m.reconciled(now).0.ticked(later) == (
            m.reconciled(now).0,
            PolicyAction::Nothing,
        ),
{
}

} // verus!

//! The reconcile worker's debouncing: webhook deliveries ("kicks") come
//! in bursts, one per item change, and are coalesced into one reconcile
//! pass. A kick while idle opens a short window; kicks during the window
//! are absorbed; when the window closes, one reconcile runs.

use vstd::prelude::*;

verus! {

/// What happened to the worker.
#[derive(Debug, Clone, Copy, PartialEq, Eq, Structural)]
pub enum KickEvent {
    /// A webhook delivery asked for a reconcile.
    Kick,
    /// The coalescing window has elapsed.
    WindowClosed,
}

/// What the worker does next.
#[derive(Debug, Clone, Copy, PartialEq, Eq, Structural)]
pub enum KickAction {
    /// Start the coalescing window (wait it out, then report `WindowClosed`).
    StartWindow,
    /// Nothing to do.
    Wait,
    /// Run one reconcile pass.
    Reconcile,
}

/// The worker's step: from whether the window is open and an event, to
/// whether it is open afterwards and the action to perform.
pub open spec fn kick_step(window_open: bool, e: KickEvent) -> (bool, KickAction) {
    match e {
        KickEvent::Kick => if window_open {
            (true, KickAction::Wait)
        } else {
            (true, KickAction::StartWindow)
        },
        KickEvent::WindowClosed => if window_open {
            (false, KickAction::Reconcile)
        } else {
            (false, KickAction::Wait)
        },
    }
}

/// A kick when idle opens the window; a kick while it is open waits; the
/// window closing reconciles once and leaves the worker idle.
pub fn on_kick_event(window_open: bool, e: KickEvent) -> (r: (bool, KickAction))
    ensures
        r == kick_step(window_open, e),
{
    match e {
        KickEvent::Kick => if window_open {
            (true, KickAction::Wait)
        } else {
            (true, KickAction::StartWindow)
        },
        KickEvent::WindowClosed => if window_open {
            (false, KickAction::Reconcile)
        } else {
            (false, KickAction::Wait)
        },
    }
}

/// The state and the actions after a sequence of events.
pub open spec fn run_events(window_open: bool, es: Seq<KickEvent>) -> (bool, Seq<KickAction>)
    decreases es.len(),
{
    if es.len() == 0 {
        (window_open, Seq::<KickAction>::empty())
    } else {
        let (o, acts) = run_events(window_open, es.drop_last());
        let (o2, a) = kick_step(o, es.last());
        (o2, acts.push(a))
    }
}

/// How many of the actions are reconcile passes.
pub open spec fn reconciles(acts: Seq<KickAction>) -> nat
    decreases acts.len(),
{
    if acts.len() == 0 {
        0
    } else {
        reconciles(acts.drop_last()) + if acts.last() == KickAction::Reconcile {
            1nat
        } else {
            0nat
        }
    }
}

/// `n` kicks in a row.
pub open spec fn kicks(n: nat) -> Seq<KickEvent> {
    Seq::new(n, |i: int| KickEvent::Kick)
}

proof fn lemma_kicks_while_open(n: nat)
    ensures
        run_events(true, kicks(n)).0,
        reconciles(run_events(true, kicks(n)).1) == 0,
        run_events(true, kicks(n)).1.len() == n,
    decreases n,
{
    if n > 0 {
        assert(kicks(n).drop_last() =~= kicks((n - 1) as nat));
        lemma_kicks_while_open((n - 1) as nat);
        let acts = run_events(true, kicks(n)).1;
        assert(kicks(n).last() == KickEvent::Kick);
        assert(acts.last() == KickAction::Wait);
        assert(acts.drop_last() =~= run_events(true, kicks((n - 1) as nat)).1);
    }
}

proof fn lemma_run_append(o: bool, a: Seq<KickEvent>, e: KickEvent)
    ensures
        run_events(o, a.push(e)) == ({
            let (o1, acts) = run_events(o, a);
            let (o2, x) = kick_step(o1, e);
            (o2, acts.push(x))
        }),
{
    assert(a.push(e).drop_last() =~= a);
}

proof fn lemma_run_concat(o: bool, a: Seq<KickEvent>, b: Seq<KickEvent>)
    ensures
        run_events(o, a + b).0 == run_events(run_events(o, a).0, b).0,
        run_events(o, a + b).1 == run_events(o, a).1 + run_events(run_events(o, a).0, b).1,
    decreases b.len(),
{
    if b.len() == 0 {
        assert(a + b =~= a);
        assert(run_events(o, a).1 + Seq::<KickAction>::empty() =~= run_events(o, a).1);
    } else {
        assert((a + b).drop_last() =~= a + b.drop_last());
        lemma_run_concat(o, a, b.drop_last());
        let o1 = run_events(o, a).0;
        assert(run_events(o, a + b).1 =~= run_events(o, a).1 + run_events(o1, b).1);
    }
}

proof fn lemma_reconciles_concat(a: Seq<KickAction>, b: Seq<KickAction>)
    ensures
        reconciles(a + b) == reconciles(a) + reconciles(b),
    decreases b.len(),
{
    if b.len() == 0 {
        assert(a + b =~= a);
    } else {
        assert((a + b).drop_last() =~= a + b.drop_last());
        lemma_reconciles_concat(a, b.drop_last());
    }
}

/// A burst coalesces: starting idle, a kick, any number of further kicks
/// during the window, and the window closing give exactly one reconcile
/// pass, as the last action, and leave the worker idle.
pub proof fn law_burst_reconciles_once(n: nat)
    ensures
        ({
            let (o, acts) = run_events(false, seq![KickEvent::Kick] + kicks(n) + seq![KickEvent::WindowClosed]);
            &&& !o
            &&& reconciles(acts) == 1
            &&& acts.last() == KickAction::Reconcile
            &&& acts.len() == n + 2
        }),
{
    let first = seq![KickEvent::Kick];
    assert(first =~= Seq::<KickEvent>::empty().push(KickEvent::Kick));
    lemma_run_append(false, Seq::<KickEvent>::empty(), KickEvent::Kick);
    assert(run_events(false, first).0);
    assert(run_events(false, first).1 =~= seq![KickAction::StartWindow]);
    lemma_kicks_while_open(n);
    lemma_run_concat(false, first, kicks(n));
    let mid = first + kicks(n);
    assert(run_events(false, mid).0);
    assert(mid + seq![KickEvent::WindowClosed] =~= mid.push(KickEvent::WindowClosed));
    lemma_run_append(false, mid, KickEvent::WindowClosed);
    let acts1 = run_events(false, mid).1;
    reveal_with_fuel(reconciles, 2);
    lemma_reconciles_concat(seq![KickAction::StartWindow], run_events(true, kicks(n)).1);
    assert(reconciles(seq![KickAction::StartWindow]) == 0) by {
        assert(seq![KickAction::StartWindow].drop_last() =~= Seq::<KickAction>::empty());
    }
    let all = acts1.push(KickAction::Reconcile);
    assert(all.drop_last() =~= acts1);
}

} // verus!

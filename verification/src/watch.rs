//! When a change of the layout file makes the overlay read it again.

use vstd::prelude::*;

verus! {

/// How long after a change others are ignored, in nanoseconds. Editors save a file in several
/// steps.
pub const QUIET: u128 = 500_000_000;

/// How much time has passed at `now` since `then`; none if `then` is yet to come.
pub open spec fn elapsed(then: u128, now: u128) -> nat {
    if now >= then {
        (now - then) as nat
    } else {
        0
    }
}

/// Lets one change through at a time.
#[derive(Debug, Clone, Copy, PartialEq, Eq, Structural)]
pub struct ReloadGate {
    /// When the last change came that was not ignored, in nanoseconds on a clock that does not
    /// run backwards.
    pub last_change: u128,
}

impl ReloadGate {
    /// A gate that was last passed at `now`.
    pub fn new(now: u128) -> (r: ReloadGate)
        ensures
            r.last_change == now,
    {
        ReloadGate { last_change: now }
    }

    /// What a change at `now` leaves behind.
    pub open spec fn after(self, now: u128) -> ReloadGate {
        if elapsed(self.last_change, now) < QUIET {
            self
        } else {
            ReloadGate { last_change: now }
        }
    }

    /// Whether to read the layout again for a change at `now`: not too soon after another
    /// change, and only if the changed file is the layout. A change of another file counts as
    /// one all the same.
    pub open spec fn passes(self, now: u128, is_layout: bool) -> bool {
        elapsed(self.last_change, now) >= QUIET && is_layout
    }

    /// Takes note of a change at `now` and says whether to read the layout again.
    pub fn pass(&mut self, now: u128, is_layout: bool) -> (r: bool)
        ensures
            r == old(self).passes(now, is_layout),
            *final(self) == old(self).after(now),
    {
        let passed: u128 = if now >= self.last_change {
            now - self.last_change
        } else {
            0
        };
        if passed < QUIET {
            return false;
        }
        self.last_change = now;
        is_layout
    }
}

/// What the first `n` of `changes` leave behind, each a time and whether it was the layout.
pub open spec fn gate_after(gate: ReloadGate, changes: Seq<(u128, bool)>, n: nat) -> ReloadGate
    decreases n,
{
    if n == 0 {
        gate
    } else {
        gate_after(gate, changes, (n - 1) as nat).after(changes[n - 1].0)
    }
}

/// Whether the layout is read again for change `i`.
pub open spec fn reloads(gate: ReloadGate, changes: Seq<(u128, bool)>, i: int) -> bool {
    gate_after(gate, changes, i as nat).passes(changes[i].0, changes[i].1)
}

proof fn lemma_gate_grows(gate: ReloadGate, changes: Seq<(u128, bool)>, i: nat, n: nat)
    requires
        i <= n,
    ensures
        gate_after(gate, changes, i).last_change <= gate_after(gate, changes, n).last_change,
    decreases n,
{
    if i < n {
        lemma_gate_grows(gate, changes, i, (n - 1) as nat);
    }
}

/// Two readings of the layout are half a second apart, and so is the first one from the start.
pub proof fn lemma_reloads_apart(gate: ReloadGate, changes: Seq<(u128, bool)>, i: int, j: int)
    requires
        0 <= i < j < changes.len(),
        reloads(gate, changes, i),
        reloads(gate, changes, j),
    ensures
        changes[j].0 >= changes[i].0 + QUIET,
        changes[i].0 >= gate.last_change + QUIET,
{
    lemma_gate_grows(gate, changes, 0, i as nat);
    lemma_gate_grows(gate, changes, (i + 1) as nat, j as nat);
}

/// Any change counts that comes half a second after the last one that did, whatever file it is of;
/// those that come sooner do not. The layout is read again exactly for the changes of the layout that
/// count.
pub proof fn lemma_change_counts(gate: ReloadGate, now: u128, is_layout: bool)
    ensures
        gate.passes(now, is_layout) <==> is_layout && now - gate.last_change >= 500_000_000,
        gate.after(now).last_change == (if now - gate.last_change >= 500_000_000 {
            now
        } else {
            gate.last_change
        }),
{
}

/// A change of the layout that comes half a second or more after any other makes the overlay read it
/// again.
pub proof fn lemma_late_change(gate: ReloadGate, changes: Seq<(u128, bool)>, i: int)
    requires
        0 <= i < changes.len(),
        changes[i].1,
        changes[i].0 >= gate.last_change + 500_000_000,
        forall|k: int| 0 <= k < i ==> changes[i].0 >= (#[trigger] changes[k]).0 + 500_000_000,
    ensures
        reloads(gate, changes, i),
{
    lemma_last_counted(gate, changes, i as nat);
}

proof fn lemma_last_counted(gate: ReloadGate, changes: Seq<(u128, bool)>, n: nat)
    requires
        n <= changes.len(),
    ensures
        gate_after(gate, changes, n) == gate || exists|k: int|
            0 <= k < n && gate_after(gate, changes, n).last_change == (#[trigger] changes[k]).0,
    decreases n,
{
    if n > 0 {
        lemma_last_counted(gate, changes, (n - 1) as nat);
        let before = gate_after(gate, changes, (n - 1) as nat);
        if gate_after(gate, changes, n) == before {
            if before != gate {
                let k = choose|k: int|
                    0 <= k < n - 1 && before.last_change == (#[trigger] changes[k]).0;
                assert(gate_after(gate, changes, n).last_change == changes[k].0);
            }
        } else {
            assert(gate_after(gate, changes, n).last_change == changes[n - 1].0);
        }
    }
}

} // verus!

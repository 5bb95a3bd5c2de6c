//! What the liveness checker finds over a whole watch: a group is reported exactly where
//! it has been favorable without a break, and without having converged, for longer than
//! is allowed.

use super::liveness::{self, GroupWindow, SnapshotView, WindowMap};
use super::Violation;
use crate::cluster::SimulatedCluster;
use crate::model::{self, GroupView};
use crate::scheduler::{VirtualDuration, VirtualInstant};
use vstd::prelude::*;

verus! {

/// What happens to the liveness checker.
pub enum Look {
    /// It sees a snapshot of each group that is there, at an instant.
    Seen { snaps: Map<GroupView, SnapshotView>, at: VirtualInstant },
    /// It is told of a fault that strikes or is healed.
    Told,
}

/// What is seen of the groups of `cluster` at `now`.
pub open spec fn look_at<M>(cluster: SimulatedCluster<M>, now: VirtualInstant) -> Look {
    Look::Seen {
        snaps: Map::new(
            |g: GroupView| liveness::present(cluster.nodes@, g),
            |g: GroupView| liveness::snapshot_of(cluster, g),
        ),
        at: now,
    }
}

/// `after` is what is known of the groups once `look` happened.
pub open spec fn looked(before: WindowMap, after: WindowMap, look: Look) -> bool {
    match look {
        Look::Seen { snaps, at } => {
            &&& forall|g: GroupView| #[trigger]
                after.contains_key(g) == (before.contains_key(g) || snaps.contains_key(g))
            &&& forall|g: GroupView| #[trigger]
                after.contains_key(g) ==> after[g] == if snaps.contains_key(g) {
                    liveness::window_of(before, g).after(snaps[g], at)
                } else {
                    GroupWindow::closed()
                }
        },
        Look::Told => liveness::all_closed(before, after),
    }
}

/// `windows` is what is known of the groups from the start on, look by look.
pub open spec fn is_watch(windows: Seq<WindowMap>, looks: Seq<Look>) -> bool {
    &&& windows.len() == looks.len() + 1
    &&& windows[0] == WindowMap::empty()
    &&& forall|i: int|
        0 <= i < looks.len() ==> looked(windows[i], windows[i + 1], #[trigger] looks[i])
}

/// Whether `g` is seen favorable in the `i`-th look.
pub open spec fn favorable_in(looks: Seq<Look>, i: int, g: GroupView) -> bool {
    looks[i] matches Look::Seen { snaps, at } && snaps.contains_key(g) && snaps[g].is_favorable()
}

/// Whether `g` is seen converged in the `i`-th look.
pub open spec fn converged_in(looks: Seq<Look>, i: int, g: GroupView) -> bool {
    looks[i] matches Look::Seen { snaps, at } && snaps[g].progress_made().converged
}

/// Whether `g` is seen with a leader in the `i`-th look.
pub open spec fn led_in(looks: Seq<Look>, i: int, g: GroupView) -> bool {
    looks[i] matches Look::Seen { snaps, at } && snaps[g].progress_made().leader_elected
}

/// Whether the first `n` looks end in a run of looks that see `g` favorable, which begins
/// with the `s`-th.
pub open spec fn runs_from(looks: Seq<Look>, n: int, s: int, g: GroupView) -> bool {
    &&& 0 <= s < n
    &&& forall|i: int| s <= i < n ==> #[trigger] favorable_in(looks, i, g)
    &&& s > 0 ==> !favorable_in(looks, s - 1, g)
}

/// Whether `g` is seen converged in one of the looks from the `s`-th to before the
/// `n`-th.
pub open spec fn converged_since(looks: Seq<Look>, n: int, s: int, g: GroupView) -> bool {
    exists|i: int| s <= i < n && #[trigger] converged_in(looks, i, g)
}

/// Whether `g` is seen with a leader in one of the looks from the `s`-th to before the
/// `n`-th.
pub open spec fn led_since(looks: Seq<Look>, n: int, s: int, g: GroupView) -> bool {
    exists|i: int| s <= i < n && #[trigger] led_in(looks, i, g)
}

/// Whether the looks end in a run that sees `g` favorable and never converged, and that
/// began longer ago than `allowance`, with the `s`-th look.
pub open spec fn stuck(
    looks: Seq<Look>,
    s: int,
    g: GroupView,
    allowance: VirtualDuration,
    now: VirtualInstant,
) -> bool {
    &&& runs_from(looks, looks.len() as int, s, g)
    &&& !converged_since(looks, looks.len() as int, s, g)
    &&& now.0 - looks[s]->Seen_at.0 > allowance.0
}

/// What is known of a group is known of the run of favorable looks that the watch ends
/// in.
proof fn lemma_window(windows: Seq<WindowMap>, looks: Seq<Look>, n: nat, g: GroupView)
    requires
        is_watch(windows, looks),
        n <= looks.len(),
    ensures
        ({
            let w = liveness::window_of(windows[n as int], g);
            &&& w.since is Some == (n > 0 && favorable_in(looks, n - 1, g))
            &&& w.since is None ==> w == GroupWindow::closed()
            &&& forall|s: int| #[trigger]
                runs_from(looks, n as int, s, g) ==> w == (GroupWindow {
                    since: Some(looks[s]->Seen_at),
                    leader_elected: led_since(looks, n as int, s, g),
                    satisfied: converged_since(looks, n as int, s, g),
                })
        }),
    decreases n,
{
    let w = liveness::window_of(windows[n as int], g);
    if n > 0 {
        let l = n - 1;
        lemma_window(windows, looks, l as nat, g);
        let before = liveness::window_of(windows[l], g);
        assert(looked(windows[l], windows[l + 1], looks[l]));
        assert(windows[l + 1].contains_key(g) || !windows[l + 1].contains_key(g));
        if favorable_in(looks, l, g) {
            let snaps = looks[l]->Seen_snaps;
            assert(windows[n as int].contains_key(g));
            assert(w == before.after(snaps[g], looks[l]->Seen_at));
            assert forall|s: int| #[trigger] runs_from(looks, n as int, s, g) implies w == (
            GroupWindow {
                since: Some(looks[s]->Seen_at),
                leader_elected: led_since(looks, n as int, s, g),
                satisfied: converged_since(looks, n as int, s, g),
            }) by {
                lemma_since_step(looks, l, s, g);
                if s < l {
                    assert(runs_from(looks, l, s, g)) by {
                        assert forall|i: int| s <= i < l implies #[trigger] favorable_in(
                            looks,
                            i,
                            g,
                        ) by {}
                    }
                    assert(favorable_in(looks, l - 1, g));
                }
            }
        } else {
            assert(w == GroupWindow::closed());
            assert forall|s: int| !(#[trigger] runs_from(looks, n as int, s, g)) by {
                if runs_from(looks, n as int, s, g) {
                    assert(favorable_in(looks, l, g));
                }
            }
        }
    }
}

/// One look more.
proof fn lemma_since_step(looks: Seq<Look>, l: int, s: int, g: GroupView)
    requires
        s <= l,
    ensures
        converged_since(looks, l + 1, s, g) == (converged_since(looks, l, s, g) || converged_in(
            looks,
            l,
            g,
        )),
        led_since(looks, l + 1, s, g) == (led_since(looks, l, s, g) || led_in(looks, l, g)),
{
    if converged_since(looks, l, s, g) {
        let i = choose|i: int| s <= i < l && #[trigger] converged_in(looks, i, g);
        assert(s <= i < l + 1 && converged_in(looks, i, g));
    }
    if led_since(looks, l, s, g) {
        let i = choose|i: int| s <= i < l && #[trigger] led_in(looks, i, g);
        assert(s <= i < l + 1 && led_in(looks, i, g));
    }
}

/// Where the last look sees a group favorable, it ends a run of such looks.
proof fn lemma_run_exists(looks: Seq<Look>, n: int, g: GroupView) -> (s: int)
    requires
        0 < n <= looks.len(),
        favorable_in(looks, n - 1, g),
    ensures
        runs_from(looks, n, s, g),
    decreases n,
{
    if n > 1 && favorable_in(looks, n - 2, g) {
        let s = lemma_run_exists(looks, n - 1, g);
        assert forall|i: int| s <= i < n implies #[trigger] favorable_in(looks, i, g) by {
            if i == n - 1 {
            } else {
                assert(s <= i < n - 1);
            }
        }
        s
    } else {
        n - 1
    }
}

proof fn lemma_overdue(
    windows: Seq<WindowMap>,
    looks: Seq<Look>,
    g: GroupView,
    allowance: VirtualDuration,
    now: VirtualInstant,
)
    requires
        is_watch(windows, looks),
    ensures
        (windows.last().contains_key(g) && windows.last()[g].overdue(now, allowance)) == exists|
            s: int,
        |
            #[trigger] stuck(looks, s, g, allowance, now),
{
    let n = looks.len();
    lemma_window(windows, looks, n, g);
    let w = liveness::window_of(windows[n as int], g);
    if windows.last().contains_key(g) && w.overdue(now, allowance) {
        let s = lemma_run_exists(looks, n as int, g);
        assert(stuck(looks, s, g, allowance, now));
    }
    if exists|s: int| #[trigger] stuck(looks, s, g, allowance, now) {
        let s = choose|s: int| #[trigger] stuck(looks, s, g, allowance, now);
        assert(runs_from(looks, n as int, s, g));
    }
}

/// Observing a cluster is a look at it.
pub proof fn law_observing_is_looking<M>(
    before: WindowMap,
    after: WindowMap,
    cluster: SimulatedCluster<M>,
    now: VirtualInstant,
)
    requires
        liveness::looked_at(before, after, cluster, now),
    ensures
        looked(before, after, look_at(cluster, now)),
{
}

/// What is seen in a list of snapshots at `now`.
pub open spec fn look_through(snaps: Seq<SnapshotView>, now: VirtualInstant) -> Look {
    Look::Seen {
        snaps: Map::new(
            |g: GroupView| liveness::snapped(snaps, g),
            |g: GroupView| snaps[choose|i: int| 0 <= i < snaps.len() && snaps[i].group == g],
        ),
        at: now,
    }
}

/// Observing a list of snapshots, each of another group, is a look at them.
pub proof fn law_observing_snapshots_is_looking(
    before: WindowMap,
    snaps: Seq<SnapshotView>,
    now: VirtualInstant,
)
    requires
        forall|i: int, j: int|
            0 <= i < j < snaps.len() ==> (#[trigger] snaps[i]).group != (#[trigger] snaps[j]).group,
    ensures
        looked(
            before,
            liveness::close_unseen(
                liveness::windows_run(before, snaps, snaps.len(), now),
                snaps,
            ),
            look_through(snaps, now),
        ),
{
    let ran = liveness::windows_run(before, snaps, snaps.len(), now);
    let after = liveness::close_unseen(ran, snaps);
    let seen = look_through(snaps, now)->Seen_snaps;
    assert forall|g: GroupView| #[trigger]
        after.contains_key(g) == (before.contains_key(g) || seen.contains_key(g)) by {
        liveness::lemma_windows_run(before, snaps, snaps.len(), now, g);
    }
    assert forall|g: GroupView| #[trigger] after.contains_key(g) implies after[g] == (
    if seen.contains_key(g) {
        liveness::window_of(before, g).after(seen[g], now)
    } else {
        GroupWindow::closed()
    }) by {
        liveness::lemma_windows_run(before, snaps, snaps.len(), now, g);
        if liveness::snapped(snaps, g) {
            let i = choose|i: int| 0 <= i < snaps.len() && snaps[i].group == g;
            assert(snaps[i].group == g);
        }
    }
}

/// Over a whole watch a violation is found exactly where some group is stuck. The one
/// reported is that of the least such group, with the instant from which on the group
/// was favorable, and whether it had a leader since.
pub proof fn law_liveness_finds_what_is_stuck(
    windows: Seq<WindowMap>,
    looks: Seq<Look>,
    allowance: VirtualDuration,
    r: Result<(), Violation>,
    now: VirtualInstant,
)
    requires
        is_watch(windows, looks),
        liveness::liveness_verdict(windows.last(), allowance, r, now),
    ensures
        r is Err == exists|s: int, g: GroupView| #[trigger] stuck(looks, s, g, allowance, now),
        r matches Err(v) ==> exists|s: int, g: GroupView|
            {
                &&& #[trigger] stuck(looks, s, g, allowance, now)
                &&& v@ == liveness::liveness_violation(
                    g,
                    GroupWindow {
                        since: Some(looks[s]->Seen_at),
                        leader_elected: led_since(looks, looks.len() as int, s, g),
                        satisfied: false,
                    },
                    allowance,
                    now,
                )
                &&& forall|t: int, h: GroupView| #[trigger]
                    stuck(looks, t, h, allowance, now) ==> !model::group_before(h, g)
            },
{
    let n = looks.len() as int;
    let last = windows.last();
    match r {
        Ok(ok) => {
            assert forall|s: int, g: GroupView| !(#[trigger] stuck(
                looks,
                s,
                g,
                allowance,
                now,
            )) by {
                lemma_overdue(windows, looks, g, allowance, now);
            }
        },
        Err(v) => {
            let g = choose|g: GroupView| #[trigger]
                last.contains_key(g) && last[g].overdue(now, allowance) && v@
                    == liveness::liveness_violation(g, last[g], allowance, now) && forall|
                    h: GroupView,
                | #[trigger]
                    last.contains_key(h) && model::group_before(h, g) ==> !last[h].overdue(
                        now,
                        allowance,
                    );
            assert(last.contains_key(g));
            lemma_overdue(windows, looks, g, allowance, now);
            let s = choose|s: int| #[trigger] stuck(looks, s, g, allowance, now);
            lemma_window(windows, looks, looks.len(), g);
            assert(runs_from(looks, n, s, g));
            assert forall|t: int, h: GroupView| #[trigger]
                stuck(looks, t, h, allowance, now) implies !model::group_before(h, g) by {
                lemma_overdue(windows, looks, h, allowance, now);
            }
        },
    }
}

/// A group that is not favorable at the end of a watch is never reported.
pub proof fn law_the_unfavorable_are_never_stuck(
    looks: Seq<Look>,
    s: int,
    g: GroupView,
    allowance: VirtualDuration,
    now: VirtualInstant,
)
    requires
        looks.len() == 0 || !favorable_in(looks, looks.len() - 1, g),
    ensures
        !stuck(looks, s, g, allowance, now),
{
    if stuck(looks, s, g, allowance, now) {
        assert(favorable_in(looks, looks.len() - 1, g));
    }
}

} // verus!

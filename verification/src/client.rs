//! Client-side netcode engine: prediction, reconciliation and interpolation.
//!
//! The engine holds the client's three world-state layers (local mirror,
//! previous and target snapshots for interpolation) plus the display state
//! handed to the renderer, and the log of moves sent but not yet acknowledged
//! by the server. The surrounding application drains the transport, hands
//! each decoded snapshot or join reply to the engine, and schedules the
//! sends the engine asks for.

use vstd::prelude::*;

use crate::event::{Action, JoinResponse, PlayerAction};
use crate::math::{sat_i64, sat_add};
use crate::state::{
    roster_map, roster_sorted, roster_find, roster_insert, state_like, Player, State,
    player_y_spec,
};

verus! {

/// A move sent to the server and not yet echoed in a broadcast's
/// acknowledgement set.
#[derive(Clone, Copy, Debug)]
pub struct UnackedMove {
    pub id: u128,
    pub delta_x: i64,
}

/// A message the engine asks the application to emit after the given delay
/// (half the simulated ping, to model one-way latency).
#[derive(Clone, Copy, Debug)]
pub struct PendingSend {
    pub delay_ms: u64,
    pub action: Action,
}

/// No move identifier occurs twice in the log.
pub open spec fn log_nodup(s: Seq<UnackedMove>) -> bool {
    forall|i: int, j: int| 0 <= i < j < s.len() ==> s[i].id != s[j].id
}

/// Whether the log holds an entry for the identifier.
pub open spec fn log_has(s: Seq<UnackedMove>, id: u128) -> bool {
    exists|i: int| 0 <= i < s.len() && s[i].id == id
}

/// The total in-flight displacement of the log, in micro-units, summed with
/// saturation at the `i64` range.
pub open spec fn sum_unacked(s: Seq<UnackedMove>) -> int
    decreases s.len(),
{
    if s.len() == 0 {
        0
    } else {
        sat_i64(sum_unacked(s.drop_last()) + s.last().delta_x)
    }
}

/// The log after the identifiers in `acked` have been acknowledged: exactly
/// the entries whose id is not in `acked`, in order.
pub open spec fn retain_unacked(s: Seq<UnackedMove>, acked: Seq<u128>) -> Seq<UnackedMove>
    decreases s.len(),
{
    if s.len() == 0 {
        Seq::empty()
    } else if acked.contains(s.last().id) {
        retain_unacked(s.drop_last(), acked)
    } else {
        retain_unacked(s.drop_last(), acked).push(s.last())
    }
}

/// A target-snapshot player placed for rendering: interpolated between its
/// previous-snapshot position (its target position when it just appeared) and
/// its target position, with the jump time carried from the target.
pub open spec fn lerp_player(p: Player, prev: Map<int, Player>, num: int, den: int) -> Player {
    let px = if prev.contains_key(p.id as int) {
        prev[p.id as int].x as int
    } else {
        p.x as int
    };
    Player {
        id: p.id,
        x: sat_i64(crate::math::lerp_spec(px, p.x as int, num, den)) as i64,
        last_jump_at: p.last_jump_at,
    }
}

/// What one target-snapshot player becomes in the rendered frame: the own
/// player keeps its reconciled local entry (or its target entry when no local
/// mirror exists yet); every other player is interpolated.
pub open spec fn frame_player(
    p: Player,
    own_id: Option<usize>,
    own: Option<Player>,
    prev: Map<int, Player>,
    num: int,
    den: int,
) -> Player {
    match own_id {
        Option::Some(me) => if p.id == me {
            match own {
                Option::Some(q) => q,
                Option::None => p,
            }
        } else {
            lerp_player(p, prev, num, den)
        },
        Option::None => lerp_player(p, prev, num, den),
    }
}

/// The log after recording a move: the entry with the same identifier is
/// replaced if one exists, else the move is appended.
pub open spec fn log_insert(s: Seq<UnackedMove>, id: u128, d: i64) -> Seq<UnackedMove> {
    if log_has(s, id) {
        s.update(
            choose|i: int| 0 <= i < s.len() && s[i].id == id,
            UnackedMove { id, delta_x: d },
        )
    } else {
        s.push(UnackedMove { id, delta_x: d })
    }
}

/// Acknowledging entries keeps the log free of duplicate identifiers, and
/// every identifier it keeps was already logged and was not acknowledged.
pub proof fn lemma_retain_unacked(s: Seq<UnackedMove>, acked: Seq<u128>)
    requires
        log_nodup(s),
    ensures
        log_nodup(retain_unacked(s, acked)),
        forall|id: u128| #[trigger] log_has(retain_unacked(s, acked), id) ==> log_has(s, id)
            && !acked.contains(id),
    decreases s.len(),
{
    if s.len() > 0 {
        let t = s.drop_last();
        assert(log_nodup(t));
        lemma_retain_unacked(t, acked);
        let r0 = retain_unacked(t, acked);
        assert forall|id: u128| #[trigger] log_has(retain_unacked(s, acked), id) implies log_has(
            s,
            id,
        ) && !acked.contains(id) by {
            if acked.contains(s.last().id) || id != s.last().id {
                if log_has(r0, id) {
                    assert(log_has(retain_unacked(t, acked), id));
                    let i = choose|i: int| 0 <= i < t.len() && t[i].id == id;
                    assert(s[i].id == id);
                } else {
                    let r = retain_unacked(s, acked);
                    let i = choose|i: int| 0 <= i < r.len() && r[i].id == id;
                    assert(!acked.contains(s.last().id));
                    assert(r =~= r0.push(s.last()));
                    assert(i == r.len() - 1);
                    assert(s[s.len() - 1].id == id);
                }
            } else {
                assert(s[s.len() - 1].id == id);
            }
        }
        if !acked.contains(s.last().id) {
            let r = r0.push(s.last());
            assert forall|i: int, j: int| 0 <= i < j < r.len() implies r[i].id != r[j].id by {
                if j < r0.len() {
                } else {
                    // the last element's id is not among the retained ones
                    if r[i].id == s.last().id {
                        assert(log_has(retain_unacked(t, acked), r[i].id));
                        assert(log_has(t, s.last().id));
                        let k = choose|k: int| 0 <= k < t.len() && t[k].id == s.last().id;
                        assert(s[k].id == s[s.len() - 1].id);
                        assert(false);
                    }
                }
            }
        }
    }
}

/// Once every logged identifier is acknowledged, nothing stays in flight.
pub proof fn lemma_retain_all_acked(s: Seq<UnackedMove>, acked: Seq<u128>)
    requires
        forall|i: int| 0 <= i < s.len() ==> acked.contains(#[trigger] s[i].id),
    ensures
        retain_unacked(s, acked) =~= Seq::<UnackedMove>::empty(),
    decreases s.len(),
{
    if s.len() > 0 {
        assert(acked.contains(s[s.len() - 1].id));
        assert forall|i: int| 0 <= i < s.drop_last().len() implies acked.contains(
            #[trigger] s.drop_last()[i].id,
        ) by {
            assert(acked.contains(s[i].id));
        }
        lemma_retain_all_acked(s.drop_last(), acked);
    }
}

/// Remove every entry whose id the snapshot acknowledged.
fn retain_exec(v: &mut Vec<UnackedMove>, acked: &Vec<u128>)
    ensures
        final(v)@ == retain_unacked(old(v)@, acked@),
{
    let mut out: Vec<UnackedMove> = Vec::new();
    let mut i: usize = 0;
    while i < v.len()
        invariant
            i <= v@.len(),
            out@ == retain_unacked(v@.take(i as int), acked@),
        decreases v@.len() - i,
    {
        proof {
            assert(v@.take(i + 1 as int).drop_last() =~= v@.take(i as int));
            assert(v@.take(i + 1 as int).last() == v@[i as int]);
        }
        if !crate::state::ack_contains(acked, v[i].id) {
            out.push(v[i]);
        }
        i = i + 1;
    }
    proof {
        assert(v@.take(v@.len() as int) =~= v@);
    }
    *v = out;
}

/// The in-flight displacement: the saturating sum of the log's deltas.
fn sum_unacked_exec(v: &Vec<UnackedMove>) -> (r: i64)
    ensures
        r as int == sum_unacked(v@),
{
    let mut acc: i64 = 0;
    let mut i: usize = 0;
    while i < v.len()
        invariant
            i <= v@.len(),
            acc as int == sum_unacked(v@.take(i as int)),
        decreases v@.len() - i,
    {
        proof {
            assert(v@.take(i + 1 as int).drop_last() =~= v@.take(i as int));
            assert(v@.take(i + 1 as int).last() == v@[i as int]);
        }
        acc = sat_add(acc, v[i].delta_x);
        i = i + 1;
    }
    proof {
        assert(v@.take(v@.len() as int) =~= v@);
    }
    acc
}

/// Record a move in the log, replacing any entry with the same identifier.
fn log_insert_exec(v: &mut Vec<UnackedMove>, id: u128, delta_x: i64)
    requires
        log_nodup(old(v)@),
    ensures
        log_nodup(final(v)@),
        final(v)@ == log_insert(old(v)@, id, delta_x),
{
    let mut i: usize = 0;
    while i < v.len()
        invariant
            i <= v@.len(),
            log_nodup(v@),
            v@ == old(v)@,
            forall|j: int| 0 <= j < i ==> (#[trigger] v@[j].id) != id,
        decreases v@.len() - i,
    {
        if v[i].id == id {
            assert(log_has(v@, id));
            proof {
                let k = choose|k: int| 0 <= k < old(v)@.len() && old(v)@[k].id == id;
                if k < i as int {
                    assert(old(v)@[k].id != id);
                }
                if k > i as int {
                    assert(old(v)@[i as int].id != old(v)@[k].id);
                }
                assert(k == i as int);
            }
            let ghost pre = v@;
            v[i] = UnackedMove { id, delta_x };
            assert(v@ == pre.update(i as int, UnackedMove { id, delta_x }));
            assert(pre[i as int].id == id);
            assert forall|a: int, b: int| 0 <= a < b < v@.len() implies v@[a].id != v@[b].id by {
                assert(pre[a].id != pre[b].id);
                if a == i as int {
                    assert(v@[a].id == id);
                    assert(v@[b].id == pre[b].id);
                } else if b == i as int {
                    assert(v@[a].id == pre[a].id);
                    assert(v@[b].id == id);
                } else {
                    assert(v@[a].id == pre[a].id);
                    assert(v@[b].id == pre[b].id);
                }
            }
            assert(v@ =~= log_insert(old(v)@, id, delta_x));
            return ;
        }
        i = i + 1;
    }
    assert(!log_has(v@, id));
    v.push(UnackedMove { id, delta_x });
    assert forall|a: int, b: int| 0 <= a < b < v@.len() implies v@[a].id != v@[b].id by {
        if b < v@.len() - 1 {
            assert(old(v)@[a].id != old(v)@[b].id);
        } else {
            assert(old(v)@[a].id == v@[a].id);
        }
    }
}

/// Game state that is mutated through the lifecycle of the client.
#[derive(Debug)]
pub struct Game {
    /// The client's best belief of the authoritative world (reconciled).
    pub local_state: State,
    /// The most recent snapshot received.
    pub target_state: State,
    /// The snapshot received immediately before `target_state`.
    pub previous_state: State,
    /// What is handed to the renderer this frame.
    pub display_state: State,
    /// This client's own id, once joined.
    pub player_idx: Option<usize>,
    /// Moves sent and not yet acknowledged by the server.
    pub unacknowledged: Vec<UnackedMove>,
    /// Last-sampled simulated round-trip latency in milliseconds.
    pub ping_cache: u64,
    pub prediction: bool,
    pub reconciliation: bool,
    pub interpolation: bool,
}

/// Both games carry the same four world states.
pub open spec fn states_eq(a: Game, b: Game) -> bool {
    &&& state_like(a.local_state, b.local_state)
    &&& state_like(a.target_state, b.target_state)
    &&& state_like(a.previous_state, b.previous_state)
    &&& state_like(a.display_state, b.display_state)
}

/// Both games agree on everything but the mode switches.
pub open spec fn same_but_modes(a: Game, b: Game) -> bool {
    &&& states_eq(a, b)
    &&& a.player_idx == b.player_idx
    &&& a.unacknowledged@ == b.unacknowledged@
    &&& a.ping_cache == b.ping_cache
}

impl Default for Game {
    /// The same engine [`Game::new`] builds.
    fn default() -> (r: Self)
        ensures
            r.client_wf(),
            r.player_idx == None::<usize>,
            r.unacknowledged@ =~= Seq::<UnackedMove>::empty(),
            r.prediction && r.reconciliation && r.interpolation,
    {
        Game::new()
    }
}

impl Game {
    /// The engine's invariant: every roster it carries is sorted by strictly
    /// increasing id, and no move identifier is logged twice.
    pub open spec fn client_wf(&self) -> bool {
        &&& roster_sorted(self.local_state.players@)
        &&& roster_sorted(self.target_state.players@)
        &&& roster_sorted(self.previous_state.players@)
        &&& roster_sorted(self.display_state.players@)
        &&& log_nodup(self.unacknowledged@)
    }

    /// The engine's own player as mirrored in the local state, if joined and
    /// present there.
    pub open spec fn own_local(&self) -> Option<Player> {
        match self.player_idx {
            Option::None => Option::None,
            Option::Some(me) => if roster_map(self.local_state.players@).contains_key(me as int) {
                Option::Some(roster_map(self.local_state.players@)[me as int])
            } else {
                Option::None
            },
        }
    }

    /// Creates a game state with default values: empty worlds, not joined,
    /// all three correction techniques enabled.
    pub fn new() -> (r: Game)
        ensures
            r.local_state.players@ =~= Seq::<Player>::empty(),
            r.target_state.players@ =~= Seq::<Player>::empty(),
            r.previous_state.players@ =~= Seq::<Player>::empty(),
            r.display_state.players@ =~= Seq::<Player>::empty(),
            r.player_idx == None::<usize>,
            r.unacknowledged@ =~= Seq::<UnackedMove>::empty(),
            r.ping_cache == 0,
            r.prediction && r.reconciliation && r.interpolation,
            r.client_wf(),
    {
        Game {
            local_state: State::default(),
            target_state: State::default(),
            previous_state: State::default(),
            display_state: State::default(),
            player_idx: None,
            unacknowledged: Vec::new(),
            ping_cache: 0,
            prediction: true,
            reconciliation: true,
            interpolation: true,
        }
    }

    /// Record a join reply: remember the assigned id and mirror a fresh
    /// player into the local and target worlds.
    pub fn join_update(&mut self, reply: JoinResponse)
        requires
            old(self).client_wf(),
        ensures
            final(self).client_wf(),
            final(self).player_idx == Some(reply.player_id),
            roster_map(final(self).local_state.players@) == roster_map(
                old(self).local_state.players@,
            ).insert(
                reply.player_id as int,
                Player { id: reply.player_id, x: 0i64, last_jump_at: None::<i64> },
            ),
            roster_map(final(self).target_state.players@) == roster_map(
                old(self).target_state.players@,
            ).insert(
                reply.player_id as int,
                Player { id: reply.player_id, x: 0i64, last_jump_at: None::<i64> },
            ),
            final(self).local_state.timestamp == old(self).local_state.timestamp,
            final(self).local_state.acknowledged@ == old(self).local_state.acknowledged@,
            final(self).target_state.timestamp == old(self).target_state.timestamp,
            final(self).target_state.acknowledged@ == old(self).target_state.acknowledged@,
            state_like(final(self).previous_state, old(self).previous_state),
            state_like(final(self).display_state, old(self).display_state),
            final(self).unacknowledged@ == old(self).unacknowledged@,
            final(self).ping_cache == old(self).ping_cache,
            final(self).prediction == old(self).prediction,
            final(self).reconciliation == old(self).reconciliation,
            final(self).interpolation == old(self).interpolation,
    {
        self.player_idx = Some(reply.player_id);
        roster_insert(&mut self.local_state.players, Player::new(reply.player_id));
        roster_insert(&mut self.target_state.players, Player::new(reply.player_id));
    }

    /// Makes the current player move by `delta_x` micro-units: an optimistic
    /// local update, also shown on the display when prediction is on. No
    /// message is sent here; aggregated deltas are emitted by the snapshot
    /// handler.
    pub fn move_player(&mut self, delta_x: i64)
        requires
            old(self).client_wf(),
        ensures
            final(self).client_wf(),
            final(self).player_idx == old(self).player_idx,
            final(self).unacknowledged@ == old(self).unacknowledged@,
            final(self).ping_cache == old(self).ping_cache,
            final(self).prediction == old(self).prediction,
            final(self).reconciliation == old(self).reconciliation,
            final(self).interpolation == old(self).interpolation,
            state_like(final(self).target_state, old(self).target_state),
            state_like(final(self).previous_state, old(self).previous_state),
            old(self).player_idx matches None ==> state_like(
                final(self).local_state,
                old(self).local_state,
            ) && state_like(final(self).display_state, old(self).display_state),
            old(self).player_idx matches Some(me) ==> {
                let local = roster_map(old(self).local_state.players@);
                let display = roster_map(old(self).display_state.players@);
                &&& (if local.contains_key(me as int) {
                    roster_map(final(self).local_state.players@) == local.insert(
                        me as int,
                        Player {
                            id: me,
                            x: sat_i64(local[me as int].x + delta_x) as i64,
                            last_jump_at: local[me as int].last_jump_at,
                        },
                    )
                } else {
                    state_like(final(self).local_state, old(self).local_state)
                })
                &&& (if old(self).prediction && display.contains_key(me as int) {
                    roster_map(final(self).display_state.players@) == display.insert(
                        me as int,
                        Player {
                            id: me,
                            x: sat_i64(display[me as int].x + delta_x) as i64,
                            last_jump_at: display[me as int].last_jump_at,
                        },
                    )
                } else {
                    state_like(final(self).display_state, old(self).display_state)
                })
                &&& final(self).local_state.timestamp == old(self).local_state.timestamp
                &&& final(self).local_state.acknowledged@ == old(self).local_state.acknowledged@
                &&& final(self).local_state.new_player_id == old(self).local_state.new_player_id
                &&& final(self).display_state.timestamp == old(self).display_state.timestamp
                &&& final(self).display_state.acknowledged@ == old(
                    self,
                ).display_state.acknowledged@
                &&& final(self).display_state.new_player_id == old(
                    self,
                ).display_state.new_player_id
            },
    {
        let me = match self.player_idx {
            None => {
                return ;
            },
            Some(me) => me,
        };
        match roster_find(&self.local_state.players, me) {
            Some(i) => {
                proof {
                    crate::state::lemma_roster_map_index(self.local_state.players@, i as int);
                }
                let mut p = self.local_state.players[i];
                p.x = sat_add(p.x, delta_x);
                roster_insert(&mut self.local_state.players, p);
            },
            None => {
                proof {
                    crate::state::lemma_roster_map_absent(self.local_state.players@, me as int);
                }
            },
        }
        if self.prediction {
            match roster_find(&self.display_state.players, me) {
                Some(i) => {
                    proof {
                        crate::state::lemma_roster_map_index(
                            self.display_state.players@,
                            i as int,
                        );
                    }
                    let mut p = self.display_state.players[i];
                    p.x = sat_add(p.x, delta_x);
                    roster_insert(&mut self.display_state.players, p);
                },
                None => {
                    proof {
                        crate::state::lemma_roster_map_absent(
                            self.display_state.players@,
                            me as int,
                        );
                    }
                },
            }
        }
    }

    /// Make the current player jump at `now_ms`: requires the player to be on
    /// the ground. The jump is applied optimistically to the local state (and
    /// to the display when prediction is on); the jump action itself is
    /// handed back to be sent after half the simulated ping.
    pub fn jump(&mut self, now_ms: i64) -> (r: Option<PendingSend>)
        requires
            old(self).client_wf(),
            old(self).player_idx matches Some(_) ==> old(self).own_local() matches Some(p)
                && player_y_spec(p.last_jump_at, now_ms as int) == 0,
        ensures
            final(self).client_wf(),
            final(self).player_idx == old(self).player_idx,
            final(self).unacknowledged@ == old(self).unacknowledged@,
            final(self).ping_cache == old(self).ping_cache,
            final(self).prediction == old(self).prediction,
            final(self).reconciliation == old(self).reconciliation,
            final(self).interpolation == old(self).interpolation,
            state_like(final(self).target_state, old(self).target_state),
            state_like(final(self).previous_state, old(self).previous_state),
            old(self).player_idx matches None ==> r == None::<PendingSend> && state_like(
                final(self).local_state,
                old(self).local_state,
            ) && state_like(final(self).display_state, old(self).display_state),
            old(self).player_idx matches Some(me) ==> {
                let local = roster_map(old(self).local_state.players@);
                let display = roster_map(old(self).display_state.players@);
                &&& roster_map(final(self).local_state.players@) == local.insert(
                    me as int,
                    Player {
                        id: me,
                        x: local[me as int].x,
                        last_jump_at: Some(now_ms),
                    },
                )
                &&& (if old(self).prediction && display.contains_key(me as int) {
                    roster_map(final(self).display_state.players@) == display.insert(
                        me as int,
                        Player {
                            id: me,
                            x: display[me as int].x,
                            last_jump_at: Some(now_ms),
                        },
                    )
                } else {
                    state_like(final(self).display_state, old(self).display_state)
                })
                &&& final(self).local_state.timestamp == old(self).local_state.timestamp
                &&& final(self).local_state.acknowledged@ == old(self).local_state.acknowledged@
                &&& final(self).local_state.new_player_id == old(self).local_state.new_player_id
                &&& final(self).display_state.timestamp == old(self).display_state.timestamp
                &&& final(self).display_state.acknowledged@ == old(
                    self,
                ).display_state.acknowledged@
                &&& final(self).display_state.new_player_id == old(
                    self,
                ).display_state.new_player_id
                &&& r == Some(
                    PendingSend {
                        delay_ms: old(self).ping_cache / 2,
                        action: Action::Player {
                            id: me,
                            action: PlayerAction::Jump { at: now_ms },
                        },
                    },
                )
            },
    {
        let me = match self.player_idx {
            None => {
                return None;
            },
            Some(me) => me,
        };
        let i = match roster_find(&self.local_state.players, me) {
            Some(i) => i,
            None => {
                proof {
                    crate::state::lemma_roster_map_absent(self.local_state.players@, me as int);
                }
                assert(false);
                return None;
            },
        };
        proof {
            crate::state::lemma_roster_map_index(self.local_state.players@, i as int);
        }
        let mut p = self.local_state.players[i];
        p.last_jump_at = Some(now_ms);
        roster_insert(&mut self.local_state.players, p);
        if self.prediction {
            match roster_find(&self.display_state.players, me) {
                Some(j) => {
                    proof {
                        crate::state::lemma_roster_map_index(
                            self.display_state.players@,
                            j as int,
                        );
                    }
                    let mut d = self.display_state.players[j];
                    d.last_jump_at = Some(now_ms);
                    roster_insert(&mut self.display_state.players, d);
                },
                None => {
                    proof {
                        crate::state::lemma_roster_map_absent(
                            self.display_state.players@,
                            me as int,
                        );
                    }
                },
            }
        }
        Some(
            PendingSend {
                delay_ms: self.ping_cache / 2,
                action: Action::Player { id: me, action: PlayerAction::Jump { at: now_ms } },
            },
        )
    }

    /// Handle one drained server snapshot: shift the interpolation window,
    /// sample the simulated ping, drop acknowledged moves from the log, and
    /// rebase the own player onto the server's position plus the in-flight
    /// displacement (reconciliation). If the position the client accumulated
    /// beyond what it has sent differs by at least the move threshold, a
    /// fresh move carrying that discrepancy is handed back to be sent after
    /// half the simulated ping.
    pub fn apply_snapshot(&mut self, snapshot: State, ping_ms: u64, now_ms: i64) -> (r: Option<
        PendingSend,
    >)
        requires
            old(self).client_wf(),
            roster_sorted(snapshot.players@),
        ensures
            final(self).client_wf(),
            final(self).target_state == snapshot,
            state_like(final(self).previous_state, old(self).target_state),
            final(self).ping_cache == ping_ms,
            final(self).player_idx == old(self).player_idx,
            final(self).prediction == old(self).prediction,
            final(self).reconciliation == old(self).reconciliation,
            final(self).interpolation == old(self).interpolation,
            old(self).own_local() matches None ==> r == None::<PendingSend> && state_like(
                final(self).local_state,
                snapshot,
            ) && state_like(final(self).display_state, snapshot) && final(self).unacknowledged@
                == old(self).unacknowledged@,
            old(self).own_local() matches Some(cur) ==> ({
                let me = old(self).player_idx.unwrap();
                let log1 = retain_unacked(old(self).unacknowledged@, snapshot.acknowledged@);
                &&& !roster_map(snapshot.players@).contains_key(me as int) ==> r == None::<
                    PendingSend,
                > && final(self).unacknowledged@ == log1 && state_like(
                    final(self).local_state,
                    old(self).local_state,
                ) && state_like(final(self).display_state, old(self).display_state)
                &&& roster_map(snapshot.players@).contains_key(me as int) ==> ({
                    let server = roster_map(snapshot.players@)[me as int];
                    let reconciled = sat_i64(server.x + sum_unacked(log1));
                    let disc = sat_i64(cur.x - reconciled);
                    let jump = match cur.last_jump_at {
                        Option::Some(t) => t as int,
                        Option::None => sat_i64(now_ms - 1000),
                    };
                    let newp = Player {
                        id: me,
                        x: sat_i64(reconciled + disc) as i64,
                        last_jump_at: Some(jump as i64),
                    };
                    &&& roster_map(final(self).local_state.players@) == roster_map(
                        snapshot.players@,
                    ).insert(me as int, newp)
                    &&& final(self).local_state.timestamp == snapshot.timestamp
                    &&& final(self).local_state.acknowledged@ == snapshot.acknowledged@
                    &&& (if old(self).reconciliation && roster_map(
                        old(self).target_state.players@,
                    ).contains_key(me as int) {
                        roster_map(final(self).display_state.players@) == roster_map(
                            old(self).target_state.players@,
                        ).insert(me as int, newp)
                    } else {
                        roster_map(final(self).display_state.players@) == roster_map(
                            old(self).target_state.players@,
                        )
                    })
                    &&& final(self).display_state.timestamp == old(self).target_state.timestamp
                    &&& final(self).display_state.acknowledged@ == old(
                        self,
                    ).target_state.acknowledged@
                    &&& (if -(crate::MOVE_EPSILON_MICROS as int) < disc < crate::MOVE_EPSILON_MICROS
                        as int {
                        r == None::<PendingSend> && final(self).unacknowledged@ == log1
                    } else {
                        r matches Some(ps) && ps.delay_ms == ping_ms / 2 && crate::event::is_move_action(
                            ps.action,
                            me,
                            disc as i64,
                        ) && final(self).unacknowledged@ == log_insert(
                            log1,
                            crate::event::move_id_of(ps.action),
                            disc as i64,
                        )
                    })
                })
            }),
    {
        let shifted = self.target_state.duplicate();
        self.previous_state = shifted;
        self.target_state = snapshot;
        self.ping_cache = ping_ms;

        // Mirror the snapshot outright until this client has a joined player.
        let me = match self.player_idx {
            None => {
                self.local_state = self.target_state.duplicate();
                self.display_state = self.target_state.duplicate();
                return None;
            },
            Some(me) => me,
        };
        let cur = match roster_find(&self.local_state.players, me) {
            Some(i) => {
                proof {
                    crate::state::lemma_roster_map_index(self.local_state.players@, i as int);
                }
                self.local_state.players[i]
            },
            None => {
                proof {
                    crate::state::lemma_roster_map_absent(self.local_state.players@, me as int);
                }
                self.local_state = self.target_state.duplicate();
                self.display_state = self.target_state.duplicate();
                return None;
            },
        };

        // Drop every move the server has now acknowledged, and total what is
        // still in flight.
        proof {
            lemma_retain_unacked(old(self).unacknowledged@, self.target_state.acknowledged@);
        }
        retain_exec(&mut self.unacknowledged, &self.target_state.acknowledged);
        let unack_diff = sum_unacked_exec(&self.unacknowledged);

        let server = match roster_find(&self.target_state.players, me) {
            Some(j) => {
                proof {
                    crate::state::lemma_roster_map_index(self.target_state.players@, j as int);
                }
                self.target_state.players[j]
            },
            None => {
                proof {
                    crate::state::lemma_roster_map_absent(self.target_state.players@, me as int);
                }
                return None;
            },
        };

        // The position the server will converge to once it has processed
        // everything sent, and the motion accumulated beyond that.
        let reconciled = sat_add(server.x, unack_diff);
        let discrepancy = crate::math::sat_sub(cur.x, reconciled);
        let local_jump = match cur.last_jump_at {
            Some(t) => t,
            None => crate::math::sat_sub(now_ms, 1000),
        };
        let newp = Player {
            id: me,
            x: sat_add(reconciled, discrepancy),
            last_jump_at: Some(local_jump),
        };

        let fresh_local = self.target_state.duplicate();
        self.local_state = fresh_local;
        let fresh_display = self.previous_state.duplicate();
        self.display_state = fresh_display;
        roster_insert(&mut self.local_state.players, newp);
        if self.reconciliation {
            match roster_find(&self.display_state.players, me) {
                Some(k) => {
                    proof {
                        crate::state::lemma_roster_map_index(
                            self.display_state.players@,
                            k as int,
                        );
                    }
                    roster_insert(&mut self.display_state.players, newp);
                },
                None => {
                    proof {
                        crate::state::lemma_roster_map_absent(
                            self.display_state.players@,
                            me as int,
                        );
                    }
                },
            }
        }

        // Only a discrepancy of at least the threshold is worth a message.
        if discrepancy > -(crate::MOVE_EPSILON_MICROS) && discrepancy < crate::MOVE_EPSILON_MICROS {
            return None;
        }
        let action = Action::player_move(me, discrepancy);
        let move_id = match action.ack_id() {
            Some((id, _)) => id,
            None => {
                assert(false);
                return None;
            },
        };
        log_insert_exec(&mut self.unacknowledged, move_id, discrepancy);
        Some(PendingSend { delay_ms: self.ping_cache / 2, action })
    }

    /// Whether the interpolation window is usable at `now_ms`: the two
    /// snapshots must be in strict timestamp order and the window and offset
    /// must fit the fixed-point range.
    pub open spec fn interp_window_ok(&self, now_ms: int) -> bool {
        let den = self.target_state.timestamp - self.previous_state.timestamp;
        let num = now_ms - (self.ping_cache / 2) as int - self.target_state.timestamp;
        0 < den <= i64::MAX && i64::MIN <= num <= i64::MAX
    }

    /// Render remote players between the two most recent snapshots,
    /// time-shifted by the one-way latency: each player of the target
    /// snapshot is placed at `lerp(previous_x, target_x, u)` with
    /// `u = (now - ping/2 - t_target) / (t_target - t_prev)`, except the own
    /// player, which keeps its reconciled local entry. The result replaces
    /// the local roster, and the display roster keeps its own-player entry on
    /// top of it.
    #[verifier::loop_isolation(false)]
    pub fn interpolate_frame(&mut self, now_ms: i64)
        requires
            old(self).client_wf(),
        ensures
            final(self).client_wf(),
            state_like(final(self).target_state, old(self).target_state),
            state_like(final(self).previous_state, old(self).previous_state),
            final(self).player_idx == old(self).player_idx,
            final(self).unacknowledged@ == old(self).unacknowledged@,
            final(self).ping_cache == old(self).ping_cache,
            final(self).prediction == old(self).prediction,
            final(self).reconciliation == old(self).reconciliation,
            final(self).interpolation == old(self).interpolation,
            !old(self).interp_window_ok(now_ms as int) ==> state_like(
                final(self).local_state,
                old(self).local_state,
            ) && state_like(final(self).display_state, old(self).display_state),
            old(self).interp_window_ok(now_ms as int) ==> ({
                let den = old(self).target_state.timestamp - old(self).previous_state.timestamp;
                let num = now_ms - (old(self).ping_cache / 2) as int - old(
                    self,
                ).target_state.timestamp;
                let prevm = roster_map(old(self).previous_state.players@);
                let tar = old(self).target_state.players@;
                &&& final(self).local_state.players@.len() == tar.len()
                &&& forall|k: int| 0 <= k < tar.len() ==> final(self).local_state.players@[k]
                    == frame_player(
                    #[trigger] tar[k],
                    old(self).player_idx,
                    old(self).own_local(),
                    prevm,
                    num,
                    den,
                )
                &&& final(self).local_state.timestamp == old(self).local_state.timestamp
                &&& final(self).local_state.acknowledged@ == old(self).local_state.acknowledged@
                &&& (match old(self).player_idx {
                    Option::Some(me) => if roster_map(
                        old(self).display_state.players@,
                    ).contains_key(me as int) {
                        roster_map(final(self).display_state.players@) == roster_map(
                            final(self).local_state.players@,
                        ).insert(me as int, roster_map(old(self).display_state.players@)[me as int])
                    } else {
                        roster_map(final(self).display_state.players@) == roster_map(
                            final(self).local_state.players@,
                        )
                    },
                    Option::None => roster_map(final(self).display_state.players@) == roster_map(
                        final(self).local_state.players@,
                    ),
                })
                &&& final(self).display_state.timestamp == old(self).display_state.timestamp
                &&& final(self).display_state.acknowledged@ == old(self).display_state.acknowledged@
            }),
    {
        let den128: i128 = self.target_state.timestamp as i128
            - self.previous_state.timestamp as i128;
        let half: i64 = (self.ping_cache / 2) as i64;
        let num128: i128 = now_ms as i128 - half as i128 - self.target_state.timestamp as i128;
        if den128 <= 0 || den128 > i64::MAX as i128 || num128 > i64::MAX as i128 || num128
            < i64::MIN as i128 {
            return ;
        }
        let num: i64 = num128 as i64;
        let den: i64 = den128 as i64;

        // Due to prediction and reconciliation the own player is handled
        // differently: its already-reconciled local entry is carried over.
        let own: Option<Player> = match self.player_idx {
            None => None,
            Some(me) => match roster_find(&self.local_state.players, me) {
                Some(i) => {
                    proof {
                        crate::state::lemma_roster_map_index(self.local_state.players@, i as int);
                    }
                    Some(self.local_state.players[i])
                },
                None => {
                    proof {
                        crate::state::lemma_roster_map_absent(
                            self.local_state.players@,
                            me as int,
                        );
                    }
                    None
                },
            },
        };

        let ghost prevm = roster_map(self.previous_state.players@);
        let ghost tar = self.target_state.players@;
        let mut out: Vec<Player> = Vec::new();
        let mut j: usize = 0;
        while j < self.target_state.players.len()
            invariant
                j <= tar.len(),
                out@.len() == j,
                forall|k: int| 0 <= k < j ==> out@[k] == frame_player(
                    #[trigger] tar[k],
                    self.player_idx,
                    self.own_local(),
                    prevm,
                    num as int,
                    den as int,
                ),
                forall|k: int| 0 <= k < j ==> (#[trigger] out@[k].id) == tar[k].id,
            decreases tar.len() - j,
        {
            let p = self.target_state.players[j];
            let own_here: bool = match self.player_idx {
                Some(me) => p.id == me,
                None => false,
            };
            let fp: Player = if own_here {
                match &own {
                    Some(q) => *q,
                    None => p,
                }
            } else {
                {
                    let prev_x: i64 = match roster_find(&self.previous_state.players, p.id) {
                        Some(k) => {
                            proof {
                                crate::state::lemma_roster_map_index(
                                    self.previous_state.players@,
                                    k as int,
                                );
                            }
                            self.previous_state.players[k].x
                        },
                        None => {
                            proof {
                                crate::state::lemma_roster_map_absent(
                                    self.previous_state.players@,
                                    p.id as int,
                                );
                            }
                            p.x
                        },
                    };
                    Player {
                        id: p.id,
                        x: crate::math::lerp(prev_x, p.x, num, den),
                        last_jump_at: p.last_jump_at,
                    }
                }
            };
            out.push(fp);
            j = j + 1;
        }
        assert forall|a: int, b: int| 0 <= a < b < out@.len() implies out@[a].id < out@[b].id by {
            assert(tar[a].id < tar[b].id);
        }

        // The display keeps the own player's predicted entry, if present.
        let display_own: Option<Player> = match self.player_idx {
            None => None,
            Some(me) => match roster_find(&self.display_state.players, me) {
                Some(i) => {
                    proof {
                        crate::state::lemma_roster_map_index(
                            self.display_state.players@,
                            i as int,
                        );
                    }
                    Some(self.display_state.players[i])
                },
                None => {
                    proof {
                        crate::state::lemma_roster_map_absent(
                            self.display_state.players@,
                            me as int,
                        );
                    }
                    None
                },
            },
        };
        let mut display_players = crate::state::vec_dup(&out);
        self.local_state.players = out;
        if let Some(dp) = display_own {
            roster_insert(&mut display_players, dp);
        }
        self.display_state.players = display_players;
    }

    /// Toggle client-side prediction; disabling it also disables
    /// reconciliation, which is meaningless without it.
    pub fn toggle_prediction(&mut self)
        ensures
            same_but_modes(*final(self), *old(self)),
            final(self).interpolation == old(self).interpolation,
            final(self).prediction == !old(self).prediction,
            final(self).reconciliation == (old(self).reconciliation && final(self).prediction),
    {
        self.prediction = !self.prediction;
        if !self.prediction {
            self.reconciliation = false;
        }
    }

    /// Toggle server reconciliation; enabling it also enables prediction,
    /// which it rebases.
    pub fn toggle_reconciliation(&mut self)
        ensures
            same_but_modes(*final(self), *old(self)),
            final(self).interpolation == old(self).interpolation,
            final(self).reconciliation == !old(self).reconciliation,
            final(self).prediction == (old(self).prediction || final(self).reconciliation),
    {
        self.reconciliation = !self.reconciliation;
        if self.reconciliation && !self.prediction {
            self.prediction = true;
        }
    }

    /// Toggle entity interpolation; it is independent of the other modes.
    pub fn toggle_interpolation(&mut self)
        ensures
            same_but_modes(*final(self), *old(self)),
            final(self).prediction == old(self).prediction,
            final(self).reconciliation == old(self).reconciliation,
            final(self).interpolation == !old(self).interpolation,
    {
        self.interpolation = !self.interpolation;
    }
}

} // verus!

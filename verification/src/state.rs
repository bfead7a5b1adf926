//! The authoritative server-side world state: the player roster, the tick
//! timestamp, and the move identifiers acknowledged since the last broadcast.
//!
//! The roster is held sorted by strictly increasing player id; its
//! mathematical model is the finite map [`roster_map`] from ids to players.

use vstd::prelude::*;

use crate::math::{jump_y_spec, jump_y_at, sat_i64};
use crate::MAX_UNITS_PER_SECOND_MICROS;

verus! {

/// A single player in the game, with id and positional info.
///
/// `x` is the horizontal position in micro-units; `last_jump_at` is the
/// wall-clock instant, in milliseconds, at which the most recent jump began,
/// or `None` if the player never jumped.
#[derive(Clone, Copy, Debug)]
pub struct Player {
    pub id: usize,
    pub x: i64,
    pub last_jump_at: Option<i64>,
}

/// Height of a player at wall-clock time `now` (milliseconds): the jump curve
/// evaluated at the time since the player's most recent jump, and zero for a
/// player who never jumped.
pub open spec fn player_y_spec(last_jump_at: Option<i64>, now: int) -> int {
    match last_jump_at {
        Option::None => 0,
        Option::Some(j) => jump_y_spec(now - j),
    }
}

impl Player {
    /// Create a player by ID
    pub fn new(id: usize) -> (r: Self)
        ensures
            r == (Player { id, x: 0i64, last_jump_at: None::<i64> }),
    {
        Self { id, x: 0, last_jump_at: None }
    }

    /// Get the player's current Y coordinate, in micro-units, at the
    /// wall-clock time `now_ms`.
    pub fn y(&self, now_ms: i64) -> (r: i64)
        ensures
            r as int == player_y_spec(self.last_jump_at, now_ms as int),
    {
        match self.last_jump_at {
            None => 0,
            Some(j) => {
                let t: i128 = now_ms as i128 - j as i128;
                if t < 0 || t > crate::JUMP_WINDOW_MS as i128 {
                    0
                } else {
                    jump_y_at(t as i64)
                }
            },
        }
    }
}

/// Represents all possible errors that can occur when updating the game state
#[derive(Clone, Copy, Debug, PartialEq, Eq, Structural)]
pub enum StateError {
    /// The operation targeted an id absent from the roster.
    UnknownPlayer(usize),
    /// A move broke the velocity cap: `units` micro-units were asked for over
    /// the `timeframe_ms` milliseconds since the last tick. The motion was
    /// applied clamped to the cap.
    Cheating { units: i64, timeframe_ms: i64 },
}

/// The roster's ids are strictly increasing: every id occurs at most once and
/// iteration order is deterministic.
pub open spec fn roster_sorted(s: Seq<Player>) -> bool {
    forall|i: int, j: int| 0 <= i < j < s.len() ==> s[i].id < s[j].id
}

/// A sequence of move identifiers without duplicates.
pub open spec fn nodup_ids(s: Seq<u128>) -> bool {
    forall|i: int, j: int| 0 <= i < j < s.len() ==> s[i] != s[j]
}

/// The mathematical model of a roster: the finite map from player id to
/// player, later entries winning.
pub open spec fn roster_map(s: Seq<Player>) -> Map<int, Player>
    decreases s.len(),
{
    if s.len() == 0 {
        Map::empty()
    } else {
        roster_map(s.drop_last()).insert(s.last().id as int, s.last())
    }
}

/// Recording an acknowledgement: appends the identifier unless it is already
/// present.
pub open spec fn ack_record(s: Seq<u128>, id: u128) -> Seq<u128> {
    if s.contains(id) {
        s
    } else {
        s.push(id)
    }
}

/// Every key of a roster's map carries the player with that id.
pub proof fn lemma_roster_map_ids(s: Seq<Player>)
    ensures
        forall|k: int| #[trigger] roster_map(s).contains_key(k) ==> roster_map(s)[k].id as int
            == k,
    decreases s.len(),
{
    if s.len() > 0 {
        lemma_roster_map_ids(s.drop_last());
    }
}

/// In a sorted roster, the entry at index `i` is the map's value at its id.
pub proof fn lemma_roster_map_index(s: Seq<Player>, i: int)
    requires
        roster_sorted(s),
        0 <= i < s.len(),
    ensures
        roster_map(s).contains_key(s[i].id as int),
        roster_map(s)[s[i].id as int] == s[i],
    decreases s.len(),
{
    if i == s.len() - 1 {
    } else {
        lemma_roster_map_index(s.drop_last(), i);
        assert(s.drop_last()[i] == s[i]);
        assert(s[i].id < s.last().id);
    }
}

/// Appending a player with a fresh id inserts it into the roster's map.
pub proof fn lemma_roster_map_push(s: Seq<Player>, p: Player)
    ensures
        roster_map(s.push(p)) == roster_map(s).insert(p.id as int, p),
{
    assert(s.push(p).drop_last() =~= s);
    assert(s.push(p).last() == p);
}

/// Replacing the entry at index `i` by a player with the same id updates the
/// roster's map at that id.
pub proof fn lemma_roster_map_update(s: Seq<Player>, i: int, p: Player)
    requires
        roster_sorted(s),
        0 <= i < s.len(),
        s[i].id == p.id,
    ensures
        roster_map(s.update(i, p)) =~= roster_map(s).insert(p.id as int, p),
    decreases s.len(),
{
    let t = s.update(i, p);
    if i == s.len() - 1 {
        assert(t.drop_last() =~= s.drop_last());
        assert(t.last() == p);
    } else {
        assert(t.last() == s.last());
        assert(t.drop_last() =~= s.drop_last().update(i, p));
        lemma_roster_map_update(s.drop_last(), i, p);
        assert(s[i].id < s.last().id);
    }
}

/// No entry of `s` has the id `k`, so the roster's map lacks the key `k`.
pub proof fn lemma_roster_map_absent(s: Seq<Player>, k: int)
    requires
        forall|i: int| 0 <= i < s.len() ==> #[trigger] s[i].id as int != k,
    ensures
        !roster_map(s).contains_key(k),
    decreases s.len(),
{
    if s.len() > 0 {
        assert forall|i: int| 0 <= i < s.drop_last().len() implies #[trigger] s.drop_last()[i].id
            as int != k by {
            assert(s[i].id as int != k);
        }
        lemma_roster_map_absent(s.drop_last(), k);
        assert(s[s.len() - 1].id as int != k);
    }
}

/// Removing the entry at index `i` removes its id from the roster's map.
pub proof fn lemma_roster_map_remove(s: Seq<Player>, i: int)
    requires
        roster_sorted(s),
        0 <= i < s.len(),
    ensures
        roster_map(s.remove(i)) =~= roster_map(s).remove(s[i].id as int),
    decreases s.len(),
{
    let t = s.remove(i);
    if i == s.len() - 1 {
        assert(t =~= s.drop_last());
        assert forall|j: int| 0 <= j < s.drop_last().len() implies #[trigger] s.drop_last()[j].id
            as int != s[i].id as int by {
            assert(s[j].id < s[i].id);
        }
        lemma_roster_map_absent(s.drop_last(), s[i].id as int);
    } else {
        assert(t.last() == s.last());
        assert(t.drop_last() =~= s.drop_last().remove(i));
        lemma_roster_map_remove(s.drop_last(), i);
        assert(s[i].id < s.last().id);
    }
}

/// Inserting a player between the entries below and above its id inserts it
/// into the roster's map.
pub proof fn lemma_roster_map_insert_at(s: Seq<Player>, i: int, p: Player)
    requires
        roster_sorted(s),
        0 <= i <= s.len(),
        forall|j: int| 0 <= j < i ==> (#[trigger] s[j].id) < p.id,
        forall|j: int| i <= j < s.len() ==> (#[trigger] s[j].id) > p.id,
    ensures
        roster_map(s.insert(i, p)) =~= roster_map(s).insert(p.id as int, p),
    decreases s.len(),
{
    let t = s.insert(i, p);
    if i == s.len() {
        assert(t =~= s.push(p));
        lemma_roster_map_push(s, p);
    } else {
        assert(t.last() == s.last());
        assert(t.drop_last() =~= s.drop_last().insert(i, p));
        lemma_roster_map_insert_at(s.drop_last(), i, p);
        assert(s[s.len() - 1].id > p.id);
    }
}

/// Find the roster index of a player by id.
pub fn roster_find(v: &Vec<Player>, player_id: usize) -> (r: Option<usize>)
    ensures
        match r {
            Some(i) => i < v@.len() && v@[i as int].id == player_id,
            None => forall|i: int| 0 <= i < v@.len() ==> (#[trigger] v@[i].id) != player_id,
        },
{
    let mut i: usize = 0;
    while i < v.len()
        invariant
            i <= v@.len(),
            forall|j: int| 0 <= j < i ==> (#[trigger] v@[j].id) != player_id,
        decreases v@.len() - i,
    {
        if v[i].id == player_id {
            return Some(i);
        }
        i = i + 1;
    }
    None
}

/// Insert a player into a sorted roster, replacing any entry with the same
/// id, as an insertion into the roster's map.
pub fn roster_insert(v: &mut Vec<Player>, p: Player)
    requires
        roster_sorted(old(v)@),
    ensures
        roster_sorted(final(v)@),
        roster_map(final(v)@) == roster_map(old(v)@).insert(p.id as int, p),
        final(v)@.len() <= old(v)@.len() + 1,
{
    let mut i: usize = 0;
    while i < v.len() && v[i].id < p.id
        invariant
            i <= v@.len(),
            forall|j: int| 0 <= j < i ==> (#[trigger] v@[j].id) < p.id,
        decreases v@.len() - i,
    {
        i = i + 1;
    }
    if i < v.len() && v[i].id == p.id {
        proof {
            lemma_roster_map_update(v@, i as int, p);
        }
        v[i] = p;
        assert forall|a: int, b: int| 0 <= a < b < v@.len() implies v@[a].id < v@[b].id by {
            assert(old(v)@[a].id < old(v)@[b].id);
        }
    } else {
        proof {
            assert forall|j: int| i <= j < v@.len() implies (#[trigger] v@[j].id) > p.id by {
                if j > i {
                    assert(v@[i as int].id < v@[j].id);
                }
            }
            lemma_roster_map_insert_at(v@, i as int, p);
        }
        let ghost pre = v@;
        v.insert(i, p);
        assert forall|a: int, b: int| 0 <= a < b < v@.len() implies v@[a].id < v@[b].id by {
            if b < i {
                assert(pre[a].id < pre[b].id);
            } else if a < i && b == i {
            } else if a < i && b > i {
                assert(pre[a].id < pre[b - 1].id || pre[b - 1].id > p.id);
            } else if a == i {
                assert(pre[b - 1].id > p.id);
            } else {
                assert(pre[a - 1].id < pre[b - 1].id);
            }
        }
    }
}

/// Whether two states carry the same world: the same roster, the same
/// timestamp, the same acknowledgements, and the same next id.
pub open spec fn state_like(a: State, b: State) -> bool {
    &&& a.players@ == b.players@
    &&& a.timestamp == b.timestamp
    &&& a.acknowledged@ == b.acknowledged@
    &&& a.new_player_id == b.new_player_id
}

/// Copy a vector of plain values.
pub fn vec_dup<T: Copy>(v: &Vec<T>) -> (r: Vec<T>)
    ensures
        r@ == v@,
{
    let mut r: Vec<T> = Vec::new();
    let mut i: usize = 0;
    while i < v.len()
        invariant
            i <= v@.len(),
            r@ == v@.take(i as int),
        decreases v@.len() - i,
    {
        r.push(v[i]);
        proof {
            assert(v@.take(i + 1 as int).drop_last() =~= v@.take(i as int));
            assert(r@ =~= v@.take(i + 1 as int));
        }
        i = i + 1;
    }
    proof {
        assert(v@.take(v@.len() as int) =~= v@);
    }
    r
}

/// Server state including position of all players and tick info.
///
/// `acknowledged` holds, in order of arrival and without duplicates, the
/// identifiers of the moves processed since the last broadcast.
#[derive(Clone, Debug)]
pub struct State {
    pub players: Vec<Player>,
    /// Wall-clock instant of the last tick, in milliseconds.
    pub timestamp: i64,
    /// Next id to assign at a join; never decreases, so ids are never reused.
    /// Server-only: it is not part of the wire snapshot.
    pub new_player_id: usize,
    pub acknowledged: Vec<u128>,
}

/// The number of milliseconds charged to a move arriving at `now` against a
/// state last ticked at `ts`: the elapsed time, clamped to be nonnegative
/// and to fit an `i64`.
pub open spec fn move_dt_ms(now: int, ts: int) -> int {
    if now - ts < 0 {
        0
    } else if now - ts > i64::MAX {
        i64::MAX as int
    } else {
        now - ts
    }
}

/// Whether a move of `delta` micro-units over `dt` milliseconds exceeds the
/// velocity cap of 2.5 units per second.
pub open spec fn is_cheating(delta: int, dt: int) -> bool {
    (if delta < 0 {
        -delta
    } else {
        delta
    }) * 1000 > MAX_UNITS_PER_SECOND_MICROS * dt
}

/// The motion, in micro-units, that the server applies for a move of `delta`
/// over `dt` milliseconds: the full `delta` under the cap, and the cap's
/// distance in the move's direction above it.
pub open spec fn applied_delta(delta: int, dt: int) -> int {
    if is_cheating(delta, dt) {
        if delta >= 0 {
            (MAX_UNITS_PER_SECOND_MICROS / 1000) * dt
        } else {
            -(MAX_UNITS_PER_SECOND_MICROS / 1000) * dt
        }
    } else {
        delta
    }
}

impl Default for State {
    /// An empty world: no players, no acknowledgements, next id zero, and the
    /// timestamp at the epoch.
    fn default() -> (r: Self)
        ensures
            r.players@ =~= Seq::<Player>::empty(),
            r.acknowledged@ =~= Seq::<u128>::empty(),
            r.timestamp == 0,
            r.new_player_id == 0,
            r.wf(),
    {
        Self { players: Vec::new(), timestamp: 0, new_player_id: 0, acknowledged: Vec::new() }
    }
}

impl State {
    /// The state's invariant: the roster is sorted by strictly increasing id,
    /// every id is below the next id to assign, and no acknowledgement is
    /// recorded twice.
    pub open spec fn wf(&self) -> bool {
        &&& roster_sorted(self.players@)
        &&& nodup_ids(self.acknowledged@)
        &&& forall|i: int| 0 <= i < self.players@.len() ==> (#[trigger] self.players@[i].id)
            < self.new_player_id
    }

    /// The roster as a finite map from player id to player.
    pub open spec fn players_map(&self) -> Map<int, Player> {
        roster_map(self.players@)
    }

    /// Find the roster index of a player by id.
    fn find_player(&self, player_id: usize) -> (r: Option<usize>)
        ensures
            match r {
                Some(i) => i < self.players@.len() && self.players@[i as int].id == player_id,
                None => forall|i: int| 0 <= i < self.players@.len() ==> (
                #[trigger] self.players@[i].id) != player_id,
            },
    {
        let mut i: usize = 0;
        while i < self.players.len()
            invariant
                i <= self.players@.len(),
                forall|j: int| 0 <= j < i ==> (#[trigger] self.players@[j].id) != player_id,
            decreases self.players@.len() - i,
        {
            if self.players[i].id == player_id {
                return Some(i);
            }
            i = i + 1;
        }
        None
    }

    /// Clears acknowledged requests that are part of the current state,
    /// to ensure no duplicate requests
    pub fn clear_ack(&mut self)
        ensures
            final(self).acknowledged@ =~= Seq::<u128>::empty(),
            final(self).players@ == old(self).players@,
            final(self).timestamp == old(self).timestamp,
            final(self).new_player_id == old(self).new_player_id,
            old(self).wf() ==> final(self).wf(),
    {
        self.acknowledged.clear();
    }

    /// Makes a player join the game, returning the player's ID.
    ///
    /// The new player starts at `x = 0`, has never jumped, and gets the next
    /// id; ids grow monotonically and are never reused.
    pub fn player_join(&mut self) -> (id: usize)
        requires
            old(self).wf(),
            old(self).new_player_id < usize::MAX,
        ensures
            final(self).wf(),
            id == old(self).new_player_id,
            final(self).new_player_id == old(self).new_player_id + 1,
            final(self).players_map() == old(self).players_map().insert(
                id as int,
                Player { id, x: 0i64, last_jump_at: None::<i64> },
            ),
            final(self).timestamp == old(self).timestamp,
            final(self).acknowledged@ == old(self).acknowledged@,
    {
        let id = self.new_player_id;
        self.new_player_id = self.new_player_id + 1;
        let player = Player::new(id);
        proof {
            lemma_roster_map_push(self.players@, player);
        }
        self.players.push(player);
        id
    }

    /// Makes a player leave the game, returning a [`StateError`] if the
    /// player does not exist. Exactly the player's roster entry is removed;
    /// an unknown id leaves the state unchanged.
    pub fn player_leave(&mut self, player_id: usize) -> (r: Result<(), StateError>)
        requires
            old(self).wf(),
        ensures
            final(self).wf(),
            final(self).timestamp == old(self).timestamp,
            final(self).acknowledged@ == old(self).acknowledged@,
            final(self).new_player_id == old(self).new_player_id,
            r is Ok <==> old(self).players_map().contains_key(
                player_id as int,
            ),
            r matches Ok(_) ==> final(self).players_map() == old(self).players_map().remove(
                player_id as int,
            ),
            r matches Err(e) ==> final(self).players_map() == old(self).players_map() && e
                == StateError::UnknownPlayer(player_id) && final(self).players@ == old(
                self,
            ).players@,
    {
        match self.find_player(player_id) {
            Some(i) => {
                proof {
                    lemma_roster_map_index(self.players@, i as int);
                    lemma_roster_map_remove(self.players@, i as int);
                }
                self.players.remove(i);
                Ok(())
            },
            None => {
                proof {
                    lemma_roster_map_absent(self.players@, player_id as int);
                }
                Err(StateError::UnknownPlayer(player_id))
            },
        }
    }

    /// Makes a player jump at the specified time.
    /// Time is sent by the frontend to ensure consistent jump animation in
    /// real-time.
    pub fn player_jump(&mut self, player_id: usize, at: i64) -> (r: Result<(), StateError>)
        requires
            old(self).wf(),
        ensures
            final(self).wf(),
            final(self).timestamp == old(self).timestamp,
            final(self).acknowledged@ == old(self).acknowledged@,
            final(self).new_player_id == old(self).new_player_id,
            r is Ok <==> old(self).players_map().contains_key(
                player_id as int,
            ),
            r matches Ok(_) ==> final(self).players_map() == old(self).players_map().insert(
                player_id as int,
                Player {
                    id: player_id,
                    x: old(self).players_map()[player_id as int].x,
                    last_jump_at: Some(at),
                },
            ),
            r matches Err(e) ==> final(self).players@ == old(self).players@
                && final(self).players_map() == old(self).players_map()
                && e == StateError::UnknownPlayer(player_id),
    {
        match self.find_player(player_id) {
            Some(i) => {
                proof {
                    lemma_roster_map_index(self.players@, i as int);
                }
                let mut p = self.players[i];
                p.last_jump_at = Some(at);
                proof {
                    lemma_roster_map_update(self.players@, i as int, p);
                }
                self.players[i] = p;
                Ok(())
            },
            None => {
                proof {
                    lemma_roster_map_absent(self.players@, player_id as int);
                }
                Err(StateError::UnknownPlayer(player_id))
            },
        }
    }

    /// Makes a player move, including cheat protection if the move is too
    /// long since the last game update, with the arrival time taken from the
    /// wall clock. Whatever instant the clock returns, an unknown player is
    /// rejected with nothing changed, and a known player's motion is the
    /// velocity-capped delta for some nonnegative elapsed time, with the
    /// acknowledgement recorded; [`State::player_move_at`] pins the outcome
    /// exactly for a given arrival time.
    pub fn player_move(&mut self, player_id: usize, delta_x: i64, ack_id: u128) -> (r: Result<
        (),
        StateError,
    >)
        requires
            old(self).wf(),
        ensures
            final(self).wf(),
            final(self).timestamp == old(self).timestamp,
            final(self).new_player_id == old(self).new_player_id,
            !old(self).players_map().contains_key(player_id as int) ==> r == Err::<
                (),
                StateError,
            >(StateError::UnknownPlayer(player_id)) && final(self).players@ == old(self).players@
                && final(self).acknowledged@ == old(self).acknowledged@,
            old(self).players_map().contains_key(player_id as int) ==> final(self).acknowledged@
                == ack_record(old(self).acknowledged@, ack_id) && exists|dt: int|
                {
                    &&& 0 <= dt <= i64::MAX
                    &&& final(self).players_map() == old(self).players_map().insert(
                        player_id as int,
                        Player {
                            id: player_id,
                            x: sat_i64(
                                old(self).players_map()[player_id as int].x + applied_delta(
                                    delta_x as int,
                                    dt,
                                ),
                            ) as i64,
                            last_jump_at: old(self).players_map()[player_id as int].last_jump_at,
                        },
                    )
                    &&& (r is Ok <==> !is_cheating(delta_x as int, dt))
                    &&& (is_cheating(delta_x as int, dt) ==> r == Err::<(), StateError>(
                        StateError::Cheating { units: delta_x, timeframe_ms: dt as i64 },
                    ))
                },
    {
        let now = now_millis();
        let r = self.player_move_at(player_id, delta_x, ack_id, now);
        proof {
            if old(self).players_map().contains_key(player_id as int) {
                let dt = move_dt_ms(now as int, old(self).timestamp as int);
                assert(0 <= dt <= i64::MAX);
            }
        }
        r
    }

    /// Makes a player move, including cheat protection if the move is too
    /// long since the last game update.
    ///
    /// `now_ms` is the wall-clock arrival time of the move. The motion
    /// applied is [`applied_delta`] of the requested delta over the time
    /// since the last tick, saturating at the `i64` range. The
    /// acknowledgement id is recorded exactly when the player exists (a
    /// capped move is applied clamped and still acknowledged); a move aimed
    /// at an unknown player is rejected and leaves the state untouched.
    pub fn player_move_at(
        &mut self,
        player_id: usize,
        delta_x: i64,
        ack_id: u128,
        now_ms: i64,
    ) -> (r: Result<(), StateError>)
        requires
            old(self).wf(),
        ensures
            final(self).wf(),
            final(self).timestamp == old(self).timestamp,
            final(self).new_player_id == old(self).new_player_id,
            ({
                let dt = move_dt_ms(now_ms as int, old(self).timestamp as int);
                let known = old(self).players_map().contains_key(player_id as int);
                let cheat = is_cheating(delta_x as int, dt);
                &&& (r is Ok <==> known && !cheat)
                &&& known ==> final(self).acknowledged@ == ack_record(
                    old(self).acknowledged@,
                    ack_id,
                )
                &&& !known ==> r == Err::<(), StateError>(StateError::UnknownPlayer(player_id))
                    && final(self).players@ == old(self).players@ && final(self).acknowledged@
                    == old(self).acknowledged@
                &&& known && cheat ==> r == Err::<(), StateError>(
                    StateError::Cheating { units: delta_x, timeframe_ms: dt as i64 },
                )
                &&& known ==> final(self).players_map() == old(self).players_map().insert(
                    player_id as int,
                    Player {
                        id: player_id,
                        x: sat_i64(
                            old(self).players_map()[player_id as int].x + applied_delta(
                                delta_x as int,
                                dt,
                            ),
                        ) as i64,
                        last_jump_at: old(self).players_map()[player_id as int].last_jump_at,
                    },
                )
            }),
    {
        let elapsed: i128 = now_ms as i128 - self.timestamp as i128;
        let dt: i64 = if elapsed < 0 {
            0
        } else if elapsed > i64::MAX as i128 {
            i64::MAX
        } else {
            elapsed as i64
        };
        assert(dt as int == move_dt_ms(now_ms as int, self.timestamp as int));

        let magnitude: i128 = if delta_x < 0 {
            -(delta_x as i128)
        } else {
            delta_x as i128
        };
        let cheating: bool = magnitude * 1000 > 2_500_000i128 * (dt as i128);
        assert(cheating == is_cheating(delta_x as int, dt as int));

        match self.find_player(player_id) {
            Some(i) => {
                proof {
                    lemma_roster_map_index(self.players@, i as int);
                }
                // The move is observably accepted (possibly clamped), so its
                // identifier is acknowledged.
                if !ack_contains(&self.acknowledged, ack_id) {
                    self.acknowledged.push(ack_id);
                    assert(self.acknowledged@ == ack_record(old(self).acknowledged@, ack_id));
                    assert forall|a: int, b: int|
                        0 <= a < b < self.acknowledged@.len() implies self.acknowledged@[a]
                        != self.acknowledged@[b] by {
                        if b < self.acknowledged@.len() - 1 {
                            assert(old(self).acknowledged@[a] != old(self).acknowledged@[b]);
                        }
                    }
                }
                let mut p = self.players[i];
                let applied: i128 = if cheating {
                    if delta_x >= 0 {
                        2500i128 * dt as i128
                    } else {
                        -(2500i128 * dt as i128)
                    }
                } else {
                    delta_x as i128
                };
                assert(applied as int == applied_delta(delta_x as int, dt as int));
                let wide: i128 = p.x as i128 + applied;
                p.x = if wide < i64::MIN as i128 {
                    i64::MIN
                } else if wide > i64::MAX as i128 {
                    i64::MAX
                } else {
                    wide as i64
                };
                proof {
                    lemma_roster_map_update(self.players@, i as int, p);
                }
                self.players[i] = p;
                if cheating {
                    Err(StateError::Cheating { units: delta_x, timeframe_ms: dt })
                } else {
                    Ok(())
                }
            },
            None => {
                proof {
                    lemma_roster_map_absent(self.players@, player_id as int);
                }
                Err(StateError::UnknownPlayer(player_id))
            },
        }
    }
}

/// Relies on `chrono::Utc::now` and `chrono::DateTime::timestamp_millis`:
/// the current wall-clock time as whole milliseconds since the Unix epoch.
/// The value depends on the clock, so nothing is promised of it beyond its
/// sign: on a machine whose clock is set before the epoch, `Utc::now` panics
/// inside the outside call rather than return such a time.
#[verifier::external_body]
pub(crate) fn now_millis() -> (r: i64)
    ensures
        r >= 0,
{
    chrono::Utc::now().timestamp_millis()
}

impl State {
    /// Update the timestamp of the game's last update to the present
    /// wall-clock time, serialize the snapshot, and clear the acknowledged
    /// set: returns the bytes to broadcast.
    pub fn tick(&mut self) -> (r: Vec<u8>)
        requires
            old(self).wf(),
        ensures
            final(self).wf(),
            final(self).players@ == old(self).players@,
            final(self).new_player_id == old(self).new_player_id,
            final(self).acknowledged@ =~= Seq::<u128>::empty(),
            r@ == crate::codec::enc_snapshot(
                old(self).players@,
                final(self).timestamp,
                old(self).acknowledged@,
            ),
    {
        let now = now_millis();
        self.tick_at(now)
    }

    /// Like [`State::tick`], with the tick instant supplied by the caller.
    /// The snapshot carries the acknowledgements gathered since the last
    /// broadcast; they are cleared before this returns, so each is
    /// broadcast exactly once.
    pub fn tick_at(&mut self, now_ms: i64) -> (r: Vec<u8>)
        requires
            old(self).wf(),
        ensures
            final(self).wf(),
            final(self).players@ == old(self).players@,
            final(self).new_player_id == old(self).new_player_id,
            final(self).timestamp == now_ms,
            final(self).acknowledged@ =~= Seq::<u128>::empty(),
            r@ == crate::codec::enc_snapshot(
                old(self).players@,
                now_ms,
                old(self).acknowledged@,
            ),
    {
        self.timestamp = now_ms;
        let message = crate::codec::encode_snapshot(self);
        self.clear_ack();
        message
    }

    /// A deep copy of the state, used by the client to mirror snapshots.
    pub fn duplicate(&self) -> (r: State)
        ensures
            state_like(r, *self),
    {
        State {
            players: vec_dup(&self.players),
            timestamp: self.timestamp,
            new_player_id: self.new_player_id,
            acknowledged: vec_dup(&self.acknowledged),
        }
    }
}

/// Whether the acknowledgement list already holds `id`.
pub(crate) fn ack_contains(s: &Vec<u128>, id: u128) -> (r: bool)
    ensures
        r == s@.contains(id),
{
    let mut i: usize = 0;
    while i < s.len()
        invariant
            i <= s@.len(),
            forall|j: int| 0 <= j < i ==> s@[j] != id,
        decreases s@.len() - i,
    {
        if s[i] == id {
            assert(s@.contains(id));
            return true;
        }
        i = i + 1;
    }
    false
}

} // verus!

//! The turn/placement state machine: units are placed in rounds, one per
//! participant per round; when every participant has placed its allotment,
//! play switches to a fixed turn rotation over the placed units.

use vstd::prelude::*;

verus! {

/// Commands that the state machine and the selection logic emit for the
/// surrounding engine to perform.
#[derive(Clone, Copy, Debug, PartialEq, Eq, Structural)]
pub enum GameEvent {
    /// Spawn a unit at the tile for the given participant.
    SpawnUnit(i32, i32, usize),
    /// Let the bot participant place its next unit.
    PlaceAiUnit(usize),
}

/// Notifications that the surrounding engine feeds back into the state
/// machine.
#[derive(Clone, Copy, Debug, PartialEq, Eq, Structural)]
pub enum GameStateEvent {
    /// A unit entity was created and registered on the board.
    SpawnedUnit(u64),
    /// A unit finished walking its path.
    MovedUnit(u64),
}

/// The phase of the game.
#[derive(Clone, Copy, Debug, PartialEq, Eq, Structural)]
pub enum GameStates {
    /// Placement phase: the participant with this id places a unit next, in
    /// the given round.
    Placing(usize, u32),
    /// Turn phase: the index into the turn order whose move it is, and
    /// whether that unit has moved yet.
    Turn(usize, bool),
}

/// Who controls a seat in the participant roster.
#[derive(Clone, Copy, Debug, PartialEq, Eq, Structural)]
pub enum Participant {
    Bot,
    Me,
}

/// The turn order that a units-per-participant table denotes, restricted to
/// the first `n` participants: each participant's units in placement order,
/// participants in ascending id order. This is exactly the ascending
/// (player id, placement index) order.
pub open spec fn turn_order_prefix(units: Seq<Seq<u64>>, n: int) -> Seq<Option<(usize, u64)>>
    decreases n,
{
    if n <= 0 {
        Seq::empty()
    } else {
        turn_order_prefix(units, n - 1) + units[n - 1].map(
            |k: int, u: u64| Some(((n - 1) as usize, u)),
        )
    }
}

/// The full turn order that a units-per-participant table denotes.
pub open spec fn turn_order_spec(units: Seq<Seq<u64>>) -> Seq<Option<(usize, u64)>> {
    turn_order_prefix(units, units.len() as int)
}

/// The total number of units in the first `n` rows of a
/// units-per-participant table.
pub open spec fn total_units(units: Seq<Seq<u64>>, n: int) -> int
    decreases n,
{
    if n <= 0 {
        0
    } else {
        total_units(units, n - 1) + units[n - 1].len()
    }
}

/// The turn order over the first `n` participants has one slot per placed
/// unit, each slot is occupied, carries a participant id below `n`, and the
/// slots stand in ascending (participant id, placement index) order: the
/// slot of participant `p`'s `k`-th unit is `total_units(units, p) + k`.
/// In particular the turn order is the same whatever real-time order the
/// placement notifications arrived in: it depends on the recorded table
/// alone.
pub proof fn lemma_turn_order_shape(units: Seq<Seq<u64>>, n: int)
    requires
        0 <= n <= units.len(),
    ensures
        turn_order_prefix(units, n).len() == total_units(units, n),
        forall|p: int, k: int|
            0 <= p < n && 0 <= k < units[p].len() ==> #[trigger] turn_order_prefix(units, n)[
                total_units(units, p) + k] == Some((p as usize, units[p][k])),
    decreases n,
{
    if n > 0 {
        lemma_turn_order_shape(units, n - 1);
        assert forall|p: int, k: int|
            0 <= p < n && 0 <= k < units[p].len() implies #[trigger] turn_order_prefix(units, n)[
            total_units(units, p) + k] == Some((p as usize, units[p][k])) by {
            lemma_total_units_nonneg(units, p);
            if p < n - 1 {
                assert(total_units(units, p) + k < total_units(units, n - 1)) by {
                    lemma_total_units_monotone(units, p + 1, n - 1);
                }
                assert(turn_order_prefix(units, n - 1)[total_units(units, p) + k] == Some(
                    (p as usize, units[p][k]),
                ));
            } else {
                let mapped = units[n - 1].map(|k2: int, u: u64| Some(((n - 1) as usize, u)));
                assert(total_units(units, p) + k == turn_order_prefix(units, n - 1).len() + k);
                assert(turn_order_prefix(units, n)[total_units(units, p) + k] == mapped[k]);
            }
        }
    }
}

/// Unit counts over a growing prefix only grow.
pub proof fn lemma_total_units_monotone(units: Seq<Seq<u64>>, a: int, b: int)
    requires
        0 <= a <= b,
    ensures
        total_units(units, a) <= total_units(units, b),
    decreases b - a,
{
    if a < b {
        lemma_total_units_monotone(units, a, b - 1);
    }
}

/// Counts are never negative.
pub proof fn lemma_total_units_nonneg(units: Seq<Seq<u64>>, n: int)
    ensures
        total_units(units, n) >= 0,
    decreases n,
{
    if n > 0 {
        lemma_total_units_nonneg(units, n - 1);
    }
}

/// The whole table holds at least the units of its row `p`.
pub proof fn lemma_total_units_lower(units: Seq<Seq<u64>>, p: int)
    requires
        0 <= p < units.len(),
    ensures
        total_units(units, units.len() as int) >= units[p].len(),
    decreases units.len(),
{
    lemma_total_units_nonneg(units, p);
    lemma_total_units_monotone(units, p + 1, units.len() as int);
}

/// The next index after `i` in a circular order of length `len`.
pub open spec fn step_idx(len: int, i: int) -> int {
    if i + 1 >= len {
        0
    } else {
        i + 1
    }
}

/// Scans at most `k` slots of the turn order circularly, starting at `i`,
/// and returns the first occupied index found.
pub open spec fn find_occupied(order: Seq<Option<(usize, u64)>>, i: int, k: nat) -> Option<int>
    decreases k,
{
    if k == 0 {
        None
    } else if order[i] is Some {
        Some(i)
    } else {
        find_occupied(order, step_idx(order.len() as int, i), (k - 1) as nat)
    }
}

/// The turn/placement state machine with its participant roster, the units
/// recorded per participant during placement, and the turn order built when
/// placement ends.
pub struct GameState {
    pub state: GameStates,
    pub participants: Vec<Participant>,
    pub turn_order: Vec<Option<(usize, u64)>>,
    pub units: Vec<Vec<u64>>,
    pub units_per_participant: u32,
}

/// What `place` does: outside the placement phase nothing changes; in it,
/// the unit is recorded under the current participant and the cursor
/// advances, wrapping into the next round past the last participant; when
/// the wrap completes the last round, the turn order is built and the phase
/// becomes `Turn(0, false)`. A `PlaceAiUnit` request is returned exactly
/// when placement continues and the next seat is a bot.
pub open spec fn place_post(
    pre: GameState,
    post: GameState,
    entity: u64,
    r: Option<GameEvent>,
) -> bool {
    &&& post.participants == pre.participants
    &&& post.units_per_participant_spec() == pre.units_per_participant_spec()
    &&& match pre.state {
        GameStates::Placing(pid, round) => {
            &&& post.units_spec() == pre.units_spec().update(
                pid as int,
                pre.units_spec()[pid as int].push(entity),
            )
            &&& {
                let len = pre.participants@.len();
                let upp = pre.units_per_participant_spec();
                if pid + 1 < len {
                    &&& post.state == GameStates::Placing((pid + 1) as usize, round)
                    &&& post.turn_order@.len() == 0
                    &&& r == (if pre.participants@[pid + 1] is Bot {
                        Some(GameEvent::PlaceAiUnit((pid + 1) as usize))
                    } else {
                        Option::<GameEvent>::None
                    })
                } else if round + 1 < upp {
                    &&& post.state == GameStates::Placing(0usize, (round + 1) as u32)
                    &&& post.turn_order@.len() == 0
                    &&& r == (if pre.participants@[0] is Bot {
                        Some(GameEvent::PlaceAiUnit(0usize))
                    } else {
                        Option::<GameEvent>::None
                    })
                } else {
                    &&& post.state == GameStates::Turn(0usize, false)
                    &&& post.turn_order@ == turn_order_spec(post.units_spec())
                    &&& r is None
                }
            }
        },
        GameStates::Turn(_, _) => post == pre && r is None,
    }
}

/// What `next_turn` does: in the turn phase the turn index moves to the
/// first occupied slot after the current one, scanning circularly, and the
/// did-move flag resets; when every slot is vacated, or outside the turn
/// phase, nothing changes.
pub open spec fn next_turn_post(pre: GameState, post: GameState) -> bool {
    &&& post.participants == pre.participants
    &&& post.turn_order == pre.turn_order
    &&& post.units_spec() == pre.units_spec()
    &&& post.units_per_participant_spec() == pre.units_per_participant_spec()
    &&& match pre.state {
        GameStates::Turn(cur, _) => post.state == (match find_occupied(
            pre.turn_order@,
            step_idx(pre.turn_order@.len() as int, cur as int),
            pre.turn_order@.len() as nat,
        ) {
            Some(i) => GameStates::Turn(i as usize, false),
            None => pre.state,
        }),
        GameStates::Placing(_, _) => post.state == pre.state,
    }
}

impl GameState {
    /// The units recorded so far, one sequence per participant id.
    pub open spec fn units_spec(&self) -> Seq<Seq<u64>> {
        self.units@.map_values(|v: Vec<u64>| v@)
    }

    /// How many units each participant places before the turn phase starts.
    pub open spec fn units_per_participant_spec(&self) -> u32 {
        self.units_per_participant
    }

    pub open spec fn wf(&self) -> bool {
        &&& self.units_spec().len() == self.participants@.len()
        &&& match self.state {
            GameStates::Placing(pid, round) => {
                &&& pid < self.participants@.len()
                &&& (round < self.units_per_participant_spec() || round == 0)
                &&& self.turn_order@.len() == 0
            },
            GameStates::Turn(ti, _) => ti < self.turn_order@.len(),
        }
        &&& forall|j: int|
            0 <= j < self.turn_order@.len() ==> match #[trigger] self.turn_order@[j] {
                Some((pid, _)) => pid < self.participants@.len(),
                None => true,
            }
    }

    /// A fresh state machine: placement starts with participant 0, round 0,
    /// no unit recorded and no turn order yet.
    pub fn new(participants: Vec<Participant>, units_per_participant: u32) -> (r: GameState)
        requires
            participants@.len() >= 1,
        ensures
            r.wf(),
            r.state == GameStates::Placing(0usize, 0u32),
            r.participants == participants,
            r.turn_order@.len() == 0,
            r.units_per_participant_spec() == units_per_participant,
            r.units_spec().len() == participants@.len(),
            forall|p: int| 0 <= p < participants@.len() ==> #[trigger] r.units_spec()[p].len() == 0,
    {
        let n = participants.len();
        let mut units: Vec<Vec<u64>> = Vec::new();
        let mut i: usize = 0;
        while i < n
            invariant
                i <= n,
                units@.len() == i,
                forall|p: int| 0 <= p < i ==> (#[trigger] units@[p])@.len() == 0,
            decreases n - i,
        {
            units.push(Vec::new());
            i = i + 1;
        }
        GameState {
            state: GameStates::Placing(0, 0),
            participants,
            turn_order: Vec::new(),
            units,
            units_per_participant,
        }
    }

    /// Records a placed unit for the participant whose turn it is to place
    /// and advances the placement cursor; see `place_post`. Returns the
    /// request to let the bot place next, when the cursor lands on a bot
    /// seat.
    pub fn place(&mut self, entity: u64) -> (r: Option<GameEvent>)
        requires
            old(self).wf(),
        ensures
            final(self).wf(),
            place_post(*old(self), *final(self), entity, r),
    {
        let (pid0, turn0) = match self.state {
            GameStates::Placing(pid, round) => (pid, round),
            GameStates::Turn(_, _) => {
                return None;
            },
        };

        let n_participants = self.participants.len();
        let row = &mut self.units[pid0];
        row.push(entity);
        proof {
            assert(self.units_spec() =~= old(self).units_spec().update(
                pid0 as int,
                old(self).units_spec()[pid0 as int].push(entity),
            ));
        }

        let mut player_id = pid0 + 1;
        let mut turn = turn0;
        if player_id >= n_participants {
            turn = turn + 1;
            player_id = 0;
            if turn >= self.units_per_participant {
                proof {
                    lemma_total_units_lower(self.units_spec(), pid0 as int);
                }
                self.end_place_phase();
                return None;
            }
        }

        self.state = GameStates::Placing(player_id, turn);
        if matches!(self.participants[player_id], Participant::Bot) {
            // The spawn itself happens through the event pipeline, never by
            // a direct recursive placement.
            Some(GameEvent::PlaceAiUnit(player_id))
        } else {
            None
        }
    }

    /// Builds the turn order from all recorded units — each participant's
    /// units in placement order, participants in ascending id order, which
    /// is the ascending (player id, placement index) order — and enters the
    /// turn phase at index 0.
    fn end_place_phase(&mut self)
        requires
            old(self).wf(),
            old(self).state is Placing,
            total_units(old(self).units_spec(), old(self).units_spec().len() as int) >= 1,
        ensures
            final(self).wf(),
            final(self).participants == old(self).participants,
            final(self).units_per_participant_spec() == old(self).units_per_participant_spec(),
            final(self).units_spec() == old(self).units_spec(),
            final(self).state == GameStates::Turn(0usize, false),
            final(self).turn_order@ == turn_order_spec(old(self).units_spec()),
    {
        let n = self.units.len();
        let mut order: Vec<Option<(usize, u64)>> = Vec::new();
        let mut p: usize = 0;
        while p < n
            invariant
                n == self.units@.len(),
                p <= n,
                self == old(self),
                order@ == turn_order_prefix(self.units_spec(), p as int),
            decreases n - p,
        {
            let m = self.units[p].len();
            let mut k: usize = 0;
            while k < m
                invariant
                    n == self.units@.len(),
                    p < n,
                    self == old(self),
                    m == self.units_spec()[p as int].len(),
                    k <= m,
                    order@ == turn_order_prefix(self.units_spec(), p as int)
                        + self.units_spec()[p as int].take(k as int).map(
                        |j: int, u: u64| Some((p, u)),
                    ),
                decreases m - k,
            {
                order.push(Some((p, self.units[p][k])));
                proof {
                    let us = self.units_spec()[p as int];
                    assert(us.take(k + 1).map(|j: int, u: u64| Some((p, u))) =~= us.take(
                        k as int,
                    ).map(|j: int, u: u64| Some((p, u))).push(Some((p, us[k as int]))));
                }
                k = k + 1;
            }
            proof {
                let us = self.units_spec()[p as int];
                assert(us.take(m as int) =~= us);
                assert(order@ =~= turn_order_prefix(self.units_spec(), p as int + 1));
            }
            p = p + 1;
        }
        self.turn_order = order;
        self.state = GameStates::Turn(0, false);
        proof {
            lemma_turn_order_shape(self.units_spec(), n as int);
            assert forall|j: int|
                0 <= j < self.turn_order@.len() implies match #[trigger] self.turn_order@[j] {
                Some((pid, _)) => pid < self.participants@.len(),
                None => true,
            } by {
                lemma_turn_order_entry(self.units_spec(), n as int, j);
            }
        }
    }

    /// Advances the turn index circularly, skipping vacated (`None`) slots,
    /// and resets the did-move flag for the new turn holder; see
    /// `next_turn_post`. Outside the turn phase, or when no occupied slot
    /// exists at all, this is a defined no-op.
    pub fn next_turn(&mut self)
        requires
            old(self).wf(),
        ensures
            final(self).wf(),
            next_turn_post(*old(self), *final(self)),
    {
        let current_turn = match self.state {
            GameStates::Turn(cur, _) => cur,
            GameStates::Placing(_, _) => {
                return;
            },
        };

        let len = self.turn_order.len();
        let mut idx = current_turn;
        let mut k: usize = 0;
        while k < len
            invariant
                old(self).wf(),
                old(self).state matches GameStates::Turn(c, _) && c == current_turn,
                len == self.turn_order@.len(),
                current_turn < len,
                idx < len,
                k <= len,
                self == old(self),
                find_occupied(
                    self.turn_order@,
                    step_idx(len as int, current_turn as int),
                    len as nat,
                ) == find_occupied(
                    self.turn_order@,
                    step_idx(len as int, idx as int),
                    (len - k) as nat,
                ),
            decreases len - k,
        {
            idx = if idx >= len - 1 {
                0
            } else {
                idx + 1
            };
            k = k + 1;
            if self.turn_order[idx].is_some() {
                self.state = GameStates::Turn(idx, false);
                return;
            }
        }
        // Every slot is vacated: leave the state as it is rather than loop.
    }

    /// Feeds one engine notification into the state machine: a spawned unit
    /// is recorded as a placement, a finished move advances the turn.
    pub fn handle_event(&mut self, event: GameStateEvent) -> (r: Option<GameEvent>)
        requires
            old(self).wf(),
        ensures
            final(self).wf(),
            match event {
                GameStateEvent::SpawnedUnit(e) => place_post(*old(self), *final(self), e, r),
                GameStateEvent::MovedUnit(_) => next_turn_post(*old(self), *final(self)) && r
                    is None,
            },
    {
        match event {
            GameStateEvent::SpawnedUnit(entity) => self.place(entity),
            GameStateEvent::MovedUnit(_) => {
                self.next_turn();
                None
            },
        }
    }
}

/// Every slot of the built turn order is occupied and carries a participant
/// id below the table's length.
pub proof fn lemma_turn_order_entry(units: Seq<Seq<u64>>, n: int, j: int)
    requires
        0 <= n <= units.len(),
        0 <= j < turn_order_prefix(units, n).len(),
    ensures
        turn_order_prefix(units, n)[j] matches Some((pid, _)) && pid < n,
    decreases n,
{
    if n > 0 {
        if j < turn_order_prefix(units, n - 1).len() {
            lemma_turn_order_entry(units, n - 1, j);
        }
    }
}

/// The built turn order is sorted ascending by participant id: placement
/// order within one participant, participants in id order.
pub proof fn lemma_turn_order_sorted(units: Seq<Seq<u64>>, n: int, a: int, b: int)
    requires
        0 <= n <= units.len(),
        n <= usize::MAX,
        0 <= a <= b < turn_order_prefix(units, n).len(),
    ensures
        turn_order_prefix(units, n)[a] matches Some((pa, _)) && turn_order_prefix(units, n)[b]
            matches Some((pb, _)) && pa <= pb,
    decreases n,
{
    if n > 0 {
        lemma_turn_order_shape(units, n);
        lemma_turn_order_shape(units, n - 1);
        let prefix = turn_order_prefix(units, n - 1);
        if b < prefix.len() {
            lemma_turn_order_sorted(units, n - 1, a, b);
        } else {
            let k = b - prefix.len();
            assert(turn_order_prefix(units, n)[total_units(units, n - 1) + k] == Some(
                ((n - 1) as usize, units[n - 1][k]),
            ));
            if a < prefix.len() {
                lemma_turn_order_entry(units, n - 1, a);
            } else {
                let ka = a - prefix.len();
                assert(turn_order_prefix(units, n)[total_units(units, n - 1) + ka] == Some(
                    ((n - 1) as usize, units[n - 1][ka]),
                ));
            }
        }
    }
}

/// How far placement has come: the number of units placed so far, read off
/// the placement cursor; a finished placement counts the full roster.
pub open spec fn placement_count(gs: GameState) -> int {
    match gs.state {
        GameStates::Placing(pid, round) => round * gs.participants@.len() + pid,
        GameStates::Turn(_, _) => gs.participants@.len()
            * gs.units_per_participant_spec(),
    }
}

/// Placement wraparound: each placement raises the placement count by one,
/// and exactly the `participants * units_per_participant`-th placement ends
/// the phase in `Turn(0, false)` — never in `Placing`.
pub proof fn lemma_placement_wraparound(
    pre: GameState,
    post: GameState,
    entity: u64,
    r: Option<GameEvent>,
)
    requires
        pre.wf(),
        pre.state is Placing,
        pre.units_per_participant_spec() >= 1,
        place_post(pre, post, entity, r),
    ensures
        placement_count(post) == placement_count(pre) + 1,
        placement_count(post) == pre.participants@.len() * pre.units_per_participant_spec()
            ==> post.state == GameStates::Turn(0usize, false),
        placement_count(post) < pre.participants@.len() * pre.units_per_participant_spec()
            ==> post.state is Placing,
{
    vstd::std_specs::vec::axiom_spec_len(&pre.participants);
    let len = pre.participants@.len() as int;
    let upp = pre.units_per_participant_spec() as int;
    let (pid, round) = (pre.state->Placing_0 as int, pre.state->Placing_1 as int);
    assert(pid < len && (round < upp || round == 0));
    assert(round <= upp - 1);
    if pid + 1 < len {
        assert((pid + 1) as usize as int == pid + 1);
        assert(placement_count(post) == round * len + pid + 1);
        assert(round * len + pid + 1 < upp * len) by (nonlinear_arith)
            requires
                0 <= round && round <= upp - 1,
                0 <= pid && pid + 1 < len,
                upp >= 1,
        ;
    } else if round + 1 < upp {
        assert(pid == len - 1);
        assert((round + 1) * len == round * len + len) by (nonlinear_arith);
        assert(placement_count(post) == round * len + len);
        assert((round + 1) * len < upp * len) by (nonlinear_arith)
            requires
                round + 1 < upp,
                len >= 1,
        ;
    } else {
        assert(pid == len - 1);
        assert(round == upp - 1);
        assert(upp * len == round * len + len) by (nonlinear_arith)
            requires
                round == upp - 1,
        ;
        assert(placement_count(post) == len * upp);
        assert(placement_count(post) == placement_count(pre) + 1);
    }
}

} // verus!

//! The parts of a power-paired draw that do not depend on the optimiser:
//! the range of points the brackets span, the rank bracket of a team, and
//! the rooms read off an optimal placement of teams.
use vstd::prelude::*;
use vstd::multiset::Multiset;
use crate::participants::Team;
use crate::drawgen::TeamsOfRoom;
use crate::standings::{TeamStandings, wins_of};

verus! {

/// The teams of the standings, bracket by bracket, best bracket first.
pub open spec fn ranked_teams(brackets: Seq<Vec<Team>>) -> Seq<Team>
    decreases brackets.len(),
{
    if brackets.len() == 0 {
        seq![]
    } else {
        ranked_teams(brackets.drop_last()) + brackets.last()@
    }
}

/// Every ranked team has a number of wins in the standings.
pub open spec fn all_ranked_have_points(s: TeamStandings) -> bool {
    forall|k: int| 0 <= k < ranked_teams(s.ranked@).len() ==> (#[trigger] wins_of(s, ranked_teams(s.ranked@)[k].id@)) is Some
}

/// The wins of the `k`th ranked team.
pub open spec fn ranked_points(s: TeamStandings, k: int) -> int {
    wins_of(s, ranked_teams(s.ranked@)[k].id@)->0 as int
}

/// `lo` and `hi` are the fewest and the most wins among the ranked teams.
pub open spec fn is_points_range(s: TeamStandings, lo: int, hi: int) -> bool {
    &&& forall|k: int| 0 <= k < ranked_teams(s.ranked@).len() ==> lo <= #[trigger] ranked_points(s, k) <= hi
    &&& exists|k: int| 0 <= k < ranked_teams(s.ranked@).len() && #[trigger] ranked_points(s, k) == lo
    &&& exists|k: int| 0 <= k < ranked_teams(s.ranked@).len() && #[trigger] ranked_points(s, k) == hi
}

proof fn lemma_ranked_teams_push(brackets: Seq<Vec<Team>>, i: int)
    requires
        0 <= i < brackets.len(),
    ensures
        ranked_teams(brackets.take(i + 1)) == ranked_teams(brackets.take(i)) + brackets[i]@,
{
    assert(brackets.take(i + 1).drop_last() =~= brackets.take(i));
}

impl TeamStandings {
    /// The fewest and the most wins among the ranked teams; the draw has
    /// a bracket for every number of wins in between. There must be at
    /// least two ranked teams, each with its wins recorded.
    pub fn points_range(&self) -> (r: (i64, i64))
        requires
            ranked_teams(self.ranked@).len() >= 2,
            all_ranked_have_points(*self),
        ensures
            is_points_range(*self, r.0 as int, r.1 as int),
    {
        let ghost all = ranked_teams(self.ranked@);
        let mut range: Option<(i64, i64)> = None;
        let mut b: usize = 0;
        while b < self.ranked.len()
            invariant
                b <= self.ranked@.len(),
                all == ranked_teams(self.ranked@),
                all_ranked_have_points(*self),
                ranked_teams(self.ranked@.take(b as int)).len() <= all.len(),
                forall|k: int| 0 <= k < ranked_teams(self.ranked@.take(b as int)).len()
                    ==> #[trigger] ranked_teams(self.ranked@.take(b as int))[k] == all[k],
                range is None <==> ranked_teams(self.ranked@.take(b as int)).len() == 0,
                range matches Some((lo, hi)) ==> {
                    &&& forall|k: int| 0 <= k < ranked_teams(self.ranked@.take(b as int)).len()
                        ==> lo <= #[trigger] ranked_points(*self, k) <= hi
                    &&& exists|k: int| 0 <= k < ranked_teams(self.ranked@.take(b as int)).len()
                        && #[trigger] ranked_points(*self, k) == lo
                    &&& exists|k: int| 0 <= k < ranked_teams(self.ranked@.take(b as int)).len()
                        && #[trigger] ranked_points(*self, k) == hi
                },
            decreases self.ranked@.len() - b,
        {
            let ghost before = ranked_teams(self.ranked@.take(b as int));
            proof {
                lemma_ranked_teams_push(self.ranked@, b as int);
                lemma_ranked_teams_prefix(self.ranked@, b as int + 1);
            }
            let bracket = &self.ranked[b];
            let mut t: usize = 0;
            while t < bracket.len()
                invariant
                    b < self.ranked@.len(),
                    *bracket == self.ranked@[b as int],
                    t <= bracket@.len(),
                    all == ranked_teams(self.ranked@),
                    all_ranked_have_points(*self),
                    before == ranked_teams(self.ranked@.take(b as int)),
                    ranked_teams(self.ranked@.take(b as int + 1)) == before + bracket@,
                    before.len() + bracket@.len() <= all.len(),
                    forall|k: int| 0 <= k < before.len() + bracket@.len()
                        ==> #[trigger] (before + bracket@)[k] == all[k],
                    range is None <==> before.len() + t == 0,
                    range matches Some((lo, hi)) ==> {
                        &&& forall|k: int| 0 <= k < before.len() + t ==> lo <= #[trigger] ranked_points(*self, k) <= hi
                        &&& exists|k: int| 0 <= k < before.len() + t && #[trigger] ranked_points(*self, k) == lo
                        &&& exists|k: int| 0 <= k < before.len() + t && #[trigger] ranked_points(*self, k) == hi
                    },
                decreases bracket@.len() - t,
            {
                let ghost k = before.len() + t;
                proof {
                    assert((before + bracket@)[k] == bracket@[t as int]);
                    assert(all[k] == bracket@[t as int]);
                    assert(wins_of(*self, all[k].id@) is Some);
                }
                let p = self.points_of_team(&bracket[t].id).unwrap();
                assert(ranked_points(*self, k) == p);
                range = match range {
                    None => Some((p, p)),
                    Some((lo, hi)) => Some((if p < lo { p } else { lo }, if p > hi { p } else { hi })),
                };
                t = t + 1;
            }
            b = b + 1;
        }
        proof {
            assert(self.ranked@.take(self.ranked@.len() as int) =~= self.ranked@);
        }
        match range {
            Some(x) => x,
            None => (0, 0),
        }
    }
}

proof fn lemma_ranked_teams_prefix(brackets: Seq<Vec<Team>>, n: int)
    requires
        0 <= n <= brackets.len(),
    ensures
        ranked_teams(brackets.take(n)).len() <= ranked_teams(brackets).len(),
        forall|k: int| 0 <= k < ranked_teams(brackets.take(n)).len()
            ==> #[trigger] ranked_teams(brackets.take(n))[k] == ranked_teams(brackets)[k],
    decreases brackets.len(),
{
    if n < brackets.len() {
        assert(brackets.drop_last().take(n) =~= brackets.take(n));
        lemma_ranked_teams_prefix(brackets.drop_last(), n);
    } else {
        assert(brackets.take(n) =~= brackets);
    }
}

} // verus!

verus! {

/// Whether a bracket holds team `id`.
pub open spec fn bracket_has(bracket: Vec<Team>, id: Seq<char>) -> bool {
    exists|k: int| 0 <= k < bracket@.len() && (#[trigger] bracket@[k]).id@ == id
}

impl TeamStandings {
    /// The index of the first bracket (best first) that holds the team:
    /// how many brackets rank above it.
    pub fn bracket_of_team(&self, team_id: &String) -> (r: Option<usize>)
        ensures
            r matches Some(i) ==> i < self.ranked@.len() && bracket_has(self.ranked@[i as int], team_id@)
                && forall|j: int| 0 <= j < i ==> !bracket_has(#[trigger] self.ranked@[j], team_id@),
            r is None ==> forall|j: int| 0 <= j < self.ranked@.len() ==> !bracket_has(#[trigger] self.ranked@[j], team_id@),
    {
        let mut b: usize = 0;
        while b < self.ranked.len()
            invariant
                b <= self.ranked@.len(),
                forall|j: int| 0 <= j < b ==> !bracket_has(#[trigger] self.ranked@[j], team_id@),
            decreases self.ranked@.len() - b,
        {
            let bracket = &self.ranked[b];
            let mut t: usize = 0;
            while t < bracket.len()
                invariant
                    b < self.ranked@.len(),
                    *bracket == self.ranked@[b as int],
                    t <= bracket@.len(),
                    forall|j: int| 0 <= j < b ==> !bracket_has(#[trigger] self.ranked@[j], team_id@),
                    forall|k: int| 0 <= k < t ==> (#[trigger] bracket@[k]).id@ != team_id@,
                decreases bracket@.len() - t,
            {
                if bracket[t].id == *team_id {
                    assert(bracket@[t as int].id@ == team_id@);
                    assert(bracket_has(self.ranked@[b as int], team_id@));
                    return Some(b);
                }
                t = t + 1;
            }
            b = b + 1;
        }
        None
    }
}

} // verus!

verus! {

/// The teams whose flag is set, in order.
pub open spec fn flagged(teams: Seq<Team>, flags: Seq<bool>) -> Seq<Team>
    decreases teams.len(),
{
    if teams.len() == 0 {
        seq![]
    } else {
        let rest = flagged(teams.drop_last(), flags);
        if flags[teams.len() - 1] {
            rest.push(teams.last())
        } else {
            rest
        }
    }
}

/// The teams one side of a room gets: position by position among the
/// first `n`, those of the positions of the side's parity (even positions
/// are proposition, odd ones opposition), each position's teams in order.
pub open spec fn side_of_room(teams: Seq<Team>, room: Seq<Seq<bool>>, parity: int, n: int) -> Seq<Team>
    decreases n,
{
    if n <= 0 {
        seq![]
    } else {
        side_of_room(teams, room, parity, n - 1) + if (n - 1) % 2 == parity {
            flagged(teams, room[n - 1])
        } else {
            seq![]
        }
    }
}

/// The placement of one room, position by position.
pub open spec fn room_view(room: Vec<Vec<bool>>) -> Seq<Seq<bool>> {
    room@.map_values(|p: Vec<bool>| p@)
}

/// The proposition teams of a room of the placement.
pub open spec fn prop_of_room(teams: Seq<Team>, room: Vec<Vec<bool>>) -> Seq<Team> {
    side_of_room(teams, room_view(room), 0, room@.len() as int)
}

/// The opposition teams of a room of the placement.
pub open spec fn opp_of_room(teams: Seq<Team>, room: Vec<Vec<bool>>) -> Seq<Team> {
    side_of_room(teams, room_view(room), 1, room@.len() as int)
}

/// A placement of teams: for each room, for each position, a flag for each
/// team saying whether the team holds the position.
pub open spec fn placement_fits(teams: Seq<Team>, placement: Seq<Vec<Vec<bool>>>) -> bool {
    forall|r: int, p: int|
        0 <= r < placement.len() && 0 <= p < placement[r]@.len() ==> (#[trigger] placement[r]@[p])@.len() == teams.len()
}

/// Every room of the placement has as many proposition as opposition
/// teams.
pub open spec fn placement_balanced(teams: Seq<Team>, placement: Seq<Vec<Vec<bool>>>) -> bool {
    forall|r: int|
        0 <= r < placement.len() ==> prop_of_room(teams, #[trigger] placement[r]).len() == opp_of_room(teams, placement[r]).len()
}

/// Appends the teams whose flag is set.
fn push_flagged(out: &mut Vec<Team>, teams: &Vec<Team>, flags: &Vec<bool>)
    requires
        flags@.len() == teams@.len(),
    ensures
        final(out)@ == old(out)@ + flagged(teams@, flags@),
{
    let ghost start = out@;
    let mut i: usize = 0;
    while i < teams.len()
        invariant
            i <= teams@.len(),
            flags@.len() == teams@.len(),
            out@ == start + flagged(teams@.take(i as int), flags@),
        decreases teams@.len() - i,
    {
        proof {
            assert(teams@.take(i as int + 1).drop_last() =~= teams@.take(i as int));
        }
        if flags[i] {
            out.push(teams[i].clone());
            assert(out@ =~= start + flagged(teams@.take(i as int + 1), flags@));
        }
        i = i + 1;
    }
    proof {
        assert(teams@.take(teams@.len() as int) =~= teams@);
    }
}

/// The number of flags set.
fn count_flagged(flags: &Vec<bool>, teams: &Vec<Team>) -> (n: usize)
    requires
        flags@.len() == teams@.len(),
    ensures
        n == flagged(teams@, flags@).len(),
{
    let mut n: usize = 0;
    let mut i: usize = 0;
    while i < flags.len()
        invariant
            i <= flags@.len(),
            flags@.len() == teams@.len(),
            n == flagged(teams@.take(i as int), flags@).len(),
            n <= i,
        decreases flags@.len() - i,
    {
        proof {
            assert(teams@.take(i as int + 1).drop_last() =~= teams@.take(i as int));
        }
        if flags[i] {
            n = n + 1;
        }
        i = i + 1;
    }
    proof {
        assert(teams@.take(teams@.len() as int) =~= teams@);
    }
    n
}

proof fn lemma_side_step(teams: Seq<Team>, room: Vec<Vec<bool>>, parity: int, p: int)
    requires
        0 <= p < room@.len(),
    ensures
        side_of_room(teams, room_view(room), parity, p + 1) == side_of_room(teams, room_view(room), parity, p)
            + if p % 2 == parity { flagged(teams, room@[p]@) } else { seq![] },
{
    assert(room_view(room)[p] == room@[p]@);
}

/// The number of teams flagged never exceeds the number of teams.
proof fn lemma_flagged_len(teams: Seq<Team>, flags: Seq<bool>)
    ensures
        flagged(teams, flags).len() <= teams.len(),
    decreases teams.len(),
{
    if teams.len() > 0 {
        lemma_flagged_len(teams.drop_last(), flags);
    }
}

/// Whether every room of the placement has as many proposition as
/// opposition teams.
pub fn placement_is_balanced(teams: &Vec<Team>, placement: &Vec<Vec<Vec<bool>>>) -> (r: bool)
    requires
        placement_fits(teams@, placement@),
    ensures
        r == placement_balanced(teams@, placement@),
{
    let mut r: usize = 0;
    while r < placement.len()
        invariant
            r <= placement@.len(),
            placement_fits(teams@, placement@),
            forall|k: int| 0 <= k < r ==> prop_of_room(teams@, #[trigger] placement@[k]).len() == opp_of_room(teams@, placement@[k]).len(),
        decreases placement@.len() - r,
    {
        let room = &placement[r];
        let team_count = teams.len();
        let mut prop: u128 = 0;
        let mut opp: u128 = 0;
        let mut p: usize = 0;
        while p < room.len()
            invariant
                r < placement@.len(),
                *room == placement@[r as int],
                p <= room@.len(),
                placement_fits(teams@, placement@),
                prop == side_of_room(teams@, room_view(*room), 0, p as int).len(),
                opp == side_of_room(teams@, room_view(*room), 1, p as int).len(),
                team_count == teams@.len(),
                prop <= p * teams@.len(),
                opp <= p * teams@.len(),
            decreases room@.len() - p,
        {
            proof {
                lemma_side_step(teams@, *room, 0, p as int);
                lemma_side_step(teams@, *room, 1, p as int);
                assert((placement@[r as int]@[p as int])@.len() == teams@.len());
                lemma_flagged_len(teams@, room@[p as int]@);
                let t = team_count as int;
                let q = p as int;
                assert((q + 1) * t == q * t + t) by (nonlinear_arith);
                assert((q + 1) * t <= 0xFFFF_FFFF_FFFF_FFFF * 0xFFFF_FFFF_FFFF_FFFF) by (nonlinear_arith)
                    requires
                        0 <= q + 1 <= 0xFFFF_FFFF_FFFF_FFFF,
                        0 <= t <= 0xFFFF_FFFF_FFFF_FFFF,
                ;
            }
            let n = count_flagged(&room[p], teams);
            if p % 2 == 0 {
                prop = prop + n as u128;
            } else {
                opp = opp + n as u128;
            }
            p = p + 1;
        }
        if prop != opp {
            return false;
        }
        r = r + 1;
    }
    true
}

/// The rooms of a draw read off a placement of the teams: for each room,
/// the teams at its even positions are proposition teams and those at its
/// odd positions opposition teams, position by position, each position's
/// teams in the order of `teams`. Every room must be balanced.
pub fn rooms_of_placement(teams: &Vec<Team>, placement: &Vec<Vec<Vec<bool>>>) -> (rooms: Vec<TeamsOfRoom>)
    requires
        placement_fits(teams@, placement@),
        placement_balanced(teams@, placement@),
    ensures
        rooms@.len() == placement@.len(),
        forall|k: int|
            0 <= k < rooms@.len() ==> (#[trigger] rooms@[k]).0@ == prop_of_room(teams@, placement@[k])
                && rooms@[k].1@ == opp_of_room(teams@, placement@[k]),
{
    let mut rooms: Vec<TeamsOfRoom> = Vec::new();
    let mut r: usize = 0;
    while r < placement.len()
        invariant
            r <= placement@.len(),
            placement_fits(teams@, placement@),
            rooms@.len() == r,
            forall|k: int|
                0 <= k < r ==> (#[trigger] rooms@[k]).0@ == prop_of_room(teams@, placement@[k])
                    && rooms@[k].1@ == opp_of_room(teams@, placement@[k]),
        decreases placement@.len() - r,
    {
        let room = &placement[r];
        let mut prop: Vec<Team> = Vec::new();
        let mut opp: Vec<Team> = Vec::new();
        let mut p: usize = 0;
        while p < room.len()
            invariant
                r < placement@.len(),
                *room == placement@[r as int],
                p <= room@.len(),
                placement_fits(teams@, placement@),
                prop@ == side_of_room(teams@, room_view(*room), 0, p as int),
                opp@ == side_of_room(teams@, room_view(*room), 1, p as int),
            decreases room@.len() - p,
        {
            proof {
                lemma_side_step(teams@, *room, 0, p as int);
                lemma_side_step(teams@, *room, 1, p as int);
                assert((placement@[r as int]@[p as int])@.len() == teams@.len());
            }
            if p % 2 == 0 {
                push_flagged(&mut prop, teams, &room[p]);
                assert(opp@ =~= side_of_room(teams@, room_view(*room), 1, p as int + 1));
            } else {
                push_flagged(&mut opp, teams, &room[p]);
                assert(prop@ =~= side_of_room(teams@, room_view(*room), 0, p as int + 1));
            }
            p = p + 1;
        }
        rooms.push((prop, opp));
        r = r + 1;
    }
    rooms
}

} // verus!

verus! {

/// The number of positions among the first `n` of a room that hold the
/// team at index `t`.
pub open spec fn room_count(room: Seq<Seq<bool>>, t: int, n: int) -> nat
    decreases n,
{
    if n <= 0 {
        0
    } else {
        room_count(room, t, n - 1) + if room[n - 1][t] { 1nat } else { 0nat }
    }
}

/// The number of positions of the first `m` rooms of a placement that hold
/// the team at index `t`.
pub open spec fn placed_times(placement: Seq<Vec<Vec<bool>>>, t: int, m: int) -> nat
    decreases m,
{
    if m <= 0 {
        0
    } else {
        placed_times(placement, t, m - 1) + room_count(room_view(placement[m - 1]), t, placement[m - 1]@.len() as int)
    }
}

/// Every team holds exactly one position of one room.
pub open spec fn places_each_team_once(teams: Seq<Team>, placement: Seq<Vec<Vec<bool>>>) -> bool {
    forall|t: int| 0 <= t < teams.len() ==> #[trigger] placed_times(placement, t, placement.len() as int) == 1
}

/// The teams of the first `m` rooms of a placement, room by room, the
/// proposition teams of a room before its opposition teams.
pub open spec fn drawn_teams(teams: Seq<Team>, placement: Seq<Vec<Vec<bool>>>, m: int) -> Seq<Team>
    decreases m,
{
    if m <= 0 {
        seq![]
    } else {
        drawn_teams(teams, placement, m - 1) + prop_of_room(teams, placement[m - 1]) + opp_of_room(
            teams,
            placement[m - 1],
        )
    }
}

spec fn room_teams(teams: Seq<Team>, room: Seq<Seq<bool>>, n: int) -> Multiset<Team>
    decreases n,
{
    if n <= 0 {
        Multiset::empty()
    } else {
        room_teams(teams, room, n - 1).add(flagged(teams, room[n - 1]).to_multiset())
    }
}

spec fn placement_teams(teams: Seq<Team>, placement: Seq<Vec<Vec<bool>>>, m: int) -> Multiset<Team>
    decreases m,
{
    if m <= 0 {
        Multiset::empty()
    } else {
        placement_teams(teams, placement, m - 1).add(
            room_teams(teams, room_view(placement[m - 1]), placement[m - 1]@.len() as int),
        )
    }
}

proof fn lemma_flagged_step(teams: Seq<Team>, flags: Seq<bool>, n: int, v: Team)
    requires
        1 <= n <= teams.len(),
    ensures
        flagged(teams.take(n), flags).to_multiset().count(v) == flagged(teams.take(n - 1), flags).to_multiset().count(v)
            + if flags[n - 1] && v == teams[n - 1] { 1nat } else { 0nat },
{
    broadcast use vstd::seq_lib::group_to_multiset_ensures, vstd::multiset::group_multiset_axioms;

    assert(teams.take(n).drop_last() =~= teams.take(n - 1));
    assert(teams.take(n).last() == teams[n - 1]);
}

proof fn lemma_room_step(teams: Seq<Team>, room: Seq<Seq<bool>>, n: int, k: int, v: Team)
    requires
        1 <= n <= teams.len(),
    ensures
        room_teams(teams.take(n), room, k).count(v) == room_teams(teams.take(n - 1), room, k).count(v)
            + if v == teams[n - 1] { room_count(room, n - 1, k) } else { 0nat },
    decreases k,
{
    broadcast use vstd::multiset::group_multiset_axioms;

    if k > 0 {
        lemma_room_step(teams, room, n, k - 1, v);
        lemma_flagged_step(teams, room[k - 1], n, v);
    }
}

proof fn lemma_placement_step(teams: Seq<Team>, placement: Seq<Vec<Vec<bool>>>, n: int, m: int, v: Team)
    requires
        1 <= n <= teams.len(),
    ensures
        placement_teams(teams.take(n), placement, m).count(v) == placement_teams(teams.take(n - 1), placement, m).count(
            v,
        ) + if v == teams[n - 1] { placed_times(placement, n - 1, m) } else { 0nat },
    decreases m,
{
    broadcast use vstd::multiset::group_multiset_axioms;

    if m > 0 {
        lemma_placement_step(teams, placement, n, m - 1, v);
        lemma_room_step(teams, room_view(placement[m - 1]), n, placement[m - 1]@.len() as int, v);
    }
}

proof fn lemma_no_teams_placed(teams: Seq<Team>, placement: Seq<Vec<Vec<bool>>>, m: int, v: Team)
    requires
        teams.len() == 0,
    ensures
        placement_teams(teams, placement, m).count(v) == 0,
    decreases m,
{
    broadcast use vstd::multiset::group_multiset_axioms;

    if m > 0 {
        lemma_no_teams_placed(teams, placement, m - 1, v);
        lemma_no_teams_in_room(teams, room_view(placement[m - 1]), placement[m - 1]@.len() as int, v);
    }
}

proof fn lemma_no_teams_in_room(teams: Seq<Team>, room: Seq<Seq<bool>>, n: int, v: Team)
    requires
        teams.len() == 0,
    ensures
        room_teams(teams, room, n).count(v) == 0,
    decreases n,
{
    broadcast use vstd::multiset::group_multiset_axioms, vstd::seq_lib::group_to_multiset_ensures;

    if n > 0 {
        lemma_no_teams_in_room(teams, room, n - 1, v);
        assert(flagged(teams, room[n - 1]) =~= Seq::<Team>::empty());
    }
}

proof fn lemma_placed_prefix(teams: Seq<Team>, placement: Seq<Vec<Vec<bool>>>, n: int, v: Team)
    requires
        places_each_team_once(teams, placement),
        0 <= n <= teams.len(),
    ensures
        placement_teams(teams.take(n), placement, placement.len() as int).count(v) == teams.take(n).to_multiset().count(v),
    decreases n,
{
    broadcast use vstd::multiset::group_multiset_axioms, vstd::seq_lib::group_to_multiset_ensures;

    if n == 0 {
        lemma_no_teams_placed(teams.take(0), placement, placement.len() as int, v);
        assert(teams.take(0) =~= Seq::<Team>::empty());
    } else {
        lemma_placed_prefix(teams, placement, n - 1, v);
        lemma_placement_step(teams, placement, n, placement.len() as int, v);
        assert(placed_times(placement, n - 1, placement.len() as int) == 1);
        assert(teams.take(n) =~= teams.take(n - 1).push(teams[n - 1]));
    }
}

proof fn lemma_sides_of_room(teams: Seq<Team>, room: Seq<Seq<bool>>, n: int, v: Team)
    requires
        0 <= n,
    ensures
        (side_of_room(teams, room, 0, n) + side_of_room(teams, room, 1, n)).to_multiset().count(v) == room_teams(
            teams,
            room,
            n,
        ).count(v),
    decreases n,
{
    broadcast use vstd::multiset::group_multiset_axioms, vstd::seq_lib::lemma_multiset_commutative;

    if n > 0 {
        lemma_sides_of_room(teams, room, n - 1, v);
        let a = side_of_room(teams, room, 0, n - 1);
        let b = side_of_room(teams, room, 1, n - 1);
        let f = flagged(teams, room[n - 1]);
        assert((a + b).to_multiset() =~= a.to_multiset().add(b.to_multiset()));
        assert((side_of_room(teams, room, 0, n) + side_of_room(teams, room, 1, n)).to_multiset().count(v) == a.to_multiset().count(v)
            + b.to_multiset().count(v) + f.to_multiset().count(v)) by {
            if (n - 1) % 2 == 0 {
                assert((a + f).to_multiset() =~= a.to_multiset().add(f.to_multiset()));
                assert(((a + f) + (b + seq![])).to_multiset() =~= (a + f).to_multiset().add((b + seq![]).to_multiset()));
                assert(b + seq![] =~= b);
            } else {
                assert((b + f).to_multiset() =~= b.to_multiset().add(f.to_multiset()));
                assert(((a + seq![]) + (b + f)).to_multiset() =~= (a + seq![]).to_multiset().add((b + f).to_multiset()));
                assert(a + seq![] =~= a);
            }
        }
    }
}

proof fn lemma_drawn_teams_counts(teams: Seq<Team>, placement: Seq<Vec<Vec<bool>>>, m: int, v: Team)
    requires
        0 <= m <= placement.len(),
    ensures
        drawn_teams(teams, placement, m).to_multiset().count(v) == placement_teams(teams, placement, m).count(v),
    decreases m,
{
    broadcast use vstd::multiset::group_multiset_axioms, vstd::seq_lib::lemma_multiset_commutative,
        vstd::seq_lib::group_to_multiset_ensures;

    if m == 0 {
        assert(!drawn_teams(teams, placement, m).contains(v));
    } else {
        lemma_drawn_teams_counts(teams, placement, m - 1, v);
        let room = placement[m - 1];
        lemma_sides_of_room(teams, room_view(room), room@.len() as int, v);
        let d = drawn_teams(teams, placement, m - 1);
        let p = prop_of_room(teams, room);
        let o = opp_of_room(teams, room);
        assert((d + p + o).to_multiset() =~= (d + p).to_multiset().add(o.to_multiset()));
        assert((d + p).to_multiset() =~= d.to_multiset().add(p.to_multiset()));
        assert((p + o).to_multiset() =~= p.to_multiset().add(o.to_multiset()));
        assert(drawn_teams(teams, placement, m) == d + p + o);
        assert(p == side_of_room(teams, room_view(room), 0, room@.len() as int));
        assert(o == side_of_room(teams, room_view(room), 1, room@.len() as int));
        assert(placement_teams(teams, placement, m).count(v) == placement_teams(teams, placement, m - 1).count(v)
            + room_teams(teams, room_view(room), room@.len() as int).count(v));
    }
}

/// A placement that gives every team exactly one position of one room
/// draws every team exactly once: the teams of its rooms are the teams
/// given, each as often as it was given.
pub proof fn lemma_placement_draws_each_team_once(teams: Seq<Team>, placement: Seq<Vec<Vec<bool>>>)
    requires
        places_each_team_once(teams, placement),
    ensures
        drawn_teams(teams, placement, placement.len() as int).to_multiset() == teams.to_multiset(),
{
    assert forall|v: Team| #[trigger] drawn_teams(teams, placement, placement.len() as int).to_multiset().count(v)
        == teams.to_multiset().count(v) by {
        lemma_drawn_teams_counts(teams, placement, placement.len() as int, v);
        lemma_placed_prefix(teams, placement, teams.len() as int, v);
        assert(teams.take(teams.len() as int) =~= teams);
    }
    assert(drawn_teams(teams, placement, placement.len() as int).to_multiset() =~= teams.to_multiset());
}

} // verus!

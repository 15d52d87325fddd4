//! Generating the draw of a round: the ticket that guards a generation, a
//! random draw, and the debates and team positions a draw is stored as.
use vstd::prelude::*;
use rand::seq::IteratorRandom;
use crate::participants::Team;
use crate::rounds::Round;
use crate::standings::{TeamStandings, TeamHistory};
use crate::draws::{Debate, DebateTeam};
use crate::aggregate::new_id;
use crate::text::{nat_text, u64_to_string};
use vstd::arithmetic::div_mod::lemma_fundamental_div_mod;
use crate::tournament::Tournament;

verus! {

#[verifier::external_type_specification]
#[verifier::external_body]
pub struct ExChaCha20Rng(rand_chacha::ChaCha20Rng);

/// Why a draw could not be made. The messages are shown to the user.
pub enum MakeDrawError {
    InvalidConfiguration(String),
    InvalidTeamCount(String),
    AlreadyInProgress,
    TicketExpired,
    Panic,
}

/// The teams of a room: proposition teams, then opposition teams.
pub type TeamsOfRoom = (Vec<Team>, Vec<Team>);

/// What a draw generator is given.
pub struct DrawInput {
    pub tournament: Tournament,
    pub round: Round,
    pub teams: Vec<Team>,
    pub standings: TeamStandings,
    pub history: TeamHistory,
    pub rng: rand_chacha::ChaCha20Rng,
}

/// The sequence number of the ticket a draw generation takes, given the
/// highest sequence number among the round's unreleased draw tickets:
/// without one, the first ticket (0); with one, the next ticket when the
/// generation is forced, and otherwise the generation is refused as
/// already in progress.
pub fn next_draw_ticket(previous_ticket_seq: Option<i64>, force: bool) -> (r: Result<i64, MakeDrawError>)
    requires
        force && previous_ticket_seq is Some ==> previous_ticket_seq->0 < i64::MAX,
    ensures
        match previous_ticket_seq {
            Some(p) => if force {
                r matches Ok(q) && q == p + 1
            } else {
                r matches Err(MakeDrawError::AlreadyInProgress)
            },
            None => r matches Ok(q) && q == 0,
        },
{
    match previous_ticket_seq {
        Some(p) => {
            if force {
                Ok(p + 1)
            } else {
                Err(MakeDrawError::AlreadyInProgress)
            }
        },
        None => Ok(0),
    }
}

/// Whether a generated draw may be stored: only while no other ticket with
/// a higher sequence number is active; otherwise the ticket has expired.
pub fn check_ticket_current(exists_active_ticket_with_higher_seq: bool) -> (r: Result<(), MakeDrawError>)
    ensures
        exists_active_ticket_with_higher_seq <==> r matches Err(MakeDrawError::TicketExpired),
        !exists_active_ticket_with_higher_seq <==> r is Ok,
{
    if exists_active_ticket_with_higher_seq {
        Err(MakeDrawError::TicketExpired)
    } else {
        Ok(())
    }
}

/// What a draw generator gave back.
pub enum GeneratorAnswer {
    /// A draw.
    Drawn,
    /// A refusal, with its reason.
    Refused(MakeDrawError),
    /// The generator panicked.
    Panicked,
}

/// What a draw generation does once its generator has answered.
pub enum AfterGeneration {
    /// Check that the ticket is still current, then store the draw.
    StoreDraw,
    /// Release the ticket and report the error.
    Abandon(MakeDrawError),
}

/// The step after the generator answers: a draw goes on to be stored; a
/// refusal is reported as it is, and a panic as an internal error, the
/// ticket being released in both cases.
pub fn after_generation(answer: GeneratorAnswer) -> (r: AfterGeneration)
    ensures
        match answer {
            GeneratorAnswer::Drawn => r is StoreDraw,
            GeneratorAnswer::Refused(e) => r matches AfterGeneration::Abandon(x) && x == e,
            GeneratorAnswer::Panicked => r matches AfterGeneration::Abandon(x) && x is Panic,
        },
{
    match answer {
        GeneratorAnswer::Drawn => AfterGeneration::StoreDraw,
        GeneratorAnswer::Refused(e) => AfterGeneration::Abandon(e),
        GeneratorAnswer::Panicked => AfterGeneration::Abandon(MakeDrawError::Panic),
    }
}

/// How a generated draw is stored, once it is known whether its ticket
/// has expired.
pub struct StorePlan {
    /// Delete the round's earlier debates first.
    pub delete_debates: bool,
    /// Mark the draw a draft and insert its rows.
    pub store_draw: bool,
    /// What the generation answers.
    pub result: Result<(), MakeDrawError>,
}

/// The plan for storing a draw: where the ticket is still current, the
/// draw is stored, the round's old debates being deleted first when the
/// generation was forced; where it has expired, nothing is stored and the
/// generation answers that the ticket expired. The ticket is released and
/// a snapshot taken either way.
pub fn store_plan(exists_active_ticket_with_higher_seq: bool, force: bool) -> (r: StorePlan)
    ensures
        r.store_draw == !exists_active_ticket_with_higher_seq,
        r.delete_debates == (!exists_active_ticket_with_higher_seq && force),
        exists_active_ticket_with_higher_seq ==> r.result matches Err(MakeDrawError::TicketExpired),
        !exists_active_ticket_with_higher_seq ==> r.result is Ok,
{
    let result = check_ticket_current(exists_active_ticket_with_higher_seq);
    let current = !exists_active_ticket_with_higher_seq;
    StorePlan { delete_debates: current && force, store_draw: current, result }
}

/// The stored rows of a draw.
pub struct DrawRows {
    pub debates: Vec<Debate>,
    pub debate_teams: Vec<DebateTeam>,
}

/// The team positions of the first rooms of a draw: for each room `r`, its
/// proposition teams in order (side 0, positions 0, 1, ...) and then its
/// opposition teams (side 1).
pub open spec fn draw_slots(draw: Seq<TeamsOfRoom>) -> Seq<(int, Seq<char>, int, int)>
    decreases draw.len(),
{
    if draw.len() == 0 {
        seq![]
    } else {
        let r = draw.len() - 1;
        draw_slots(draw.drop_last()) + Seq::new(
            draw.last().0@.len(),
            |i: int| (r, draw.last().0@[i].id@, 0int, (i as i64) as int),
        ) + Seq::new(draw.last().1@.len(), |i: int| (r, draw.last().1@[i].id@, 1int, (i as i64) as int))
    }
}

/// Whether a stored team position holds a slot of the draw.
pub open spec fn slot_stored(
    dt: DebateTeam,
    debates: Seq<Debate>,
    slot: (int, Seq<char>, int, int),
    tournament_id: Seq<char>,
) -> bool {
    &&& 0 <= slot.0 < debates.len()
    &&& dt.debate_id == debates[slot.0].id
    &&& dt.tournament_id@ == tournament_id
    &&& dt.team_id@ == slot.1
    &&& dt.side == slot.2
    &&& dt.seq == slot.3
}

/// Whether the stored team positions are the slots of the draw, in order.
pub open spec fn slots_stored(
    teams: Seq<DebateTeam>,
    debates: Seq<Debate>,
    slots: Seq<(int, Seq<char>, int, int)>,
    tournament_id: Seq<char>,
) -> bool {
    &&& teams.len() == slots.len()
    &&& forall|k: int| 0 <= k < teams.len() ==> slot_stored(#[trigger] teams[k], debates, slots[k], tournament_id)
}

/// Whether a debate row is the `r`th debate of a new draw.
pub open spec fn new_debate_matches(d: Debate, tournament_id: Seq<char>, round_id: Seq<char>, r: int) -> bool {
    &&& d.tournament_id@ == tournament_id
    &&& d.round_id@ == round_id
    &&& d.room_id is None
    &&& d.status@ == "draft"@
    &&& d.number == r + 1
}

fn push_side(
    out: &mut Vec<DebateTeam>,
    teams: &Vec<Team>,
    debate_id: &String,
    tournament_id: &String,
    side: i64,
    r: Ghost<int>,
)
    requires
        side == 0 || side == 1,
    ensures
        final(out)@.len() == old(out)@.len() + teams@.len(),
        forall|k: int| 0 <= k < old(out)@.len() ==> #[trigger] final(out)@[k] == old(out)@[k],
        forall|i: int|
            0 <= i < teams@.len() ==> {
                let dt = #[trigger] final(out)@[old(out)@.len() + i];
                &&& dt.debate_id == *debate_id
                &&& dt.tournament_id == *tournament_id
                &&& dt.team_id@ == teams@[i].id@
                &&& dt.side == side
                &&& dt.seq == i as i64
            },
{
    let mut i: usize = 0;
    while i < teams.len()
        invariant
            i <= teams.len(),
            out@.len() == old(out)@.len() + i,
            forall|k: int| 0 <= k < old(out)@.len() ==> #[trigger] out@[k] == old(out)@[k],
            forall|j: int|
                0 <= j < i ==> {
                    let dt = #[trigger] out@[old(out)@.len() + j];
                    &&& dt.debate_id == *debate_id
                    &&& dt.tournament_id == *tournament_id
                    &&& dt.team_id@ == teams@[j].id@
                    &&& dt.side == side
                    &&& dt.seq == j as i64
                },
        decreases teams.len() - i,
    {
        let seq: i64 = #[verifier::truncate] (i as i64);
        out.push(
            DebateTeam {
                id: new_id(),
                tournament_id: tournament_id.clone(),
                debate_id: debate_id.clone(),
                team_id: teams[i].id.clone(),
                side,
                seq,
            },
        );
        i = i + 1;
    }
}

} // verus!

verus! {

/// The rows that store a draw: one debate per room, numbered from 1 in
/// order, a draft without a room; and one team position per team of each
/// room (see `draw_slots`), pointing at its room's debate.
pub fn debates_of_draw(draw: &Vec<TeamsOfRoom>, tournament_id: &String, round_id: &String) -> (r: DrawRows)
    requires
        draw@.len() < i64::MAX,
    ensures
        r.debates@.len() == draw@.len(),
        forall|k: int| 0 <= k < r.debates@.len() ==> new_debate_matches(#[trigger] r.debates@[k], tournament_id@, round_id@, k),
        slots_stored(r.debate_teams@, r.debates@, draw_slots(draw@), tournament_id@),
{
    proof {
        reveal_strlit("draft");
    }
    let mut debates: Vec<Debate> = Vec::new();
    let mut debate_teams: Vec<DebateTeam> = Vec::new();
    let mut debate_no: i64 = 1;
    let mut r: usize = 0;
    while r < draw.len()
        invariant
            r <= draw.len(),
            draw@.len() < i64::MAX,
            debate_no == r + 1,
            debates@.len() == r,
            forall|k: int| 0 <= k < r ==> new_debate_matches(#[trigger] debates@[k], tournament_id@, round_id@, k),
            slots_stored(debate_teams@, debates@, draw_slots(draw@.take(r as int)), tournament_id@),
        decreases draw.len() - r,
    {
        let debate_id = new_id();
        let ghost debate_id_copy = debate_id;
        let room = &draw[r];
        let ghost prev_slots = draw_slots(draw@.take(r as int));
        let ghost prev_teams = debate_teams@;
        proof {
            assert(draw@.take(r as int + 1).drop_last() =~= draw@.take(r as int));
            assert(draw@.take(r as int + 1).last() == draw@[r as int]);
        }
        push_side(&mut debate_teams, &room.0, &debate_id, tournament_id, 0, Ghost(r as int));
        let ghost mid_teams = debate_teams@;
        push_side(&mut debate_teams, &room.1, &debate_id, tournament_id, 1, Ghost(r as int));
        let ghost prev_debates = debates@;
        debates.push(
            Debate {
                id: debate_id,
                tournament_id: tournament_id.clone(),
                round_id: round_id.clone(),
                room_id: None,
                number: debate_no,
                status: String::from_str("draft"),
            },
        );
        let ghost slots = draw_slots(draw@.take(r as int + 1));
        proof {
            let a = Seq::new(room.0@.len(), |i: int| (r as int, room.0@[i].id@, 0int, (i as i64) as int));
            let b = Seq::new(room.1@.len(), |i: int| (r as int, room.1@[i].id@, 1int, (i as i64) as int));
            assert(slots == prev_slots + a + b);
            assert forall|k: int| 0 <= k < debate_teams@.len() implies slot_stored(
                #[trigger] debate_teams@[k],
                debates@,
                slots[k],
                tournament_id@,
            ) by {
                if k < prev_teams.len() {
                    assert(debate_teams@[k] == mid_teams[k]);
                    assert(mid_teams[k] == prev_teams[k]);
                    assert(slots[k] == prev_slots[k]);
                    assert(debates@[prev_slots[k].0] == prev_debates[prev_slots[k].0]);
                    assert(slot_stored(prev_teams[k], prev_debates, prev_slots[k], tournament_id@));
                } else if k < mid_teams.len() {
                    let i = k - prev_teams.len();
                    assert(debate_teams@[k] == mid_teams[k]);
                    assert(slots[k] == a[i]);
                    assert(a[i] == (r as int, room.0@[i].id@, 0int, (i as i64) as int));
                    assert(mid_teams[prev_teams.len() + i].debate_id == debate_id_copy);
                    assert(debates@[r as int].id == debate_id_copy);
                    assert(mid_teams[prev_teams.len() + i].seq == i as i64);
                } else {
                    let i = k - mid_teams.len();
                    assert(slots[k] == b[i]);
                    assert(debate_teams@[mid_teams.len() + i].debate_id == debate_id_copy);
                    assert(debates@[r as int].id == debate_id_copy);
                }
            }
            assert forall|k: int| 0 <= k < r + 1 implies new_debate_matches(#[trigger] debates@[k], tournament_id@, round_id@, k) by {
                if k < r {
                    assert(debates@[k] == prev_debates[k]);
                }
            }
        }
        debate_no = debate_no + 1;
        r = r + 1;
    }
    assert(draw@.take(draw.len() as int) =~= draw@);
    DrawRows { debates, debate_teams }
}

} // verus!

verus! {

/// Picks an index below `len` at random, or nothing where `len` is 0.
/// Calls `IteratorRandom::choose` of `rand` on the range `0..len`: for a
/// range, whose length is known, it gives `None` for an empty range and
/// otherwise one of its items. Which item comes out is left unsaid.
#[verifier::external_body]
fn choose_index(rng: &mut rand_chacha::ChaCha20Rng, len: usize) -> (r: Option<usize>)
    ensures
        len == 0 <==> r is None,
        r matches Some(i) ==> i < len,
{
    (0..len).choose(rng)
}

/// The teams of a draw, room by room: each room's proposition teams, then
/// its opposition teams.
pub open spec fn drawn_teams(draw: Seq<TeamsOfRoom>) -> Seq<Team>
    decreases draw.len(),
{
    if draw.len() == 0 {
        seq![]
    } else {
        drawn_teams(draw.drop_last()) + draw.last().0@ + draw.last().1@
    }
}

/// The message when no team is available.
pub open spec fn no_teams_message() -> Seq<char> {
    "There are no available teams!"@
}

/// The message when `n` teams cannot fill rooms of `d` teams.
pub open spec fn indivisible_message(d: nat, n: nat) -> Seq<char> {
    "Expected the number of teams to be divisible by "@ + nat_text(d)
        + ".\n             However, there are $"@ + nat_text(n) + " available teams to be drawn."@
}

proof fn lemma_swap_remove_multiset(s: Seq<Team>, i: int)
    requires
        0 <= i < s.len(),
    ensures
        s.update(i, s.last()).drop_last().to_multiset().insert(s[i]) =~= s.to_multiset(),
{
    broadcast use vstd::seq_lib::group_to_multiset_ensures;
    broadcast use vstd::multiset::group_multiset_properties;

    let u = s.update(i, s.last());
    assert(u.remove(u.len() - 1) =~= u.drop_last());
    assert(u.to_multiset() == s.to_multiset().insert(s.last()).remove(s[i]));
    assert(u.drop_last().to_multiset() == u.to_multiset().remove(u.last()));
    assert(u.last() == s.last() || i == s.len() - 1);
    assert(s.to_multiset().count(s[i]) > 0);
}

/// A sequence with the item at `i` taken out, the last item moving into
/// its place.
pub open spec fn swap_removed(s: Seq<Team>, i: int) -> Seq<Team> {
    s.update(i, s.last()).drop_last()
}

/// The teams left after the first `k` choices, each choice taking out the
/// team at its index among those left.
pub open spec fn remaining_after(teams: Seq<Team>, choices: Seq<usize>, k: int) -> Seq<Team>
    decreases k,
{
    if k <= 0 {
        teams
    } else {
        swap_removed(remaining_after(teams, choices, k - 1), choices[k - 1] as int)
    }
}

/// Choices that take all `n` teams one by one: the `k`th choice is an
/// index among the `n - k` teams still left.
pub open spec fn choices_fit(n: int, choices: Seq<usize>) -> bool {
    &&& choices.len() == n
    &&& forall|k: int| 0 <= k < n ==> #[trigger] choices[k] < n - k
}

/// The teams in the order that the choices take them.
pub open spec fn picked_teams(teams: Seq<Team>, choices: Seq<usize>) -> Seq<Team> {
    Seq::new(choices.len(), |k: int| remaining_after(teams, choices, k)[choices[k] as int])
}

/// The rooms of teams taken in order: each room takes `tps` proposition
/// teams, then `tps` opposition teams.
pub open spec fn rooms_of_picks(picked: Seq<Team>, tps: int) -> Seq<(Seq<Team>, Seq<Team>)> {
    Seq::new(
        (picked.len() as int / (2 * tps)) as nat,
        |r: int|
            (picked.subrange(2 * tps * r, 2 * tps * r + tps), picked.subrange(2 * tps * r + tps, 2 * tps * r + 2 * tps)),
    )
}

/// The teams of each room of a draw.
pub open spec fn room_views(draw: Seq<TeamsOfRoom>) -> Seq<(Seq<Team>, Seq<Team>)> {
    draw.map_values(|x: TeamsOfRoom| (x.0@, x.1@))
}

/// Takes every team out in the order the choices say.
fn take_in_order(teams: Vec<Team>, choices: &Vec<usize>) -> (picked: Vec<Team>)
    requires
        choices_fit(teams@.len() as int, choices@),
    ensures
        picked@ == picked_teams(teams@, choices@),
        picked@.to_multiset() =~= teams@.to_multiset(),
{
    broadcast use vstd::seq_lib::group_to_multiset_ensures;
    broadcast use vstd::multiset::group_multiset_properties;

    let ghost all = teams@;
    let mut rest = teams;
    let mut picked: Vec<Team> = Vec::new();
    let n = rest.len();
    let mut k: usize = 0;
    while k < n
        invariant
            n == all.len(),
            choices_fit(n as int, choices@),
            k <= n,
            rest@ == remaining_after(all, choices@, k as int),
            rest@.len() == n - k,
            picked@.len() == k,
            forall|j: int| 0 <= j < k ==> #[trigger] picked@[j] == picked_teams(all, choices@)[j],
            rest@.to_multiset().add(picked@.to_multiset()) =~= all.to_multiset(),
        decreases n - k,
    {
        let idx = choices[k];
        assert(idx < n - k);
        let ghost before = rest@;
        let ghost before_picked = picked@;
        let t = rest.swap_remove(idx);
        proof {
            lemma_swap_remove_multiset(before, idx as int);
            assert(rest@.to_multiset().insert(t) =~= before.to_multiset());
            assert(rest@ == remaining_after(all, choices@, k as int + 1));
        }
        picked.push(t);
        proof {
            assert(picked@ == before_picked.push(t));
            vstd::seq_lib::to_multiset_build(before_picked, t);
            assert(picked@.to_multiset() =~= before_picked.to_multiset().insert(t));
            assert(rest@.to_multiset().add(picked@.to_multiset()) =~= before.to_multiset().add(
                before_picked.to_multiset(),
            ));
            assert(picked@[k as int] == picked_teams(all, choices@)[k as int]);
        }
        k = k + 1;
    }
    assert(picked@ =~= picked_teams(all, choices@));
    picked
}

/// The teams from `lo` up to `hi` of a sequence, in order.
fn copy_range(picked: &Vec<Team>, lo: usize, hi: usize) -> (r: Vec<Team>)
    requires
        lo <= hi <= picked@.len(),
    ensures
        r@ == picked@.subrange(lo as int, hi as int),
{
    let mut out: Vec<Team> = Vec::new();
    let mut i = lo;
    while i < hi
        invariant
            lo <= i <= hi,
            hi <= picked@.len(),
            out@ == picked@.subrange(lo as int, i as int),
        decreases hi - i,
    {
        out.push(picked[i].clone());
        assert(out@ =~= picked@.subrange(lo as int, i as int + 1));
        i = i + 1;
    }
    out
}

proof fn lemma_drawn_teams_push(draw: Seq<TeamsOfRoom>, room: TeamsOfRoom)
    ensures
        drawn_teams(draw.push(room)) == drawn_teams(draw) + room.0@ + room.1@,
{
    assert(draw.push(room).drop_last() =~= draw);
}

/// The draw that a sequence of choices gives: the teams are taken out one
/// by one, each choice an index among the teams still left (the last team
/// moving into the place of the one taken), and each room gets the next
/// `teams_per_side` teams taken as proposition, then the next as
/// opposition.
pub fn draw_of_choices(teams: Vec<Team>, choices: &Vec<usize>, teams_per_side: i64) -> (r: Vec<TeamsOfRoom>)
    requires
        1 <= teams_per_side,
        2 * teams_per_side <= usize::MAX,
        teams@.len() % (2 * teams_per_side) as nat == 0,
        choices_fit(teams@.len() as int, choices@),
    ensures
        room_views(r@) == rooms_of_picks(picked_teams(teams@, choices@), teams_per_side as int),
        r@.len() == teams@.len() / (2 * teams_per_side) as nat,
        forall|k: int|
            0 <= k < r@.len() ==> (#[trigger] r@[k]).0@.len() == teams_per_side && r@[k].1@.len() == teams_per_side,
        drawn_teams(r@).to_multiset() =~= teams@.to_multiset(),
{
    let ghost all = teams@;
    let picked = take_in_order(teams, choices);
    let tps = teams_per_side as usize;
    let d: usize = tps + tps;
    let n = picked.len();
    let rooms = n / d;
    proof {
        lemma_fundamental_div_mod(n as int, d as int);
        assert(n == d * rooms);
        assert(n == rooms * d) by (nonlinear_arith)
            requires
                n == d * rooms,
        ;
    }
    let mut output: Vec<TeamsOfRoom> = Vec::new();
    let mut pos: usize = 0;
    while output.len() < rooms
        invariant
            tps == teams_per_side,
            d == 2 * tps,
            n == picked@.len(),
            rooms * d == n,
            output@.len() <= rooms,
            pos == output@.len() * d,
            drawn_teams(output@) == picked@.take(pos as int),
            forall|j: int|
                0 <= j < output@.len() ==> (#[trigger] output@[j]).0@ == picked@.subrange(d * j, d * j + tps)
                    && output@[j].1@ == picked@.subrange(d * j + tps, d * j + d),
        decreases rooms - output@.len(),
    {
        proof {
            let o = output@.len() as int;
            assert(pos + d <= n) by (nonlinear_arith)
                requires
                    pos == o * d,
                    o < rooms,
                    rooms * d == n,
                    d >= 0,
            ;
        }
        let prop = copy_range(&picked, pos, pos + tps);
        let opp = copy_range(&picked, pos + tps, pos + d);
        let ghost before = output@;
        output.push((prop, opp));
        proof {
            lemma_drawn_teams_push(before, (prop, opp));
            assert(picked@.take(pos as int) + picked@.subrange(pos as int, pos + tps) + picked@.subrange(
                pos + tps,
                pos + d,
            ) =~= picked@.take(pos + d));
            assert(pos + d == output@.len() * d) by (nonlinear_arith)
                requires
                    pos == before.len() * d,
                    output@.len() == before.len() + 1,
            ;
            assert forall|j: int| 0 <= j < output@.len() implies (#[trigger] output@[j]).0@ == picked@.subrange(
                d * j,
                d * j + tps,
            ) && output@[j].1@ == picked@.subrange(d * j + tps, d * j + d) by {
                if j < before.len() {
                    assert(output@[j] == before[j]);
                } else {
                    assert(d * j == pos) by (nonlinear_arith)
                        requires
                            j == before.len(),
                            pos == before.len() * d,
                    ;
                }
            }
        }
        pos = pos + d;
    }
    proof {
        assert(pos == n) by (nonlinear_arith)
            requires
                pos == output@.len() * d,
                output@.len() == rooms,
                rooms * d == n,
        ;
        assert(picked@.take(n as int) =~= picked@);
        assert(room_views(output@) =~= rooms_of_picks(picked@, teams_per_side as int));
        assert forall|k: int| 0 <= k < output@.len() implies (#[trigger] output@[k]).0@.len() == teams_per_side
            && output@[k].1@.len() == teams_per_side by {
            assert(d * k + d <= n) by (nonlinear_arith)
                requires
                    0 <= k < rooms,
                    rooms * d == n,
                    d >= 0,
            ;
        }
    }
    output
}

/// A random draw: rooms of `teams_per_side` proposition and as many
/// opposition teams, drawn at random from the available teams until none
/// is left. Refused when no team is available, or when the teams cannot
/// fill the rooms exactly. The teams are taken one by one, each at an index
/// drawn among those still left; the draw is `draw_of_choices` of those
/// indices.
pub fn gen_random(input: DrawInput) -> (r: Result<Vec<TeamsOfRoom>, MakeDrawError>)
    requires
        i64::MIN <= 2 * input.tournament.teams_per_side <= i64::MAX,
        input.teams@.len() > 0 ==> 1 <= input.tournament.teams_per_side,
        input.teams@.len() > 0 ==> 2 * input.tournament.teams_per_side <= usize::MAX,
    ensures
        input.teams@.len() == 0 ==> (r matches Err(MakeDrawError::InvalidTeamCount(m)) && m@ == no_teams_message()),
        input.teams@.len() > 0 && input.teams@.len() % (2 * input.tournament.teams_per_side) as nat != 0
            ==> (r matches Err(MakeDrawError::InvalidTeamCount(m)) && m@ == indivisible_message(
                (2 * input.tournament.teams_per_side) as nat,
                input.teams@.len(),
            )),
        input.teams@.len() > 0 && input.teams@.len() % (2 * input.tournament.teams_per_side) as nat == 0
            ==> (r matches Ok(draw) && {
                &&& exists|c: Seq<usize>|
                    #[trigger] choices_fit(input.teams@.len() as int, c) && room_views(draw@) == rooms_of_picks(
                        picked_teams(input.teams@, c),
                        input.tournament.teams_per_side as int,
                    )
                &&& draw@.len() == input.teams@.len() / (2 * input.tournament.teams_per_side) as nat
                &&& forall|k: int|
                    0 <= k < draw@.len() ==> (#[trigger] draw@[k]).0@.len()
                        == input.tournament.teams_per_side && draw@[k].1@.len()
                        == input.tournament.teams_per_side
                &&& drawn_teams(draw@).to_multiset() =~= input.teams@.to_multiset()
            }),
{
    let tps = input.tournament.teams_per_side;
    let teams = input.teams;
    let mut rng = input.rng;
    let denominator: usize = #[verifier::truncate] ((tps * 2) as usize);
    if teams.len() == 0 {
        proof {
            reveal_strlit("There are no available teams!");
        }
        return Err(MakeDrawError::InvalidTeamCount(String::from_str("There are no available teams!")));
    }
    if teams.len() % denominator != 0 {
        let msg = String::from_str("Expected the number of teams to be divisible by ").concat(
            u64_to_string(denominator as u64).as_str(),
        ).concat(".\n             However, there are $").concat(u64_to_string(teams.len() as u64).as_str()).concat(
            " available teams to be drawn.",
        );
        return Err(MakeDrawError::InvalidTeamCount(msg));
    }
    let n = teams.len();
    let mut choices: Vec<usize> = Vec::new();
    let mut k: usize = 0;
    while k < n
        invariant
            k <= n,
            choices@.len() == k,
            forall|j: int| 0 <= j < k ==> #[trigger] choices@[j] < n - j,
        decreases n - k,
    {
        match choose_index(&mut rng, n - k) {
            Some(i) => {
                choices.push(i);
            },
            None => {
                proof {
                    assert(false);
                }
            },
        }
        k = k + 1;
    }
    assert(choices_fit(n as int, choices@));
    Ok(draw_of_choices(teams, &choices, tps))
}

} // verus!

verus! {

/// The message shown for a draw that could not be made; nothing where the
/// generation is already in progress (the user is offered to override it).
pub fn draw_error_text(e: &MakeDrawError) -> (r: Option<String>)
    ensures
        match *e {
            MakeDrawError::InvalidConfiguration(s) => r matches Some(m) && m@ == "Invalid configuration: "@ + s@,
            MakeDrawError::InvalidTeamCount(s) => r matches Some(m) && m@ == "Wrong number of teams: "@ + s@,
            MakeDrawError::AlreadyInProgress => r is None,
            MakeDrawError::TicketExpired => r matches Some(m) && m@ == "Draw generation was cancelled."@,
            MakeDrawError::Panic => r matches Some(m) && m@ == "Internal application error."@,
        },
{
    match e {
        MakeDrawError::InvalidConfiguration(s) => Some(String::from_str("Invalid configuration: ").concat(s.as_str())),
        MakeDrawError::InvalidTeamCount(s) => Some(String::from_str("Wrong number of teams: ").concat(s.as_str())),
        MakeDrawError::AlreadyInProgress => None,
        MakeDrawError::TicketExpired => Some(String::from_str("Draw generation was cancelled.")),
        MakeDrawError::Panic => Some(String::from_str("Internal application error.")),
    }
}

/// The message when `n` teams cannot fill rooms of `d` teams, as the
/// power-paired draw words it.
pub open spec fn rooms_message(d: nat, n: nat) -> Seq<char> {
    "The number of available teams should be divisible by "@ + nat_text(d) + "\n             (there were "@
        + nat_text(n) + " teams)."@
}

/// The number of rooms of a power-paired draw of `team_count` teams: there
/// must be teams, and they must fill rooms of `2 * teams_per_side` exactly.
pub fn rooms_for_teams(team_count: usize, teams_per_side: i64) -> (r: Result<usize, MakeDrawError>)
    requires
        1 <= teams_per_side,
        2 * teams_per_side <= usize::MAX,
        2 * teams_per_side <= i64::MAX,
    ensures
        team_count == 0 ==> (r matches Err(MakeDrawError::InvalidTeamCount(m)) && m@ == "There are no teams!"@),
        team_count > 0 && (team_count as int) % (2 * teams_per_side) != 0 ==> (r matches Err(
            MakeDrawError::InvalidTeamCount(m),
        ) && m@ == rooms_message((2 * teams_per_side) as nat, team_count as nat)),
        team_count > 0 && (team_count as int) % (2 * teams_per_side) == 0 ==> (r matches Ok(rooms) && rooms as int
            == (team_count as int) / (2 * teams_per_side)),
{
    if team_count == 0 {
        return Err(MakeDrawError::InvalidTeamCount(String::from_str("There are no teams!")));
    }
    let teams_per_room: usize = (teams_per_side * 2) as usize;
    if team_count % teams_per_room != 0 {
        let msg = String::from_str("The number of available teams should be divisible by ").concat(
            u64_to_string(teams_per_room as u64).as_str(),
        ).concat("\n             (there were ").concat(u64_to_string(team_count as u64).as_str()).concat(" teams).");
        return Err(MakeDrawError::InvalidTeamCount(msg));
    }
    Ok(team_count / teams_per_room)
}

} // verus!

//! The names of the sides and positions of a debate.
use vstd::prelude::*;
use crate::text::{int_text, i64_to_string, lemma_int_text_injective, lemma_nat_text_shape};
use crate::tournament::Tournament;

verus! {

/// The name of the team at position `seq` on `side` (0 is proposition, 1 is
/// opposition), in a format with `teams_per_side` teams per side.
pub open spec fn side_name(teams_per_side: int, side: int, seq: int, short: bool) -> Seq<char> {
    if teams_per_side == 1 && side == 0 && seq == 0 {
        if short { "Gov"@ } else { "Government"@ }
    } else if teams_per_side == 1 && side == 1 && seq == 0 {
        if short { "Opp"@ } else { "Opposition"@ }
    } else if teams_per_side == 2 && side == 0 && seq == 0 {
        if short { "OG"@ } else { "Opening Government"@ }
    } else if teams_per_side == 2 && side == 1 && seq == 0 {
        if short { "OO"@ } else { "Opening Opposition"@ }
    } else if teams_per_side == 2 && side == 0 && seq == 1 {
        if short { "CG"@ } else { "Closing Government"@ }
    } else if teams_per_side == 2 && side == 1 && seq == 1 {
        if short { "CO"@ } else { "Closing Opposition"@ }
    } else {
        let prefix = if side == 0 {
            if short { "Prop"@ } else { "Proposition"@ }
        } else {
            if short { "Opp"@ } else { "Opposition"@ }
        };
        prefix + " "@ + int_text(seq)
    }
}

fn literal(s: &str) -> (r: String)
    ensures
        r@ == s@,
{
    String::from_str(s)
}

/// The name of the team at position `seq` on `side`, for example "OG" or
/// "Opening Government" in a two-teams-per-side format, and "Prop 3" where
/// the format has no special name for the position.
pub fn name_of_side(tournament: &Tournament, side: i64, seq: i64, short: bool) -> (r: String)
    requires
        side == 0 || side == 1,
    ensures
        r@ == side_name(tournament.teams_per_side as int, side as int, seq as int, short),
{
    proof {
        reveal_strlit("Gov");
        reveal_strlit("Government");
        reveal_strlit("Opp");
        reveal_strlit("Opposition");
        reveal_strlit("OG");
        reveal_strlit("Opening Government");
        reveal_strlit("OO");
        reveal_strlit("Opening Opposition");
        reveal_strlit("CG");
        reveal_strlit("Closing Government");
        reveal_strlit("CO");
        reveal_strlit("Closing Opposition");
        reveal_strlit("Prop");
        reveal_strlit("Proposition");
        reveal_strlit(" ");
    }
    let tps = tournament.teams_per_side;
    if tps == 1 && side == 0 && seq == 0 {
        if short { literal("Gov") } else { literal("Government") }
    } else if tps == 1 && side == 1 && seq == 0 {
        if short { literal("Opp") } else { literal("Opposition") }
    } else if tps == 2 && side == 0 && seq == 0 {
        if short { literal("OG") } else { literal("Opening Government") }
    } else if tps == 2 && side == 1 && seq == 0 {
        if short { literal("OO") } else { literal("Opening Opposition") }
    } else if tps == 2 && side == 0 && seq == 1 {
        if short { literal("CG") } else { literal("Closing Government") }
    } else if tps == 2 && side == 1 && seq == 1 {
        if short { literal("CO") } else { literal("Closing Opposition") }
    } else {
        let prefix = if side == 0 {
            if short { literal("Prop") } else { literal("Proposition") }
        } else {
            if short { literal("Opp") } else { literal("Opposition") }
        };
        let with_space = prefix.concat(" ");
        let number = i64_to_string(seq);
        with_space.concat(number.as_str())
    }
}

/// Two different positions of a debate never have the same name: in one
/// format and one style (short or long), the name of a position tells its
/// side and its place on that side.
pub proof fn lemma_side_names_distinct(teams_per_side: int, s1: int, q1: int, s2: int, q2: int, short: bool)
    requires
        s1 == 0 || s1 == 1,
        s2 == 0 || s2 == 1,
        s1 != s2 || q1 != q2,
    ensures
        side_name(teams_per_side, s1, q1, short) != side_name(teams_per_side, s2, q2, short),
{
    reveal_strlit("Gov");
    reveal_strlit("Government");
    reveal_strlit("Opp");
    reveal_strlit("Opposition");
    reveal_strlit("OG");
    reveal_strlit("Opening Government");
    reveal_strlit("OO");
    reveal_strlit("Opening Opposition");
    reveal_strlit("CG");
    reveal_strlit("Closing Government");
    reveal_strlit("CO");
    reveal_strlit("Closing Opposition");
    reveal_strlit("Prop");
    reveal_strlit("Proposition");
    reveal_strlit(" ");
    let a = side_name(teams_per_side, s1, q1, short);
    let b = side_name(teams_per_side, s2, q2, short);
    lemma_nat_text_shape(if q1 < 0 { (-q1) as nat } else { q1 as nat });
    lemma_nat_text_shape(if q2 < 0 { (-q2) as nat } else { q2 as nat });
    assert(int_text(q1).len() >= 1);
    assert(int_text(q2).len() >= 1);
    if a == b {
        assert(a.len() == b.len());
        assert(a[0] == b[0]);
        assert(a[1] == b[1]);
        assert(a[2] == b[2]);
        assert(a[8] == b[8]);
        let special1 = (teams_per_side == 1 && q1 == 0) || (teams_per_side == 2 && (q1 == 0 || q1 == 1));
        let special2 = (teams_per_side == 1 && q2 == 0) || (teams_per_side == 2 && (q2 == 0 || q2 == 1));
        if !special1 && !special2 && s1 == s2 {
            let prefix = if s1 == 0 {
                if short { "Prop"@ } else { "Proposition"@ }
            } else {
                if short { "Opp"@ } else { "Opposition"@ }
            };
            assert(a == prefix + " "@ + int_text(q1));
            assert(b == prefix + " "@ + int_text(q2));
            assert(a.subrange(prefix.len() as int + 1, a.len() as int) =~= int_text(q1));
            assert(b.subrange(prefix.len() as int + 1, b.len() as int) =~= int_text(q2));
            lemma_int_text_injective(q1, q2);
        }
    }
}

} // verus!
